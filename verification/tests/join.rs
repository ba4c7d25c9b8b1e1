use secure_path::oracle::{Query, Reply, Snapshot};
use secure_path::secure_join::secure_join;
use secure_path::walk::{Step, Walk};

struct TestData<'a> {
    name: &'a str,
    rootfs: &'a str,
    unsafe_path: &'a str,
    symlink_path: &'a str,
    result: String,
}

#[test]
fn test_secure_join() {
    // a directory that stands for the container rootfs, and what the
    // filesystem says of the paths that the symlinks lead through
    let rootfs_path = "/tmp/rootfs_dir";

    let tests = [
        TestData {
            name: "rootfs_not_exist",
            rootfs: "/home/rootfs",
            unsafe_path: "a/b/c",
            symlink_path: "",
            result: "/home/rootfs/a/b/c".to_string(),
        },
        TestData {
            name: "relative_path",
            rootfs: "/home/rootfs",
            unsafe_path: "../../../a/b/c",
            symlink_path: "",
            result: "/home/rootfs/a/b/c".to_string(),
        },
        TestData {
            name: "skip any ..",
            rootfs: "/home/rootfs",
            unsafe_path: "../../../a/../../b/../../c",
            symlink_path: "",
            result: "/home/rootfs/a/b/c".to_string(),
        },
        TestData {
            name: "rootfs is null",
            rootfs: "",
            unsafe_path: "",
            symlink_path: "",
            result: "/".to_string(),
        },
        TestData {
            name: "relative softlink beyond container rootfs",
            rootfs: rootfs_path,
            unsafe_path: "1",
            symlink_path: "../../../",
            result: rootfs_path.to_string(),
        },
        TestData {
            name: "abs softlink points to the non-exist directory",
            rootfs: rootfs_path,
            unsafe_path: "2",
            symlink_path: "/dddd",
            result: format!("{}/dddd", rootfs_path),
        },
        TestData {
            name: "abs softlink points to the root",
            rootfs: rootfs_path,
            unsafe_path: "3",
            symlink_path: "/",
            result: format!("{}/", rootfs_path),
        },
    ];

    let mut fs = Snapshot::new();
    fs.add_existing("/tmp/rootfs_dir", "/tmp/rootfs_dir");
    fs.add_existing("/tmp/rootfs_dir/..", "/tmp");
    fs.add_existing("/tmp/..", "/");
    fs.add_existing("/..", "/");

    for (i, t) in tests.iter().enumerate() {
        let msg = format!("test[{}]: {}", i, t.name);

        if t.symlink_path != "" {
            fs.add_link(&format!("{}/{}", t.rootfs, t.unsafe_path), t.symlink_path);
        }
        let result = secure_join(t.rootfs, t.unsafe_path, &fs);

        let msg = format!("{}, result: {:?}", msg, result);

        assert!(result == t.result, "{}", msg);
    }
}

#[test]
fn names_without_links_are_joined_to_the_root() {
    let fs = Snapshot::new();
    assert_eq!(secure_join("/home/rootfs", "a/b/c", &fs), "/home/rootfs/a/b/c");
    assert_eq!(secure_join("/home/rootfs", "../../../a/b/c", &fs), "/home/rootfs/a/b/c");
    assert_eq!(
        secure_join("/home/rootfs", "../../../a/../../b/../../c", &fs),
        "/home/rootfs/a/b/c"
    );
    assert_eq!(secure_join("/home/rootfs", "a//b/./c/", &fs), "/home/rootfs/a/b/c");
}

#[test]
fn empty_root_and_empty_path() {
    let fs = Snapshot::new();
    assert_eq!(secure_join("", "", &fs), "/");
}

#[test]
fn empty_path_gives_the_root_with_a_separator() {
    let fs = Snapshot::new();
    assert_eq!(secure_join("/home/rootfs", "", &fs), "/home/rootfs/");
    assert_eq!(secure_join("rootfs", "", &fs), "rootfs/");
}

#[test]
fn empty_root_starts_from_the_separator() {
    let fs = Snapshot::new();
    assert_eq!(secure_join("", "a/b", &fs), "/a/b");
    assert_eq!(secure_join("", "../a", &fs), "/a");
    assert_eq!(secure_join("", "..", &fs), "/");
}

#[test]
fn absolute_untrusted_path_does_not_replace_the_root() {
    let fs = Snapshot::new();
    assert_eq!(secure_join("/home/rootfs", "/etc/passwd", &fs), "/home/rootfs/etc/passwd");
    assert_eq!(secure_join("/home/rootfs", "//etc//passwd", &fs), "/home/rootfs/etc/passwd");
    assert_eq!(secure_join("/home/rootfs", "/", &fs), "/home/rootfs/");
}

#[test]
fn a_lone_parent_component_takes_the_separator_away() {
    let fs = Snapshot::new();
    assert_eq!(secure_join("/home/rootfs", "..", &fs), "/home/rootfs");
    assert_eq!(secure_join("/home/rootfs", "a/..", &fs), "/home/rootfs/a");
}

#[test]
fn a_leading_current_directory_is_kept_as_written() {
    let fs = Snapshot::new();
    assert_eq!(secure_join("/home/rootfs", "./a", &fs), "/home/rootfs/./a");
    assert_eq!(secure_join("/home/rootfs", ".", &fs), "/home/rootfs/.");
}

#[test]
fn nonexistent_root_is_a_plain_join() {
    let fs = Snapshot::new();
    assert_eq!(secure_join("/home/rootfs", "a/b/c", &fs), "/home/rootfs/a/b/c");
}

#[test]
fn relative_link_out_of_the_root_is_put_back_to_the_root() {
    let mut fs = Snapshot::new();
    fs.add_link("/tmp/rootfs_dir/1", "../../../");
    fs.add_existing("/tmp/rootfs_dir/..", "/tmp");
    assert_eq!(secure_join("/tmp/rootfs_dir", "1", &fs), "/tmp/rootfs_dir");
}

#[test]
fn relative_link_inside_the_root_is_made_canonical() {
    let mut fs = Snapshot::new();
    fs.add_link("/r/l", "d/../e");
    fs.add_existing("/r/d", "/r/d");
    fs.add_existing("/r/d/..", "/r");
    fs.add_existing("/r/e", "/r/real_e");
    assert_eq!(secure_join("/r", "l/f", &fs), "/r/real_e/f");
}

#[test]
fn relative_link_to_a_missing_target_is_appended_as_written() {
    let mut fs = Snapshot::new();
    fs.add_link("/r/l", "x/y");
    assert_eq!(secure_join("/r", "l", &fs), "/r/x/y");
    assert_eq!(secure_join("/r", "l/z", &fs), "/r/x/y/z");
}

#[test]
fn relative_link_that_ends_in_a_missing_parent_component() {
    let mut fs = Snapshot::new();
    fs.add_link("/r/l", "x/..");
    assert_eq!(secure_join("/r", "l", &fs), "/r/x");
}

#[test]
fn absolute_link_to_a_missing_target_is_written_behind_the_root() {
    let mut fs = Snapshot::new();
    fs.add_link("/tmp/rootfs_dir/2", "/dddd");
    assert_eq!(secure_join("/tmp/rootfs_dir", "2", &fs), "/tmp/rootfs_dir/dddd");
}

#[test]
fn absolute_link_to_the_filesystem_root_is_written_behind_the_root() {
    let mut fs = Snapshot::new();
    fs.add_link("/tmp/rootfs_dir/3", "/");
    assert_eq!(secure_join("/tmp/rootfs_dir", "3", &fs), "/tmp/rootfs_dir/");
}

#[test]
fn absolute_link_is_not_checked_against_the_filesystem() {
    let mut fs = Snapshot::new();
    fs.add_link("/r/l", "/etc");
    fs.add_existing("/r/etc", "/somewhere/else");
    assert_eq!(secure_join("/r", "l", &fs), "/r/etc");
    assert_eq!(secure_join("/r", "l/passwd", &fs), "/r/etc/passwd");
}

#[test]
fn absolute_link_that_ends_in_a_parent_component_loses_it() {
    let mut fs = Snapshot::new();
    fs.add_link("/r/l", "/a/..");
    assert_eq!(secure_join("/r", "l", &fs), "/r/a");
}

#[test]
fn later_record_overrules_an_earlier_one() {
    let mut fs = Snapshot::new();
    fs.add_link("/r/l", "/first");
    fs.add_link("/r/l", "/second");
    assert_eq!(secure_join("/r", "l", &fs), "/r/second");
    assert_eq!(
        fs.answer(&Query::ReadLink("/r/l".to_string())),
        Reply::Text("/second".to_string())
    );
    assert_eq!(fs.answer(&Query::Canonicalize("/r/l".to_string())), Reply::NotFound);
    fs.add_existing("/r/l", "/r/one");
    fs.add_existing("/r/l", "/r/two");
    assert_eq!(
        fs.answer(&Query::Canonicalize("/r/l".to_string())),
        Reply::Text("/r/two".to_string())
    );
    assert_eq!(fs.answer(&Query::ReadLink("/r/other".to_string())), Reply::NotFound);
}

#[test]
fn resolving_a_resolved_path_again_changes_nothing() {
    let fs = Snapshot::new();
    let once = secure_join("/home/rootfs", "../a/./b/../c", &fs);
    assert_eq!(once, "/home/rootfs/a/b/c");
    assert_eq!(secure_join("", &once, &fs), once);
    assert_eq!(secure_join("/home/rootfs", "a/b/c", &fs), once);
}

fn ask(step: Step) -> (Walk, Query) {
    match step {
        Step::Ask(walk) => {
            let query = walk.query();
            (walk, query)
        }
        Step::Done(path) => panic!("done with {:?}", path),
    }
}

fn done(step: Step) -> String {
    match step {
        Step::Done(path) => path,
        Step::Ask(_) => panic!("another question"),
    }
}

fn link(query: Query) -> String {
    match query {
        Query::ReadLink(path) => path,
        Query::Canonicalize(path) => panic!("canonical form of {:?} asked", path),
    }
}

fn canonical(query: Query) -> String {
    match query {
        Query::Canonicalize(path) => path,
        Query::ReadLink(path) => panic!("link at {:?} asked", path),
    }
}

#[test]
fn walk_without_components_is_done_at_once() {
    assert_eq!(done(Walk::begin("", "")), "/");
    assert_eq!(done(Walk::begin("/home/rootfs", "/")), "/home/rootfs/");
}

#[test]
fn walk_asks_for_a_link_at_every_component() {
    let (walk, query) = ask(Walk::begin("/home/rootfs", "../a/b"));
    assert_eq!(link(query), "/home/rootfs/..");
    let (walk, query) = ask(walk.answer(Reply::NotFound));
    assert_eq!(link(query), "/home/rootfs/a");
    let (walk, query) = ask(walk.answer(Reply::NotFound));
    assert_eq!(link(query), "/home/rootfs/a/b");
    assert_eq!(done(walk.answer(Reply::NotFound)), "/home/rootfs/a/b");
}

#[test]
fn walk_follows_a_relative_link_component_by_component() {
    let (walk, query) = ask(Walk::begin("/r", "l/f"));
    assert_eq!(link(query), "/r/l");
    let (walk, query) = ask(walk.answer(Reply::Text("d/../e".to_string())));
    assert_eq!(canonical(query), "/r/d");
    let (walk, query) = ask(walk.answer(Reply::Text("/r/d".to_string())));
    assert_eq!(canonical(query), "/r/d/..");
    let (walk, query) = ask(walk.answer(Reply::Text("/".to_string())));
    assert_eq!(canonical(query), "/r/e");
    let (walk, query) = ask(walk.answer(Reply::NotFound));
    assert_eq!(link(query), "/r/e/f");
    assert_eq!(done(walk.answer(Reply::NotFound)), "/r/e/f");
}

#[test]
fn walk_goes_on_from_an_absolute_link() {
    let (walk, query) = ask(Walk::begin("/r", "l/f"));
    assert_eq!(link(query), "/r/l");
    let (walk, query) = ask(walk.answer(Reply::Text("/etc".to_string())));
    assert_eq!(link(query), "/r/etc/f");
    assert_eq!(done(walk.answer(Reply::NotFound)), "/r/etc/f");
}

#[test]
fn walk_with_an_empty_link_target_steps_back_to_the_parent() {
    let (walk, query) = ask(Walk::begin("/r", "l"));
    assert_eq!(link(query), "/r/l");
    assert_eq!(done(walk.answer(Reply::Text(String::new()))), "/r");
}

fn no_text(kind: usize) -> Reply {
    match kind {
        0 => Reply::NotFound,
        1 => Reply::NotALink,
        _ => Reply::Failed,
    }
}

#[test]
fn replies_without_a_text_all_count_as_no_answer() {
    for kind in 0..3 {
        let (walk, query) = ask(Walk::begin("/r", "a/b"));
        assert_eq!(link(query), "/r/a");
        let (walk, query) = ask(walk.answer(no_text(kind)));
        assert_eq!(link(query), "/r/a/b");
        assert_eq!(done(walk.answer(no_text(kind))), "/r/a/b");
    }
    for kind in 0..3 {
        let (walk, query) = ask(Walk::begin("/r", "l"));
        assert_eq!(link(query), "/r/l");
        let (walk, query) = ask(walk.answer(Reply::Text("x".to_string())));
        assert_eq!(canonical(query), "/r/x");
        assert_eq!(done(walk.answer(no_text(kind))), "/r/x");
    }
}

#[test]
fn canonical_form_outside_the_root_puts_the_walk_back_to_the_root() {
    let (walk, query) = ask(Walk::begin("/r", "l/f"));
    assert_eq!(link(query), "/r/l");
    let (walk, query) = ask(walk.answer(Reply::Text("x/y".to_string())));
    assert_eq!(canonical(query), "/r/x");
    let (walk, query) = ask(walk.answer(Reply::Text("/elsewhere".to_string())));
    assert_eq!(canonical(query), "/r/y");
    let (walk, query) = ask(walk.answer(Reply::Text("/r2/y".to_string())));
    assert_eq!(link(query), "/r/f");
    assert_eq!(done(walk.answer(Reply::NotFound)), "/r/f");
}

const ROOTS: &[&str] = &[
    "",
    "/",
    "//",
    ".",
    "..",
    "r",
    "r/",
    "../r",
    "/r",
    "/r/",
    "/r//",
    "/r/.",
    "/r/..",
    "/r/../",
    "/home/rootfs",
    "/home/./rootfs",
    "/é",
];

const UNTRUSTED: &[&str] = &[
    "",
    "/",
    "//",
    ".",
    "./",
    "..",
    "../",
    "../..",
    "./..",
    "./a",
    "a",
    "a/",
    "/a",
    "//a//b",
    "a/b/c",
    "a/./b",
    "a/../b",
    "a/b/..",
    "a/../../b",
    "../../../a/b/c",
    "../../../a/../../b/../../c",
    "/../a/..",
    "...",
    ".a/..b",
    "é/../ü",
];

/// The join where nothing exists, written with the path type of the
/// standard library.
fn join_by_std(rootfs: &str, unsafe_path: &str) -> String {
    let mut path = std::path::PathBuf::from(format!("{}/", rootfs));
    for component in std::path::Path::new(unsafe_path).iter() {
        if std::path::Path::new(component).has_root() {
            continue;
        }
        path.push(component);
        if path.ends_with("..") {
            path.pop();
        }
    }
    path.to_str().unwrap().to_string()
}

#[test]
fn join_without_links_agrees_with_std() {
    let fs = Snapshot::new();
    for rootfs in ROOTS {
        for unsafe_path in UNTRUSTED {
            assert_eq!(
                secure_join(rootfs, unsafe_path, &fs),
                join_by_std(rootfs, unsafe_path),
                "{:?} under {:?}",
                unsafe_path,
                rootfs
            );
        }
    }
}

fn names(text: &str) -> Vec<String> {
    secure_path::text_path::TextPath::new(text)
        .components()
        .iter()
        .map(|component| component.to_text())
        .collect()
}

#[test]
fn components_of_the_result_are_those_of_the_root_and_the_names() {
    let fs = Snapshot::new();
    let result = secure_join("/home/rootfs", "../x/./../y/z/..", &fs);
    assert_eq!(names(&result), vec!["/", "home", "rootfs", "x", "y", "z"]);
    for rootfs in ROOTS {
        for unsafe_path in UNTRUSTED {
            let root_ends_in_parent = names(rootfs).last().map(|c| c == "..").unwrap_or(false);
            let path_begins_with_dot =
                names(unsafe_path).first().map(|c| c == ".").unwrap_or(false);
            if root_ends_in_parent && path_begins_with_dot {
                continue;
            }
            let mut expected = names(&format!("{}/", rootfs));
            for name in names(unsafe_path) {
                if name != "/" && name != "." && name != ".." {
                    expected.push(name);
                }
            }
            assert_eq!(
                names(&secure_join(rootfs, unsafe_path, &fs)),
                expected,
                "{:?} under {:?}",
                unsafe_path,
                rootfs
            );
        }
    }
}

#[test]
fn root_that_ends_in_a_parent_component_can_lose_it() {
    let fs = Snapshot::new();
    assert_eq!(secure_join("/x/..", ".", &fs), "/x");
    assert_eq!(secure_join("/x/..", "a", &fs), "/x/../a");
}

#[test]
fn plain_path_is_written_behind_the_root() {
    let fs = Snapshot::new();
    for rootfs in ROOTS {
        for path in ["/", "/a", "/a/b", "/...", "/.a/b.", "/é/ü"] {
            assert_eq!(secure_join(rootfs, path, &fs), format!("{}{}", rootfs, path));
        }
    }
}

#[test]
fn resolving_again_under_the_empty_root_changes_nothing() {
    let fs = Snapshot::new();
    for rootfs in ["", "/r", "/home/rootfs", "/a/b/c"] {
        for unsafe_path in UNTRUSTED {
            if names(unsafe_path).first().map(|c| c == ".").unwrap_or(false) {
                continue;
            }
            if !rootfs.is_empty() && names(unsafe_path).iter().all(|name| name == "/") {
                continue;
            }
            let once = secure_join(rootfs, unsafe_path, &fs);
            assert!(once == "/" || secure_path::text_path::TextPath::new(&once).is_plain());
            assert_eq!(secure_join("", &once, &fs), once, "{:?} under {:?}", unsafe_path, rootfs);
        }
    }
}

#[test]
fn resolving_again_can_take_a_trailing_separator_away() {
    let fs = Snapshot::new();
    let once = secure_join("/home/rootfs", "", &fs);
    assert_eq!(once, "/home/rootfs/");
    assert_eq!(secure_join("", &once, &fs), "/home/rootfs");
}

#[test]
fn result_starts_with_the_root_whatever_the_links_say() {
    let mut fs = Snapshot::new();
    fs.add_link("/r/a", "../../../etc");
    fs.add_link("/r/b", "/../../etc");
    fs.add_link("/r/c", "d/../../..");
    fs.add_existing("/r/..", "/");
    fs.add_existing("/r/d", "/r/d");
    fs.add_existing("/r/d/..", "/r");
    fs.add_existing("/r/d/../..", "/");
    fs.add_link("/r/etc", "../e");
    let root = secure_path::text_path::TextPath::new("/r");
    let paths = ["a", "a/x", "b", "b/x/..", "c", "c/a", "../a/../b", "x/../c/etc", "etc/.."];
    for unsafe_path in paths {
        let result = secure_join("/r", unsafe_path, &fs);
        assert!(
            secure_path::text_path::TextPath::new(&result).starts_with(&root),
            "{:?} gives {:?}",
            unsafe_path,
            result
        );
    }
    assert_eq!(secure_join("/r", "a", &fs), "/r/etc");
    assert_eq!(secure_join("/r", "b", &fs), "/r/../../etc");
    assert_eq!(secure_join("/r", "c", &fs), "/r");
}

#[test]
fn names_are_written_behind_a_plain_root() {
    let fs = Snapshot::new();
    assert_eq!(secure_join("/home/rootfs", "../x/../y", &fs), "/home/rootfs/x/y");
    assert_eq!(secure_join("/home/rootfs", "../..", &fs), "/home/rootfs");
    assert_eq!(secure_join("/home/rootfs", "//", &fs), "/home/rootfs/");
    assert_eq!(secure_join("", "../..", &fs), "/");
    for rootfs in ["", "/r", "/home/rootfs", "/a/b/c", "/.r/r.."] {
        assert!(rootfs.is_empty() || secure_path::text_path::TextPath::new(rootfs).is_plain());
        for unsafe_path in UNTRUSTED {
            let components = names(unsafe_path);
            if components.first().map(|c| c == ".").unwrap_or(false) {
                continue;
            }
            let plain: Vec<&String> = components
                .iter()
                .filter(|c| *c != "/" && *c != "..")
                .collect();
            let mut expected = rootfs.to_string();
            if !plain.is_empty() {
                for name in plain {
                    expected.push('/');
                    expected.push_str(name);
                }
            } else if rootfs.is_empty() || !components.iter().any(|c| c == "..") {
                expected.push('/');
            }
            assert_eq!(
                secure_join(rootfs, unsafe_path, &fs),
                expected,
                "{:?} under {:?}",
                unsafe_path,
                rootfs
            );
        }
    }
}
