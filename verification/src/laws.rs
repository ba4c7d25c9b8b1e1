//! What holds of every resolution.
//!
//! In a filesystem without symbolic links resolution is a matter of text
//! alone. The names of the untrusted path are joined to the root, and its
//! `..` take nothing away: `law_names_are_joined_to_root` says so of the
//! components of the result under any root, and
//! `law_names_are_written_behind_root` of its text under a root in plain
//! form. A path that is already in plain form is joined as it is written
//! (`law_plain_path_is_joined_as_written`), so that resolving a resolved path
//! again changes nothing (`law_resolved_path_resolves_to_itself`,
//! `law_resolving_again_changes_nothing`).
//!
//! With symbolic links, whatever the filesystem answers, the components of
//! the result begin with the components of the root
//! (`law_result_starts_with_root`). This is a statement about text: a link
//! with an absolute target is written behind the root and not looked into.

use crate::lexical::{
    components, cur_dir, ends_with_parent_dir, is_absolute, is_component, is_plain_path,
    last_sep, lemma_components_concat, lemma_components_not_empty, lemma_components_pop,
    lemma_components_push, lemma_components_root, lemma_components_segment,
    lemma_components_sep, lemma_components_shape, lemma_last_sep, lemma_last_sep_is,
    parent_dir, pop, push, root_marker, starts_with, trimmed_len,
};
use crate::oracle::Oracle;
use crate::resolution::{clamp, expand, follow, resolve, settle, visit, walk};
use vstd::prelude::*;

verus! {

/// Whether `component` is a name: not the root marker, not `.`, not `..`.
pub open spec fn is_plain_name(component: Seq<char>) -> bool {
    component != root_marker() && component != cur_dir() && component != parent_dir()
}

/// The names among `components`, in their order.
pub open spec fn plain_names(components: Seq<Seq<char>>) -> Seq<Seq<char>> {
    components.filter(|component: Seq<char>| is_plain_name(component))
}

/// Visiting one more component at the end is one more visit.
pub proof fn lemma_walk_push(
    root: Seq<char>,
    fs: Oracle,
    path: Seq<char>,
    done: Seq<Seq<char>>,
    component: Seq<char>,
)
    ensures
        walk(root, fs, path, done.push(component)) == visit(
            root,
            fs,
            walk(root, fs, path, done),
            component,
        ),
    decreases done.len(),
{
    let all = done.push(component);
    if done.len() == 0 {
        let visited = visit(root, fs, path, component);
        assert(all.drop_first() =~= done);
        assert(walk(root, fs, visited, done) == visited);
    } else {
        assert(all.drop_first() =~= done.drop_first().push(component));
        lemma_walk_push(root, fs, visit(root, fs, path, done[0]), done.drop_first(), component);
    }
}

/// Where no link is met, a visit adds a name to the components of the
/// working path and leaves them as they are for any other component.
proof fn lemma_visit_without_link(
    root: Seq<char>,
    fs: Oracle,
    path: Seq<char>,
    component: Seq<char>,
)
    requires
        fs.has_no_links(),
        path.len() > 0,
        is_component(component),
        component == cur_dir() ==> !ends_with_parent_dir(path),
    ensures
        visit(root, fs, path, component).len() > 0,
        components(visit(root, fs, path, component)) == if is_plain_name(component) {
            components(path).push(component)
        } else {
            components(path)
        },
{
    if component != root_marker() {
        lemma_components_push(path, component);
        lemma_components_not_empty(path);
        if component == parent_dir() {
            lemma_components_pop(push(path, component));
        }
    }
}

/// The walk that meets no link: see `law_names_are_joined_to_root`.
proof fn lemma_walk_without_links(
    root: Seq<char>,
    fs: Oracle,
    path: Seq<char>,
    rest: Seq<Seq<char>>,
)
    requires
        fs.has_no_links(),
        path.len() > 0,
        forall|k: int| 0 <= k < rest.len() ==> is_component(#[trigger] rest[k]),
        forall|k: int| 0 < k < rest.len() ==> #[trigger] rest[k] != cur_dir(),
        rest.len() > 0 && rest[0] == cur_dir() ==> !ends_with_parent_dir(path),
    ensures
        walk(root, fs, path, rest).len() > 0,
        components(walk(root, fs, path, rest)) == components(path) + plain_names(rest),
    decreases rest.len(),
{
    reveal(Seq::filter);
    if rest.len() > 0 {
        let done = rest.drop_last();
        let component = rest.last();
        lemma_walk_without_links(root, fs, path, done);
        assert(rest =~= done.push(component));
        lemma_walk_push(root, fs, path, done, component);
        lemma_visit_without_link(root, fs, walk(root, fs, path, done), component);
        if is_plain_name(component) {
            assert((components(path) + plain_names(done)).push(component) =~= components(path)
                + plain_names(rest));
        }
    }
}

/// Where the filesystem holds no symbolic link, resolution joins the names
/// of the untrusted path to the root: the components of the result are
/// those of `root` with a separator behind it, and then the components of
/// `untrusted` that are names, in their order. No `..` of the untrusted path
/// takes anything away, and none of them is left in the result.
///
/// One combination is left out. Where `root` itself ends in `..` and
/// `untrusted` begins with `.`, the `..` of the root is what is taken away.
pub proof fn law_names_are_joined_to_root(root: Seq<char>, untrusted: Seq<char>, fs: Oracle)
    requires
        fs.has_no_links(),
        !(ends_with_parent_dir(root) && components(untrusted).len() > 0 && components(
            untrusted,
        )[0] == cur_dir()),
    ensures
        components(resolve(root, untrusted, fs)) == components(root.push('/')) + plain_names(
            components(untrusted),
        ),
{
    lemma_components_shape(untrusted);
    lemma_components_sep(root);
    lemma_walk_without_links(root, fs, root.push('/'), components(untrusted));
}

/// A path in plain form ends in a name: it is not empty, does not end in a
/// separator, and nothing is trimmed from it.
proof fn lemma_plain_path_end(s: Seq<char>)
    requires
        is_plain_path(s),
    ensures
        s.len() > 0,
        s.last() != '/',
        trimmed_len(s) == s.len(),
{
    lemma_last_sep(s);
}

/// A name written behind a path that ends in a separator, or behind a
/// separator that follows a path in plain form, gives a path whose last
/// component is that name; where the path before it is empty or in plain
/// form, the result is in plain form.
proof fn lemma_name_behind_separator(before: Seq<char>, name: Seq<char>)
    requires
        is_component(name),
        is_plain_name(name),
    ensures
        last_sep(before.push('/') + name) == before.len(),
        (before.push('/') + name).skip(before.len() as int + 1) == name,
        (before.push('/') + name).take(before.len() as int) == before,
        before.len() == 0 || is_plain_path(before) ==> is_plain_path(before.push('/') + name),
        !ends_with_parent_dir(before.push('/') + name),
{
    let whole = before.push('/') + name;
    let n = before.len() as int;
    lemma_last_sep_is(whole, n);
    assert(whole.skip(n + 1) =~= name);
    assert(whole.take(n) =~= before);
    lemma_components_sep(before);
    lemma_components_segment(before.push('/'), name);
}

/// The visit of a name where no link is met, from a working path that is
/// the root followed by a separator, or in plain form.
proof fn lemma_visit_name(root: Seq<char>, fs: Oracle, path: Seq<char>, name: Seq<char>)
    requires
        fs.has_no_links(),
        is_component(name),
        is_plain_name(name),
        path == root.push('/') || is_plain_path(path),
    ensures
        path == root.push('/') ==> visit(root, fs, path, name) == path + name,
        path != root.push('/') ==> visit(root, fs, path, name) == path.push('/') + name,
{
    if path == root.push('/') {
        lemma_name_behind_separator(root, name);
    } else {
        lemma_plain_path_end(path);
        lemma_name_behind_separator(path, name);
    }
}

/// The walk over the components of a path in plain form, where no link is
/// met.
proof fn lemma_walk_plain_path(root: Seq<char>, fs: Oracle, path: Seq<char>)
    requires
        fs.has_no_links(),
        is_plain_path(path),
    ensures
        walk(root, fs, root.push('/'), components(path)) == root + path,
    decreases path.len(),
{
    let i = last_sep(path);
    let name = path.skip(i + 1);
    let start = root.push('/');
    lemma_last_sep(path);
    assert(is_component(name) && name != root_marker()) by {
        if name == root_marker() {
            assert(name[0] == '/');
        }
    }
    let before = if i > 0 {
        components(path.take(i))
    } else {
        seq![root_marker()]
    };
    lemma_walk_push(root, fs, start, before, name);
    if i > 0 {
        let parent = path.take(i);
        lemma_walk_plain_path(root, fs, parent);
        lemma_plain_path_end(parent);
        lemma_name_behind_separator(root + parent, name);
    } else {
        assert(walk(root, fs, start, before.drop_first()) == start);
        lemma_visit_name(root, fs, start, name);
    }
}

/// A path in plain form is joined to the root as it is written: where the
/// filesystem holds no symbolic link, a path that is a separator alone, or
/// a separator and a name once or several times over, resolves to the text
/// of the root directly followed by the text of the path.
pub proof fn law_plain_path_is_joined_as_written(root: Seq<char>, path: Seq<char>, fs: Oracle)
    requires
        fs.has_no_links(),
        path == root_marker() || is_plain_path(path),
    ensures
        resolve(root, path, fs) == root + path,
{
    if is_plain_path(path) {
        lemma_walk_plain_path(root, fs, path);
    } else {
        let start = root.push('/');
        lemma_components_sep(Seq::<char>::empty());
        assert(walk(root, fs, start, components(path).drop_first()) == start);
    }
}

/// A resolved path resolves to itself: where the filesystem holds no
/// symbolic link, a path in plain form that is resolved under the empty
/// root comes back unchanged.
pub proof fn law_resolved_path_resolves_to_itself(path: Seq<char>, fs: Oracle)
    requires
        fs.has_no_links(),
        path == root_marker() || is_plain_path(path),
    ensures
        resolve(Seq::empty(), path, fs) == path,
{
    law_plain_path_is_joined_as_written(Seq::empty(), path, fs);
}

/// The names written one after the other, each behind a separator.
pub open spec fn joined(names: Seq<Seq<char>>) -> Seq<char>
    decreases names.len(),
{
    if names.len() == 0 {
        Seq::empty()
    } else {
        joined(names.drop_last()).push('/') + names.last()
    }
}

/// The join of `root` and the components `rest` as text: the root with the
/// names among the components written behind it. Without a name it is the
/// root followed by a separator, or the root alone where the root is not
/// empty and a `..` is among the components.
pub open spec fn lexical_join(root: Seq<char>, rest: Seq<Seq<char>>) -> Seq<char> {
    if plain_names(rest).len() > 0 {
        root + joined(plain_names(rest))
    } else if root.len() > 0 && rest.contains(parent_dir()) {
        root
    } else {
        root.push('/')
    }
}

/// The names among components are components, and names.
proof fn lemma_plain_names_shape(rest: Seq<Seq<char>>)
    requires
        forall|k: int| 0 <= k < rest.len() ==> is_component(#[trigger] rest[k]),
    ensures
        forall|k: int|
            0 <= k < plain_names(rest).len() ==> is_component(#[trigger] plain_names(rest)[k])
                && is_plain_name(plain_names(rest)[k]),
    decreases rest.len(),
{
    reveal(Seq::filter);
    if rest.len() > 0 {
        let before = plain_names(rest.drop_last());
        lemma_plain_names_shape(rest.drop_last());
        assert forall|k: int| 0 <= k < plain_names(rest).len() implies is_component(
            #[trigger] plain_names(rest)[k],
        ) && is_plain_name(plain_names(rest)[k]) by {
            if k < before.len() {
                assert(plain_names(rest)[k] == before[k]);
            }
        }
    }
}

/// Names written behind a root that is empty or in plain form give a path
/// in plain form.
proof fn lemma_joined_is_plain(root: Seq<char>, names: Seq<Seq<char>>)
    requires
        root.len() == 0 || is_plain_path(root),
        names.len() > 0,
        forall|k: int|
            0 <= k < names.len() ==> is_component(#[trigger] names[k]) && is_plain_name(names[k]),
    ensures
        is_plain_path(root + joined(names)),
    decreases names.len(),
{
    let before = root + joined(names.drop_last());
    if names.len() > 1 {
        lemma_joined_is_plain(root, names.drop_last());
    }
    lemma_name_behind_separator(before, names.last());
    assert(before.push('/') + names.last() =~= root + joined(names));
}

/// Appending `..` to a path and taking the last component away again gives
/// the path back, where the path is in plain form, and gives the path
/// without the separator at its end, where it ends in one.
proof fn lemma_parent_dir_is_taken_away(path: Seq<char>)
    requires
        is_plain_path(path) || (path.len() > 0 && path.last() == '/' && (path.len() == 1
            || is_plain_path(path.drop_last()))),
    ensures
        ends_with_parent_dir(push(path, parent_dir())),
        pop(push(path, parent_dir())) == if is_plain_path(path) || path.len() == 1 {
            path
        } else {
            path.drop_last()
        },
{
    let next = push(path, parent_dir());
    if is_plain_path(path) {
        lemma_plain_path_end(path);
        lemma_last_sep_is(next, path.len() as int);
        assert(next.take(path.len() as int) =~= path);
        lemma_components_push(path, parent_dir());
    } else {
        let front = path.drop_last();
        lemma_last_sep_is(next, front.len() as int);
        assert(next.take(front.len() as int) =~= front);
        lemma_components_segment(path, parent_dir());
        if front.len() > 0 {
            lemma_plain_path_end(front);
        }
    }
}

/// The walk from a root that is empty or in plain form, where no link is
/// met and no `.` is among the components, arrives at the join as text.
proof fn lemma_walk_is_lexical_join(root: Seq<char>, fs: Oracle, rest: Seq<Seq<char>>)
    requires
        fs.has_no_links(),
        root.len() == 0 || is_plain_path(root),
        forall|k: int| 0 <= k < rest.len() ==> is_component(#[trigger] rest[k]),
        forall|k: int| 0 <= k < rest.len() ==> #[trigger] rest[k] != cur_dir(),
        forall|k: int| 0 < k < rest.len() ==> #[trigger] rest[k] != root_marker(),
    ensures
        walk(root, fs, root.push('/'), rest) == lexical_join(root, rest),
    decreases rest.len(),
{
    reveal(Seq::filter);
    let start = root.push('/');
    if rest.len() > 0 {
        let done = rest.drop_last();
        let component = rest.last();
        let names = plain_names(done);
        let so_far = lexical_join(root, done);
        lemma_walk_is_lexical_join(root, fs, done);
        assert(rest =~= done.push(component));
        lemma_walk_push(root, fs, start, done, component);
        lemma_plain_names_shape(done);
        if names.len() > 0 {
            lemma_joined_is_plain(root, names);
        }
        assert(rest.contains(parent_dir()) <==> done.contains(parent_dir()) || component
            == parent_dir()) by {
            if done.contains(parent_dir()) {
                let k = choose|k: int| 0 <= k < done.len() && done[k] == parent_dir();
                assert(rest[k] == parent_dir());
            }
            if component == parent_dir() {
                assert(rest[rest.len() - 1] == parent_dir());
            }
        }
        if component == parent_dir() {
            assert(start.drop_last() =~= root);
            lemma_parent_dir_is_taken_away(so_far);
        } else if component != root_marker() {
            lemma_visit_name(root, fs, so_far, component);
            assert(plain_names(rest).drop_last() =~= names);
            assert(names.len() == 0 ==> joined(names) =~= Seq::<char>::empty());
        }
    }
}

/// Where the filesystem holds no symbolic link, the names of the untrusted
/// path are written behind the root: under a root that is empty or written
/// in plain form, an untrusted path that does not begin with `.` resolves to
/// the root with each name among the components of the untrusted path
/// written behind it after a separator. No `..` takes a name away, and no
/// `..` reaches the root.
///
/// Without a name among the components, the result is the root followed
/// by a separator, or the root alone where the root is not empty and the
/// untrusted path holds a `..`.
pub proof fn law_names_are_written_behind_root(root: Seq<char>, untrusted: Seq<char>, fs: Oracle)
    requires
        fs.has_no_links(),
        root.len() == 0 || is_plain_path(root),
        components(untrusted).len() == 0 || components(untrusted)[0] != cur_dir(),
    ensures
        resolve(root, untrusted, fs) == lexical_join(root, components(untrusted)),
{
    lemma_components_shape(untrusted);
    lemma_walk_is_lexical_join(root, fs, components(untrusted));
}

/// Resolving again changes nothing: where the filesystem holds no symbolic
/// link, the result of a resolution, resolved once more under the empty
/// root, comes back unchanged.
///
/// This is stated for a root that is empty or written in plain form, and
/// for an untrusted path that does not begin with `.`. Under a root that is
/// not empty the untrusted path must have a component besides the root
/// marker: without one the result is the root followed by a separator, and
/// resolving it again takes the separator away.
pub proof fn law_resolving_again_changes_nothing(
    root: Seq<char>,
    untrusted: Seq<char>,
    fs: Oracle,
)
    requires
        fs.has_no_links(),
        root.len() == 0 || is_plain_path(root),
        components(untrusted).len() == 0 || components(untrusted)[0] != cur_dir(),
        root.len() == 0 || (components(untrusted).len() > 0 && components(untrusted).last()
            != root_marker()),
    ensures
        resolve(Seq::empty(), resolve(root, untrusted, fs), fs) == resolve(root, untrusted, fs),
{
    let rest = components(untrusted);
    let once = resolve(root, untrusted, fs);
    lemma_components_shape(untrusted);
    law_names_are_written_behind_root(root, untrusted, fs);
    if plain_names(rest).len() > 0 {
        lemma_plain_names_shape(rest);
        lemma_joined_is_plain(root, plain_names(rest));
    } else if root.len() > 0 {
        let last = rest.len() - 1;
        if rest[last] != parent_dir() {
            rest.lemma_filter_contains(|component: Seq<char>| is_plain_name(component), last);
        }
    } else {
        assert(once =~= root_marker());
    }
    law_resolved_path_resolves_to_itself(once, fs);
}

/// Appending a component that is not the root marker keeps a path under
/// the root.
proof fn lemma_push_stays_under(root: Seq<char>, path: Seq<char>, component: Seq<char>)
    requires
        starts_with(path, root),
        is_component(component),
        component != root_marker(),
    ensures
        starts_with(push(path, component), root),
{
    if path.len() > 0 {
        lemma_components_push(path, component);
    }
}

/// Following a relative link target keeps the working path under the
/// root.
proof fn lemma_follow_stays_under(
    root: Seq<char>,
    fs: Oracle,
    path: Seq<char>,
    target: Seq<Seq<char>>,
)
    requires
        starts_with(path, root),
        forall|k: int| 0 <= k < target.len() ==> is_component(#[trigger] target[k]),
        forall|k: int| 0 <= k < target.len() ==> #[trigger] target[k] != root_marker(),
    ensures
        starts_with(follow(root, fs, path, target), root),
    decreases target.len(),
{
    if target.len() > 0 {
        let next = push(path, target[0]);
        lemma_push_stays_under(root, path, target[0]);
        lemma_follow_stays_under(
            root,
            fs,
            clamp(root, next, fs.canonical(next)),
            target.drop_first(),
        );
    }
}

/// Taking a trailing `..` away keeps a path under a root that does not
/// itself end in `..`.
proof fn lemma_settle_stays_under(root: Seq<char>, path: Seq<char>)
    requires
        starts_with(path, root),
        !ends_with_parent_dir(root),
    ensures
        starts_with(settle(path), root),
{
    if ends_with_parent_dir(path) {
        lemma_components_pop(path);
    }
}

/// A visit keeps the working path under the root.
proof fn lemma_visit_stays_under(root: Seq<char>, fs: Oracle, path: Seq<char>, component: Seq<char>)
    requires
        starts_with(path, root),
        !ends_with_parent_dir(root),
        is_component(component),
        component != cur_dir(),
    ensures
        starts_with(visit(root, fs, path, component), root),
{
    if component != root_marker() {
        let next = push(path, component);
        lemma_push_stays_under(root, path, component);
        if let Some(target) = fs.link_target(next) {
            if is_absolute(target) {
                lemma_components_concat(root, target);
            } else {
                assert(starts_with(pop(next), root)) by {
                    if path.len() > 0 {
                        lemma_components_push(path, component);
                        lemma_components_pop(next);
                    } else {
                        lemma_last_sep_is(next, -1);
                    }
                }
                lemma_components_shape(target);
                lemma_components_root(target);
                lemma_follow_stays_under(root, fs, pop(next), components(target));
            }
        }
        lemma_settle_stays_under(root, expand(root, fs, next, fs.link_target(next)));
    }
}

/// The walk keeps the working path under the root.
proof fn lemma_walk_stays_under(root: Seq<char>, fs: Oracle, path: Seq<char>, rest: Seq<Seq<char>>)
    requires
        starts_with(path, root),
        !ends_with_parent_dir(root),
        forall|k: int| 0 <= k < rest.len() ==> is_component(#[trigger] rest[k]),
        forall|k: int| 0 <= k < rest.len() ==> #[trigger] rest[k] != cur_dir(),
    ensures
        starts_with(walk(root, fs, path, rest), root),
    decreases rest.len(),
{
    if rest.len() > 0 {
        lemma_visit_stays_under(root, fs, path, rest[0]);
        lemma_walk_stays_under(root, fs, visit(root, fs, path, rest[0]), rest.drop_first());
    }
}

/// The result stays under the root as far as its text goes: whatever the
/// filesystem answers, the components of the resolved path begin with the
/// components of `root`.
///
/// Two kinds of input are left out. A root that itself ends in `..` can lose
/// that component. An untrusted path that begins with `.` appends nothing
/// to the root, so that a link reported there, or a `..` at the end of the
/// root, takes a component of the root away.
pub proof fn law_result_starts_with_root(root: Seq<char>, untrusted: Seq<char>, fs: Oracle)
    requires
        !ends_with_parent_dir(root),
        components(untrusted).len() == 0 || components(untrusted)[0] != cur_dir(),
    ensures
        starts_with(resolve(root, untrusted, fs), root),
{
    lemma_components_shape(untrusted);
    lemma_components_sep(root);
    lemma_walk_stays_under(root, fs, root.push('/'), components(untrusted));
}

} // verus!
