//! What resolution computes, as a function of the two paths and of the
//! filesystem's answers.
//!
//! The untrusted path is taken apart into its components, and they are
//! visited first to last. Each visit appends the component to the working
//! path, follows a symbolic link that stands there, and takes a trailing
//! `..` away again.

use crate::lexical::{components, ends_with_parent_dir, is_absolute, pop, push, starts_with};
use crate::oracle::Oracle;
use vstd::prelude::*;

verus! {

/// The working path after the filesystem was asked for the canonical form
/// of `path`. An existing path gives way to its canonical form, and to
/// `root` itself where that form does not start with `root`. A path that
/// does not exist stays.
pub open spec fn clamp(
    root: Seq<char>,
    path: Seq<char>,
    canonical: Option<Seq<char>>,
) -> Seq<char> {
    match canonical {
        Some(found) => if starts_with(found, root) {
            found
        } else {
            root
        },
        None => path,
    }
}

/// The working path after the components of a relative link target were
/// appended to `path` one after the other, each followed by a `clamp`.
pub open spec fn follow(
    root: Seq<char>,
    fs: Oracle,
    path: Seq<char>,
    target: Seq<Seq<char>>,
) -> Seq<char>
    decreases target.len(),
{
    if target.len() == 0 {
        path
    } else {
        let next = push(path, target[0]);
        follow(root, fs, clamp(root, next, fs.canonical(next)), target.drop_first())
    }
}

/// The working path after the filesystem was asked for a symbolic link at
/// `path`. Without a link the path stays. An absolute target is written
/// directly behind `root`, and nothing is asked about the result. A relative
/// target is followed from the parent of `path`.
pub open spec fn expand(
    root: Seq<char>,
    fs: Oracle,
    path: Seq<char>,
    link: Option<Seq<char>>,
) -> Seq<char> {
    match link {
        None => path,
        Some(target) => if is_absolute(target) {
            root + target
        } else {
            follow(root, fs, pop(path), components(target))
        },
    }
}

/// `path` without a trailing `..` component.
pub open spec fn settle(path: Seq<char>) -> Seq<char> {
    if ends_with_parent_dir(path) {
        pop(path)
    } else {
        path
    }
}

/// The working path after one component of the untrusted path was
/// visited. An absolute component is passed over.
pub open spec fn visit(
    root: Seq<char>,
    fs: Oracle,
    path: Seq<char>,
    component: Seq<char>,
) -> Seq<char> {
    if is_absolute(component) {
        path
    } else {
        let next = push(path, component);
        settle(expand(root, fs, next, fs.link_target(next)))
    }
}

/// The working path after the components `rest` were visited in order.
pub open spec fn walk(
    root: Seq<char>,
    fs: Oracle,
    path: Seq<char>,
    rest: Seq<Seq<char>>,
) -> Seq<char>
    decreases rest.len(),
{
    if rest.len() == 0 {
        path
    } else {
        walk(root, fs, visit(root, fs, path, rest[0]), rest.drop_first())
    }
}

/// The path that `untrusted` resolves to under `root` in a filesystem that
/// answers as `fs` does: the walk over the components of `untrusted` that
/// starts at `root` followed by a separator.
pub open spec fn resolve(root: Seq<char>, untrusted: Seq<char>, fs: Oracle) -> Seq<char> {
    walk(root, fs, root.push('/'), components(untrusted))
}

} // verus!
