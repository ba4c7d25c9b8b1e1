//! The join itself, against a table of filesystem answers.

use crate::oracle::Snapshot;
use crate::resolution::resolve;
use crate::walk::{
    law_reply_brings_closer, law_reply_keeps_outcome, law_start_leads_to_resolve, Step, Walk,
};
use vstd::prelude::*;

verus! {

/// Resolves `unsafe_path` under `rootfs` in the filesystem that `fs`
/// describes.
///
/// The result starts from `rootfs` followed by a separator. Every component
/// of `unsafe_path` is appended in turn; a symbolic link met on the way is
/// followed, and a `..` that ends the path is taken away again. A relative
/// link target that leads out of `rootfs` puts the path back to `rootfs`.
/// The call never fails: a path of which `fs` knows nothing is taken as it
/// is written.
pub fn secure_join(rootfs: &str, unsafe_path: &str, fs: &Snapshot) -> (resolved: String)
    ensures
        resolved@ == resolve(rootfs@, unsafe_path@, fs@),
{
    let first = Walk::begin(rootfs, unsafe_path);
    proof {
        law_start_leads_to_resolve(rootfs@, unsafe_path@, fs@);
    }
    let mut current = match first {
        Step::Done(path) => {
            return path;
        },
        Step::Ask(walk) => walk,
    };
    loop
        invariant
            current@.outcome(fs@) == resolve(rootfs@, unsafe_path@, fs@),
        decreases current@.outer_left(), current@.inner_left(),
    {
        let reply = fs.answer(&current.query());
        proof {
            law_reply_keeps_outcome(current@, reply@, fs@);
            law_reply_brings_closer(current@, reply@);
        }
        match current.answer(reply) {
            Step::Done(path) => {
                return path;
            },
            Step::Ask(walk) => {
                current = walk;
            },
        }
    }
}

} // verus!
