//! Resolution as a sequence of questions.
//!
//! The library never touches a filesystem. A `Walk` is a resolution that has
//! come to a question: it says what it needs to know, is handed the reply,
//! and goes on to the next question or to the resolved path. The program
//! that holds the filesystem runs the loop.
//!
//! `WalkState` and `Progress` are the mathematical model: `start` and
//! `WalkState::after` say exactly which question comes when. The laws at the
//! end of the file say that replies taken from one filesystem lead to the
//! path that `resolve` gives for that filesystem, and that the questions come
//! to an end.

use crate::lexical::{components, is_absolute, pop, push};
use crate::oracle::{Oracle, Query, Question, Reply};
use crate::resolution::{clamp, expand, follow, resolve, settle, walk};
use crate::text_path::{views, TextPath};
use vstd::prelude::*;

verus! {

/// The state of a resolution that waits for a reply.
pub struct WalkState {
    /// The trusted root.
    pub root: Seq<char>,
    /// The working path, which the question is about.
    pub path: Seq<char>,
    /// The components of the untrusted path that are still to be visited.
    pub rest: Seq<Seq<char>>,
    /// While a relative link target is followed, its components that are
    /// still to be appended.
    pub target: Option<Seq<Seq<char>>>,
}

/// Where a resolution stands: at a question, or at its end.
pub enum Progress {
    /// There is another question.
    Ask(WalkState),
    /// The resolved path.
    Done(Seq<char>),
}

/// Visits the components `rest` up to the first that calls for a
/// question: absolute components are passed over, and the first other one
/// is appended to the working path, where a link is asked for.
pub open spec fn advance(root: Seq<char>, path: Seq<char>, rest: Seq<Seq<char>>) -> Progress
    decreases rest.len(),
{
    if rest.len() == 0 {
        Progress::Done(path)
    } else if is_absolute(rest[0]) {
        advance(root, path, rest.drop_first())
    } else {
        Progress::Ask(
            WalkState { root, path: push(path, rest[0]), rest: rest.drop_first(), target: None },
        )
    }
}

/// Goes on with a link target: its next component is appended, and the
/// canonical form of the result is asked for. When no component is left, a
/// trailing `..` is taken away and the untrusted path is gone on with.
pub open spec fn descend(
    root: Seq<char>,
    path: Seq<char>,
    rest: Seq<Seq<char>>,
    target: Seq<Seq<char>>,
) -> Progress {
    if target.len() == 0 {
        advance(root, settle(path), rest)
    } else {
        Progress::Ask(
            WalkState {
                root,
                path: push(path, target[0]),
                rest,
                target: Some(target.drop_first()),
            },
        )
    }
}

/// Where the resolution of `untrusted` under `root` stands before any
/// reply.
pub open spec fn start(root: Seq<char>, untrusted: Seq<char>) -> Progress {
    advance(root, root.push('/'), components(untrusted))
}

impl WalkState {
    /// The question that the resolution waits on.
    pub open spec fn question(self) -> Question {
        match self.target {
            Some(_) => Question::Canonicalize(self.path),
            None => Question::ReadLink(self.path),
        }
    }

    /// Where the resolution stands after `reply`.
    pub open spec fn after(self, reply: Option<Seq<char>>) -> Progress {
        match self.target {
            Some(target) => descend(
                self.root,
                clamp(self.root, self.path, reply),
                self.rest,
                target,
            ),
            None => match reply {
                None => advance(self.root, settle(self.path), self.rest),
                Some(link) => if is_absolute(link) {
                    advance(self.root, settle(self.root + link), self.rest)
                } else {
                    descend(self.root, pop(self.path), self.rest, components(link))
                },
            },
        }
    }

    /// The path that the resolution ends with when this question and all
    /// later ones are answered as `fs` answers them.
    pub open spec fn outcome(self, fs: Oracle) -> Seq<char> {
        let settled = match self.target {
            Some(target) => settle(
                follow(self.root, fs, clamp(self.root, self.path, fs.canonical(self.path)), target),
            ),
            None => settle(expand(self.root, fs, self.path, fs.link_target(self.path))),
        };
        walk(self.root, fs, settled, self.rest)
    }

    /// How many components of the untrusted path are not yet done with.
    pub open spec fn outer_left(self) -> nat {
        match self.target {
            Some(_) => self.rest.len(),
            None => self.rest.len() + 1,
        }
    }

    /// How many components of the link target are not yet done with.
    pub open spec fn inner_left(self) -> nat {
        match self.target {
            Some(target) => target.len() + 1,
            None => 0,
        }
    }
}

impl Progress {
    /// The path that the resolution ends with when all questions from here
    /// on are answered as `fs` answers them.
    pub open spec fn outcome(self, fs: Oracle) -> Seq<char> {
        match self {
            Progress::Ask(state) => state.outcome(fs),
            Progress::Done(path) => path,
        }
    }

    /// Whether the resolution is closer to its end than it was in `before`:
    /// fewer components of the untrusted path are left, or as many of them
    /// and fewer of the link target.
    pub open spec fn closer_than(self, before: WalkState) -> bool {
        match self {
            Progress::Ask(state) => state.outer_left() < before.outer_left() || (
            state.outer_left() == before.outer_left() && state.inner_left()
                < before.inner_left()),
            Progress::Done(_) => true,
        }
    }
}

/// A resolution that waits for the reply to one question.
pub struct Walk {
    /// The trusted root.
    root: TextPath,
    /// The working path; the question is about it.
    path: TextPath,
    /// The components of the untrusted path.
    outer: Vec<TextPath>,
    /// The position in `outer` of the first component not yet visited.
    outer_next: usize,
    /// The components of the link target that is being followed.
    inner: Vec<TextPath>,
    /// The position in `inner` of the first component not yet appended.
    inner_next: usize,
    /// Whether a link target is being followed.
    following: bool,
}

impl View for Walk {
    type V = WalkState;

    closed spec fn view(&self) -> WalkState {
        WalkState {
            root: self.root@,
            path: self.path@,
            rest: views(self.outer@).skip(self.outer_next as int),
            target: if self.following {
                Some(views(self.inner@).skip(self.inner_next as int))
            } else {
                None
            },
        }
    }
}

/// Where a resolution stands after a reply.
pub enum Step {
    /// There is another question.
    Ask(Walk),
    /// The resolved path.
    Done(String),
}

impl View for Step {
    type V = Progress;

    open spec fn view(&self) -> Progress {
        match self {
            Step::Ask(next) => Progress::Ask(next@),
            Step::Done(path) => Progress::Done(path@),
        }
    }
}

impl Walk {
    /// The two positions lie within their vectors.
    #[verifier::type_invariant]
    spec fn positions_in_range(&self) -> bool {
        self.outer_next <= self.outer.len() && self.inner_next <= self.inner.len()
    }

    /// `advance` over the components of `outer` from position `from` on.
    fn advance(root: TextPath, path: TextPath, outer: Vec<TextPath>, from: usize) -> (step: Step)
        requires
            from <= outer.len(),
        ensures
            step@ == advance(root@, path@, views(outer@).skip(from as int)),
    {
        let ghost all = views(outer@);
        let mut k: usize = from;
        while k < outer.len()
            invariant
                from <= k <= outer.len(),
                all == views(outer@),
                advance(root@, path@, all.skip(k as int)) == advance(
                    root@,
                    path@,
                    all.skip(from as int),
                ),
            decreases outer.len() - k,
        {
            assert(all.skip(k as int).drop_first() =~= all.skip(k + 1));
            if !outer[k].is_absolute() {
                let mut path = path;
                path.push(&outer[k]);
                return Step::Ask(
                    Walk {
                        root,
                        path,
                        outer,
                        outer_next: k + 1,
                        inner: Vec::new(),
                        inner_next: 0,
                        following: false,
                    },
                );
            }
            k += 1;
        }
        Step::Done(path.to_text())
    }

    /// `descend` over the components of `inner` from position `from` on.
    fn descend(
        root: TextPath,
        path: TextPath,
        outer: Vec<TextPath>,
        outer_next: usize,
        inner: Vec<TextPath>,
        from: usize,
    ) -> (step: Step)
        requires
            outer_next <= outer.len(),
            from <= inner.len(),
        ensures
            step@ == descend(
                root@,
                path@,
                views(outer@).skip(outer_next as int),
                views(inner@).skip(from as int),
            ),
    {
        let ghost target = views(inner@).skip(from as int);
        let mut path = path;
        if from < inner.len() {
            assert(target.drop_first() =~= views(inner@).skip(from + 1));
            path.push(&inner[from]);
            Step::Ask(
                Walk {
                    root,
                    path,
                    outer,
                    outer_next,
                    inner,
                    inner_next: from + 1,
                    following: true,
                },
            )
        } else {
            if path.ends_with_parent_dir() {
                path.pop();
            }
            Self::advance(root, path, outer, outer_next)
        }
    }

    /// Starts the resolution of `unsafe_path` under `rootfs`.
    pub fn begin(rootfs: &str, unsafe_path: &str) -> (step: Step)
        ensures
            step@ == start(rootfs@, unsafe_path@),
    {
        let root = TextPath::new(rootfs);
        let path = root.followed_by_separator();
        let outer = TextPath::new(unsafe_path).components();
        assert(views(outer@).skip(0) =~= views(outer@));
        Self::advance(root, path, outer, 0)
    }

    /// The question that the resolution waits on.
    pub fn query(&self) -> (query: Query)
        ensures
            query@ == self@.question(),
    {
        if self.following {
            Query::Canonicalize(self.path.to_text())
        } else {
            Query::ReadLink(self.path.to_text())
        }
    }

    /// Goes on with the reply to the question. A reply without a text,
    /// whatever its reason, leaves the working path as it is written.
    pub fn answer(self, reply: Reply) -> (step: Step)
        ensures
            step@ == self@.after(reply@),
    {
        proof {
            use_type_invariant(&self);
        }
        let Walk { root, path, outer, outer_next, inner, inner_next, following } = self;
        if following {
            let path = match reply {
                Reply::Text(found) => {
                    let canonical = TextPath::new(found.as_str());
                    if canonical.starts_with(&root) {
                        canonical
                    } else {
                        root.duplicate()
                    }
                },
                Reply::NotFound | Reply::NotALink | Reply::Failed => path,
            };
            Self::descend(root, path, outer, outer_next, inner, inner_next)
        } else {
            match reply {
                Reply::Text(text) => {
                    let target = TextPath::new(text.as_str());
                    if target.is_absolute() {
                        let mut path = root.concat(&target);
                        if path.ends_with_parent_dir() {
                            path.pop();
                        }
                        Self::advance(root, path, outer, outer_next)
                    } else {
                        let mut path = path;
                        path.pop();
                        let inner = target.components();
                        assert(views(inner@).skip(0) =~= views(inner@));
                        Self::descend(root, path, outer, outer_next, inner, 0)
                    }
                },
                Reply::NotFound | Reply::NotALink | Reply::Failed => {
                    let mut path = path;
                    if path.ends_with_parent_dir() {
                        path.pop();
                    }
                    Self::advance(root, path, outer, outer_next)
                },
            }
        }
    }
}

/// Visiting components up to the next question does not change where the
/// resolution ends.
proof fn lemma_advance_outcome(root: Seq<char>, fs: Oracle, path: Seq<char>, rest: Seq<Seq<char>>)
    ensures
        advance(root, path, rest).outcome(fs) == walk(root, fs, path, rest),
    decreases rest.len(),
{
    if rest.len() > 0 && is_absolute(rest[0]) {
        lemma_advance_outcome(root, fs, path, rest.drop_first());
    }
}

/// Going on with a link target does not change where the resolution ends.
proof fn lemma_descend_outcome(
    root: Seq<char>,
    fs: Oracle,
    path: Seq<char>,
    rest: Seq<Seq<char>>,
    target: Seq<Seq<char>>,
)
    ensures
        descend(root, path, rest, target).outcome(fs) == walk(
            root,
            fs,
            settle(follow(root, fs, path, target)),
            rest,
        ),
{
    if target.len() == 0 {
        lemma_advance_outcome(root, fs, settle(path), rest);
    }
}

/// Before any reply, the resolution of `untrusted` under `root` ends, in
/// every filesystem, with the path that `resolve` gives for that filesystem.
pub proof fn law_start_leads_to_resolve(root: Seq<char>, untrusted: Seq<char>, fs: Oracle)
    ensures
        start(root, untrusted).outcome(fs) == resolve(root, untrusted, fs),
{
    lemma_advance_outcome(root, fs, root.push('/'), components(untrusted));
}

/// A reply that is the answer of `fs` to the question asked does not change
/// the path that the resolution ends with in `fs`.
pub proof fn law_reply_keeps_outcome(state: WalkState, reply: Option<Seq<char>>, fs: Oracle)
    requires
        fs.answer(state.question()) == reply,
    ensures
        state.after(reply).outcome(fs) == state.outcome(fs),
{
    match state.target {
        Some(target) => {
            lemma_descend_outcome(
                state.root,
                fs,
                clamp(state.root, state.path, reply),
                state.rest,
                target,
            );
        },
        None => match reply {
            None => {
                lemma_advance_outcome(state.root, fs, settle(state.path), state.rest);
            },
            Some(link) => {
                if is_absolute(link) {
                    lemma_advance_outcome(state.root, fs, settle(state.root + link), state.rest);
                } else {
                    lemma_descend_outcome(
                        state.root,
                        fs,
                        pop(state.path),
                        state.rest,
                        components(link),
                    );
                }
            },
        },
    }
}

/// Every reply brings the resolution closer to its end, so that a loop of
/// questions and replies comes to an end.
pub proof fn law_reply_brings_closer(state: WalkState, reply: Option<Seq<char>>)
    ensures
        state.after(reply).closer_than(state),
{
    match state.target {
        Some(target) => {
            lemma_descend_left(
                state.root,
                clamp(state.root, state.path, reply),
                state.rest,
                target,
            );
        },
        None => match reply {
            None => {
                lemma_advance_left(state.root, settle(state.path), state.rest);
            },
            Some(link) => {
                if is_absolute(link) {
                    lemma_advance_left(state.root, settle(state.root + link), state.rest);
                } else {
                    lemma_descend_left(state.root, pop(state.path), state.rest, components(link));
                }
            },
        },
    }
}

/// What `advance` leaves to be done.
proof fn lemma_advance_left(root: Seq<char>, path: Seq<char>, rest: Seq<Seq<char>>)
    ensures
        advance(root, path, rest) matches Progress::Ask(state) ==> state.outer_left() <= rest.len()
            && state.inner_left() == 0,
    decreases rest.len(),
{
    if rest.len() > 0 && is_absolute(rest[0]) {
        lemma_advance_left(root, path, rest.drop_first());
    }
}

/// What `descend` leaves to be done.
proof fn lemma_descend_left(
    root: Seq<char>,
    path: Seq<char>,
    rest: Seq<Seq<char>>,
    target: Seq<Seq<char>>,
)
    ensures
        descend(root, path, rest, target) matches Progress::Ask(state) ==> state.outer_left()
            <= rest.len() && (state.outer_left() == rest.len() ==> state.inner_left()
            <= target.len()),
{
    if target.len() == 0 {
        lemma_advance_left(root, settle(path), rest);
    }
}

} // verus!
