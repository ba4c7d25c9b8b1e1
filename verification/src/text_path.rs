//! `TextPath`: an owned path buffer that is handled as text only.

use crate::lexical::{
    components, counts_as_component, cur_dir, ends_with_parent_dir, is_absolute, is_plain_path,
    last_sep, lemma_components_segment, lemma_components_sep, lemma_components_single,
    lemma_last_sep, lemma_last_sep_is, parent_dir, parent_len, pop, push, starts_with,
    trimmed_len,
};
use crate::text::{chars_of, string_of};
use vstd::prelude::*;

verus! {

/// A path held as its characters. Its view is the sequence of those
/// characters; every method is stated over the functions of `lexical`.
pub struct TextPath {
    chars: Vec<char>,
}

impl View for TextPath {
    type V = Seq<char>;

    closed spec fn view(&self) -> Seq<char> {
        self.chars@
    }
}

/// The texts of a vector of paths.
pub open spec fn views(paths: Seq<TextPath>) -> Seq<Seq<char>> {
    paths.map_values(|p: TextPath| p@)
}

/// The characters of `s` from position `from` up to `to`.
fn copy_range(s: &Vec<char>, from: usize, to: usize) -> (out: Vec<char>)
    requires
        from <= to <= s.len(),
    ensures
        out@ == s@.subrange(from as int, to as int),
{
    let mut out: Vec<char> = Vec::new();
    let mut i: usize = from;
    while i < to
        invariant
            from <= i <= to <= s.len(),
            out@ == s@.subrange(from as int, i as int),
        decreases to - i,
    {
        out.push(s[i]);
        i += 1;
    }
    out
}

/// The position of the last separator among the first `end` characters.
fn last_separator(s: &Vec<char>, end: usize) -> (found: Option<usize>)
    requires
        end <= s.len(),
    ensures
        match found {
            Some(i) => i == last_sep(s@.take(end as int)),
            None => last_sep(s@.take(end as int)) == -1,
        },
{
    let mut i: usize = end;
    while i > 0
        invariant
            i <= end <= s.len(),
            forall|j: int| i <= j < end ==> s@[j] != '/',
        decreases i,
    {
        if s[i - 1] == '/' {
            proof {
                lemma_last_sep_is(s@.take(end as int), i - 1);
            }
            return Some(i - 1);
        }
        i -= 1;
    }
    proof {
        lemma_last_sep_is(s@.take(end as int), -1);
    }
    None
}

/// Whether the segment from `from` up to `to` counts as a component.
fn segment_counts(s: &Vec<char>, from: usize, to: usize) -> (yes: bool)
    requires
        from <= to <= s.len(),
    ensures
        yes == counts_as_component(s@.subrange(from as int, to as int)),
{
    let ghost segment = s@.subrange(from as int, to as int);
    if to == from {
        false
    } else if to - from == 1 && s[from] == '.' {
        assert(segment =~= cur_dir());
        false
    } else {
        assert(segment != cur_dir()) by {
            if segment == cur_dir() {
                assert(segment.len() == 1);
                assert(segment[0] == '.');
            }
        }
        true
    }
}

/// Whether the segment from `from` up to `to` is `..`.
fn is_parent_segment(s: &Vec<char>, from: usize, to: usize) -> (yes: bool)
    requires
        from <= to <= s.len(),
    ensures
        yes == (s@.subrange(from as int, to as int) == parent_dir()),
{
    let ghost segment = s@.subrange(from as int, to as int);
    if to - from == 2 && s[from] == '.' && s[from + 1] == '.' {
        assert(segment =~= parent_dir());
        true
    } else {
        assert(segment != parent_dir()) by {
            if segment == parent_dir() {
                assert(segment.len() == 2);
            }
        }
        false
    }
}

/// `trimmed_len` of the first `end` characters.
fn trimmed_length(s: &Vec<char>, end: usize) -> (n: usize)
    requires
        end <= s.len(),
    ensures
        n == trimmed_len(s@.take(end as int)),
        n <= end,
{
    let mut cut: usize = end;
    loop
        invariant
            cut <= end <= s.len(),
            trimmed_len(s@.take(cut as int)) == trimmed_len(s@.take(end as int)),
        decreases cut,
    {
        match last_separator(s, cut) {
            None => {
                return cut;
            },
            Some(i) => {
                proof {
                    lemma_last_sep(s@.take(cut as int));
                    assert(s@.take(cut as int).skip(i + 1) =~= s@.subrange(i + 1, cut as int));
                    assert(s@.take(cut as int).take(i as int) =~= s@.take(i as int));
                }
                if segment_counts(s, i + 1, cut) {
                    return cut;
                }
                if i == 0 {
                    return 1;
                }
                cut = i;
            },
        }
    }
}

/// `parent_len` of the whole of `s`.
fn parent_length(s: &Vec<char>) -> (found: Option<usize>)
    ensures
        match found {
            Some(n) => parent_len(s@) == Some(n as int) && n <= s.len(),
            None => parent_len(s@) is None,
        },
{
    let mut cut: usize = s.len();
    assert(s@.take(cut as int) =~= s@);
    loop
        invariant
            cut <= s.len(),
            parent_len(s@.take(cut as int)) == parent_len(s@),
        decreases cut,
    {
        match last_separator(s, cut) {
            None => {
                return if cut == 0 {
                    None
                } else {
                    Some(0)
                };
            },
            Some(i) => {
                proof {
                    lemma_last_sep(s@.take(cut as int));
                    assert(s@.take(cut as int).skip(i + 1) =~= s@.subrange(i + 1, cut as int));
                    assert(s@.take(cut as int).take(i as int) =~= s@.take(i as int));
                }
                if segment_counts(s, i + 1, cut) {
                    return if i == 0 {
                        Some(1)
                    } else {
                        Some(trimmed_length(s, i))
                    };
                }
                if i == 0 {
                    return None;
                }
                cut = i;
            },
        }
    }
}

impl TextPath {
    /// The path that `text` spells.
    pub fn new(text: &str) -> (p: TextPath)
        ensures
            p@ == text@,
    {
        TextPath { chars: chars_of(text) }
    }

    /// The path as a string.
    pub fn to_text(&self) -> (s: String)
        ensures
            s@ == self@,
    {
        string_of(&self.chars)
    }

    /// A copy of the path.
    pub fn duplicate(&self) -> (p: TextPath)
        ensures
            p@ == self@,
    {
        TextPath { chars: copy_range(&self.chars, 0, self.chars.len()) }
    }

    /// Whether the two paths are the same text.
    pub fn same_text(&self, other: &TextPath) -> (same: bool)
        ensures
            same == (self@ == other@),
    {
        if self.chars.len() != other.chars.len() {
            return false;
        }
        let mut i: usize = 0;
        while i < self.chars.len()
            invariant
                i <= self.chars.len(),
                self.chars.len() == other.chars.len(),
                forall|j: int| 0 <= j < i ==> self.chars@[j] == other.chars@[j],
            decreases self.chars.len() - i,
        {
            if self.chars[i] != other.chars[i] {
                return false;
            }
            i += 1;
        }
        assert(self.chars@ =~= other.chars@);
        true
    }

    /// Whether the path begins at the root.
    pub fn is_absolute(&self) -> (yes: bool)
        ensures
            yes == is_absolute(self@),
    {
        self.chars.len() > 0 && self.chars[0] == '/'
    }

    /// The path with a separator put at its end.
    pub fn followed_by_separator(&self) -> (p: TextPath)
        ensures
            p@ == self@.push('/'),
    {
        let mut chars = copy_range(&self.chars, 0, self.chars.len());
        chars.push('/');
        TextPath { chars }
    }

    /// The text of `self` directly followed by the text of `other`, with
    /// nothing put between them.
    pub fn concat(&self, other: &TextPath) -> (p: TextPath)
        ensures
            p@ == self@ + other@,
    {
        let mut chars = copy_range(&self.chars, 0, self.chars.len());
        let mut i: usize = 0;
        while i < other.chars.len()
            invariant
                i <= other.chars.len(),
                chars@ == self.chars@ + other.chars@.take(i as int),
            decreases other.chars.len() - i,
        {
            chars.push(other.chars[i]);
            i += 1;
        }
        TextPath { chars }
    }

    /// Appends `component` as a new segment.
    pub fn push(&mut self, component: &TextPath)
        ensures
            final(self)@ == push(old(self)@, component@),
    {
        if component.is_absolute() {
            self.chars.truncate(0);
        } else if self.chars.len() > 0 && self.chars[self.chars.len() - 1] != '/' {
            self.chars.push('/');
        }
        let ghost base = self.chars@;
        let mut i: usize = 0;
        while i < component.chars.len()
            invariant
                i <= component.chars.len(),
                self.chars@ == base + component.chars@.take(i as int),
            decreases component.chars.len() - i,
        {
            self.chars.push(component.chars[i]);
            i += 1;
        }
    }

    /// Takes the last component away. Says whether there was one to take.
    pub fn pop(&mut self) -> (popped: bool)
        ensures
            final(self)@ == pop(old(self)@),
            popped == parent_len(old(self)@).is_some(),
    {
        match parent_length(&self.chars) {
            Some(n) => {
                self.chars.truncate(n);
                true
            },
            None => false,
        }
    }

    /// Whether the last component is `..`.
    pub fn ends_with_parent_dir(&self) -> (yes: bool)
        ensures
            yes == ends_with_parent_dir(self@),
    {
        let s = &self.chars;
        let mut cut: usize = s.len();
        assert(s@.take(cut as int) =~= s@);
        loop
            invariant
                cut <= s.len(),
                s@ == self@,
                ends_with_parent_dir(s@.take(cut as int)) == ends_with_parent_dir(s@),
            decreases cut,
        {
            match last_separator(s, cut) {
                None => {
                    proof {
                        let t = s@.take(cut as int);
                        assert(components(t) == if t.len() == 0 {
                            Seq::<Seq<char>>::empty()
                        } else {
                            seq![t]
                        });
                    }
                    return is_parent_segment(s, 0, cut);
                },
                Some(i) => {
                    proof {
                        lemma_last_sep(s@.take(cut as int));
                        assert(s@.take(cut as int).skip(i + 1) =~= s@.subrange(
                            i + 1,
                            cut as int,
                        ));
                        assert(s@.take(cut as int).take(i as int) =~= s@.take(i as int));
                    }
                    if segment_counts(s, i + 1, cut) {
                        return is_parent_segment(s, i + 1, cut);
                    }
                    if i == 0 {
                        return false;
                    }
                    cut = i;
                },
            }
        }
    }

    /// Whether the path is written in plain form: a separator and a name,
    /// once or several times over.
    pub fn is_plain(&self) -> (yes: bool)
        ensures
            yes == is_plain_path(self@),
    {
        let s = &self.chars;
        let mut cut: usize = s.len();
        assert(s@.take(cut as int) =~= s@);
        loop
            invariant
                cut <= s.len(),
                s@ == self@,
                is_plain_path(s@.take(cut as int)) == is_plain_path(s@),
            decreases cut,
        {
            match last_separator(s, cut) {
                None => {
                    return false;
                },
                Some(i) => {
                    proof {
                        lemma_last_sep(s@.take(cut as int));
                        assert(s@.take(cut as int).skip(i + 1) =~= s@.subrange(
                            i + 1,
                            cut as int,
                        ));
                        assert(s@.take(cut as int).take(i as int) =~= s@.take(i as int));
                    }
                    if !segment_counts(s, i + 1, cut) || is_parent_segment(s, i + 1, cut) {
                        return false;
                    }
                    if i == 0 {
                        return true;
                    }
                    cut = i;
                },
            }
        }
    }

    /// The components of the path, first to last.
    pub fn components(&self) -> (out: Vec<TextPath>)
        ensures
            views(out@) == components(self@),
    {
        let s = &self.chars;
        let n = s.len();
        let mut out: Vec<TextPath> = Vec::new();
        let mut start: usize = 0;
        let mut i: usize = 0;
        while i < n
            invariant
                start <= i <= n,
                n == s.len(),
                start > 0 ==> s@[start - 1] == '/',
                forall|j: int| start <= j < i ==> s@[j] != '/',
                views(out@) == if start == 0 {
                    Seq::<Seq<char>>::empty()
                } else {
                    components(s@.take(start as int))
                },
            decreases n - i,
        {
            if s[i] == '/' {
                let ghost head = s@.take(start as int);
                let ghost segment = s@.subrange(start as int, i as int);
                proof {
                    assert(s@.take(i as int) =~= head + segment);
                    assert(s@.take(i + 1) =~= s@.take(i as int).push('/'));
                    lemma_components_sep(s@.take(i as int));
                    if start == 0 {
                        lemma_components_single(segment);
                    } else {
                        lemma_components_segment(head, segment);
                    }
                }
                if i == 0 {
                    let mut marker: Vec<char> = Vec::new();
                    marker.push('/');
                    out.push(TextPath { chars: marker });
                } else if start == 0 || segment_counts(s, start, i) {
                    out.push(TextPath { chars: copy_range(s, start, i) });
                }
                start = i + 1;
            }
            i += 1;
        }
        let ghost head = s@.take(start as int);
        let ghost segment = s@.subrange(start as int, n as int);
        proof {
            assert(s@ =~= head + segment);
            if start == 0 {
                lemma_components_single(segment);
            } else {
                lemma_components_segment(head, segment);
            }
        }
        if start == 0 {
            if n > 0 {
                out.push(TextPath { chars: copy_range(s, 0, n) });
            }
        } else if segment_counts(s, start, n) {
            out.push(TextPath { chars: copy_range(s, start, n) });
        }
        out
    }

    /// Whether the components of `base` are the first components of the
    /// path.
    pub fn starts_with(&self, base: &TextPath) -> (yes: bool)
        ensures
            yes == starts_with(self@, base@),
    {
        let mine = self.components();
        let theirs = base.components();
        if theirs.len() > mine.len() {
            return false;
        }
        let mut k: usize = 0;
        while k < theirs.len()
            invariant
                k <= theirs.len() <= mine.len(),
                views(mine@) == components(self@),
                views(theirs@) == components(base@),
                forall|j: int| 0 <= j < k ==> views(theirs@)[j] == views(mine@)[j],
            decreases theirs.len() - k,
        {
            if !theirs[k].same_text(&mine[k]) {
                assert(views(theirs@)[k as int] != views(mine@)[k as int]);
                return false;
            }
            k += 1;
        }
        true
    }
}

} // verus!
