//! Paths as text: how a path splits into components, and how a component is
//! appended to a path or taken away from its end.
//!
//! Nothing here looks at a filesystem. A path is a sequence of characters in
//! which `/` separates segments, as on Unix. Its components are the segments
//! that count: a leading `/` is the root marker, a leading `.` stands for the
//! current directory, and after that empty segments and `.` segments are
//! passed over.

use vstd::prelude::*;

verus! {

/// The component that stands for the root directory.
pub open spec fn root_marker() -> Seq<char> {
    seq!['/']
}

/// The component that stands for the current directory.
pub open spec fn cur_dir() -> Seq<char> {
    seq!['.']
}

/// The component that stands for the parent directory.
pub open spec fn parent_dir() -> Seq<char> {
    seq!['.', '.']
}

/// The position of the last separator in `s`, or -1 where `s` has none.
pub open spec fn last_sep(s: Seq<char>) -> int
    decreases s.len(),
{
    if s.len() == 0 {
        -1
    } else if s.last() == '/' {
        s.len() - 1
    } else {
        last_sep(s.drop_last())
    }
}

/// Whether a segment that follows a separator counts as a component.
pub open spec fn counts_as_component(segment: Seq<char>) -> bool {
    segment.len() > 0 && segment != cur_dir()
}

/// The components of `s`, first to last.
///
/// A path without a separator is its own single component, unless it is
/// empty. Otherwise the components are those of the text before the last
/// separator (the root marker, where nothing stands before it), followed by
/// the segment after that separator where it counts as a component.
pub open spec fn components(s: Seq<char>) -> Seq<Seq<char>>
    decreases s.len(),
{
    let i = last_sep(s);
    if i < 0 {
        if s.len() == 0 {
            Seq::empty()
        } else {
            seq![s]
        }
    } else {
        let before = if 0 < i < s.len() {
            components(s.take(i))
        } else {
            seq![root_marker()]
        };
        let segment = s.skip(i + 1);
        if counts_as_component(segment) {
            before.push(segment)
        } else {
            before
        }
    }
}

/// The length that is left of `s` when the separators and `.` segments at
/// its end are taken away. A leading root separator always stays.
pub open spec fn trimmed_len(s: Seq<char>) -> int
    decreases s.len(),
{
    let i = last_sep(s);
    if i < 0 || counts_as_component(s.skip(i + 1)) {
        s.len() as int
    } else if 0 < i < s.len() {
        trimmed_len(s.take(i))
    } else {
        1
    }
}

/// The length of the parent of `s`: of the text that is left when the last
/// component of `s` and everything after it is taken away, together with the
/// separators and `.` segments before it. `None` where `s` has no component or
/// only the root marker.
pub open spec fn parent_len(s: Seq<char>) -> Option<int>
    decreases s.len(),
{
    let i = last_sep(s);
    if i < 0 {
        if s.len() == 0 {
            None
        } else {
            Some(0)
        }
    } else if counts_as_component(s.skip(i + 1)) {
        if 0 < i < s.len() {
            Some(trimmed_len(s.take(i)))
        } else {
            Some(1)
        }
    } else if 0 < i < s.len() {
        parent_len(s.take(i))
    } else {
        None
    }
}

/// `s` without its last component; `s` itself where it has no parent.
pub open spec fn pop(s: Seq<char>) -> Seq<char> {
    match parent_len(s) {
        Some(n) => s.take(n),
        None => s,
    }
}

/// Whether `s` begins at the root.
pub open spec fn is_absolute(s: Seq<char>) -> bool {
    s.len() > 0 && s[0] == '/'
}

/// `path` with `component` appended as a new segment. A separator is put
/// between the two unless `path` is empty or already ends in one. An
/// absolute `component` takes the place of `path`.
pub open spec fn push(path: Seq<char>, component: Seq<char>) -> Seq<char> {
    if is_absolute(component) {
        component
    } else if path.len() > 0 && path.last() != '/' {
        path.push('/') + component
    } else {
        path + component
    }
}

/// Whether the last component of `s` is `..`.
pub open spec fn ends_with_parent_dir(s: Seq<char>) -> bool {
    components(s).len() > 0 && components(s).last() == parent_dir()
}

/// Whether the components of `base` are the first components of `s`.
pub open spec fn starts_with(s: Seq<char>, base: Seq<char>) -> bool {
    components(base).is_prefix_of(components(s))
}

/// Whether `component` is what a path can have as a component: the root
/// marker, or a non-empty text without a separator.
pub open spec fn is_component(component: Seq<char>) -> bool {
    component == root_marker() || (component.len() > 0 && forall|j: int|
        0 <= j < component.len() ==> component[j] != '/')
}

/// Whether `s` is written in plain form: a separator and a name, once or
/// several times over, where a name is a segment that is not empty, not `.`
/// and not `..`.
pub open spec fn is_plain_path(s: Seq<char>) -> bool
    decreases s.len(),
{
    let i = last_sep(s);
    let segment = s.skip(i + 1);
    &&& i >= 0
    &&& counts_as_component(segment)
    &&& segment != parent_dir()
    &&& (i == 0 || (i < s.len() && is_plain_path(s.take(i))))
}

/// Where `last_sep` points there is a separator, and none comes after it.
pub proof fn lemma_last_sep(s: Seq<char>)
    ensures
        -1 <= last_sep(s) < s.len(),
        last_sep(s) >= 0 ==> s[last_sep(s)] == '/',
        forall|j: int| last_sep(s) < j < s.len() ==> s[j] != '/',
    decreases s.len(),
{
    if s.len() > 0 && s.last() != '/' {
        let t = s.drop_last();
        lemma_last_sep(t);
        assert forall|j: int| last_sep(s) < j < s.len() implies s[j] != '/' by {
            if j < t.len() {
                assert(t[j] == s[j]);
            }
        }
    }
}

/// A position with a separator, or -1, after which no separator comes is
/// the one that `last_sep` gives.
pub proof fn lemma_last_sep_is(s: Seq<char>, i: int)
    requires
        -1 <= i < s.len(),
        i >= 0 ==> s[i] == '/',
        forall|j: int| i < j < s.len() ==> s[j] != '/',
    ensures
        last_sep(s) == i,
{
    lemma_last_sep(s);
}

/// A separator at the end of a non-empty path adds no component.
pub proof fn lemma_components_sep(s: Seq<char>)
    ensures
        components(s.push('/')) == if s.len() == 0 {
            seq![root_marker()]
        } else {
            components(s)
        },
{
    let t = s.push('/');
    let n = s.len() as int;
    lemma_last_sep_is(t, n);
    assert(t.take(n) =~= s);
}

/// A segment without a separator, put behind a path that ends in a
/// separator, is one more component where it counts as one.
pub proof fn lemma_components_segment(s: Seq<char>, segment: Seq<char>)
    requires
        s.len() > 0,
        s.last() == '/',
        forall|j: int| 0 <= j < segment.len() ==> segment[j] != '/',
    ensures
        components(s + segment) == if counts_as_component(segment) {
            components(s).push(segment)
        } else {
            components(s)
        },
{
    let t = s + segment;
    let i = s.len() - 1;
    lemma_last_sep_is(t, i);
    lemma_last_sep_is(s, i);
    assert(t.skip(i + 1) =~= segment);
    assert(t.take(i) =~= s.take(i));
}

/// A path without a separator is its own component.
pub proof fn lemma_components_single(s: Seq<char>)
    requires
        forall|j: int| 0 <= j < s.len() ==> s[j] != '/',
    ensures
        components(s) == if s.len() == 0 {
            Seq::<Seq<char>>::empty()
        } else {
            seq![s]
        },
{
    lemma_last_sep_is(s, -1);
}

/// Every component of a path is the root marker or a non-empty text
/// without a separator. The root marker and `.` come first or not at all.
pub proof fn lemma_components_shape(s: Seq<char>)
    ensures
        forall|k: int|
            0 <= k < components(s).len() ==> is_component(#[trigger] components(s)[k]),
        forall|k: int|
            0 < k < components(s).len() ==> #[trigger] components(s)[k] != root_marker()
                && components(s)[k] != cur_dir(),
    decreases s.len(),
{
    let i = last_sep(s);
    lemma_last_sep(s);
    if i >= 0 {
        let segment = s.skip(i + 1);
        assert(counts_as_component(segment) ==> is_component(segment) && segment
            != root_marker()) by {
            if segment == root_marker() {
                assert(segment[0] == '/');
            }
        }
        if i > 0 {
            lemma_components_shape(s.take(i));
            lemma_components_not_empty(s.take(i));
        }
    }
}

/// A path that is not empty has a component.
pub proof fn lemma_components_not_empty(s: Seq<char>)
    requires
        s.len() > 0,
    ensures
        components(s).len() > 0,
    decreases s.len(),
{
    let i = last_sep(s);
    lemma_last_sep(s);
    if i > 0 {
        lemma_components_not_empty(s.take(i));
    }
}

/// Appending a component to a path that is not empty adds it to the
/// components, unless it is `.`, which adds nothing.
pub proof fn lemma_components_push(path: Seq<char>, component: Seq<char>)
    requires
        path.len() > 0,
        forall|j: int| 0 <= j < component.len() ==> component[j] != '/',
    ensures
        components(push(path, component)) == if counts_as_component(component) {
            components(path).push(component)
        } else {
            components(path)
        },
{
    if path.last() != '/' {
        lemma_components_sep(path);
        lemma_components_segment(path.push('/'), component);
    } else {
        lemma_components_segment(path, component);
    }
}

/// The parent of a path, where there is one, is not longer than the path.
pub proof fn lemma_parent_len_bound(s: Seq<char>)
    ensures
        0 <= trimmed_len(s) <= s.len(),
        parent_len(s) matches Some(n) ==> 0 <= n <= s.len(),
    decreases s.len(),
{
    let i = last_sep(s);
    lemma_last_sep(s);
    if i > 0 {
        lemma_parent_len_bound(s.take(i));
    }
}

/// Taking the separators and `.` segments at the end of a path away leaves
/// its components as they are.
pub proof fn lemma_components_trimmed(s: Seq<char>)
    ensures
        components(s.take(trimmed_len(s))) == components(s),
    decreases s.len(),
{
    let i = last_sep(s);
    lemma_last_sep(s);
    if i < 0 || counts_as_component(s.skip(i + 1)) {
        assert(s.take(s.len() as int) =~= s);
    } else if i > 0 {
        lemma_components_trimmed(s.take(i));
        lemma_parent_len_bound(s.take(i));
        assert(s.take(i).take(trimmed_len(s.take(i))) =~= s.take(trimmed_len(s.take(i))));
    } else {
        lemma_components_sep(Seq::<char>::empty());
    }
}

/// A path has a parent unless it has no component or only the root marker,
/// and the components of the parent are those of the path without the last.
pub proof fn lemma_components_pop(s: Seq<char>)
    ensures
        parent_len(s).is_none() <==> (components(s).len() == 0 || components(s)
            =~= seq![root_marker()]),
        parent_len(s).is_some() ==> components(pop(s)) == components(s).drop_last(),
    decreases s.len(),
{
    let i = last_sep(s);
    lemma_last_sep(s);
    lemma_components_shape(s);
    if i < 0 {
        if s.len() > 0 {
            assert(seq![s][0] != root_marker());
        }
    } else {
        if i > 0 {
            lemma_components_not_empty(s.take(i));
        }
        if counts_as_component(s.skip(i + 1)) {
            if i > 0 {
                lemma_components_trimmed(s.take(i));
                lemma_parent_len_bound(s.take(i));
                assert(s.take(i).take(trimmed_len(s.take(i))) =~= s.take(trimmed_len(s.take(i))));
            } else {
                lemma_components_sep(Seq::<char>::empty());
            }
        } else if i > 0 {
            lemma_components_pop(s.take(i));
            lemma_parent_len_bound(s.take(i));
            if let Some(n) = parent_len(s.take(i)) {
                assert(s.take(i).take(n) =~= s.take(n));
            }
        }
    }
}

/// The first component of a path is the root marker exactly where the path
/// is absolute.
pub proof fn lemma_components_root(s: Seq<char>)
    ensures
        is_absolute(s) <==> (components(s).len() > 0 && components(s)[0] == root_marker()),
    decreases s.len(),
{
    let i = last_sep(s);
    lemma_last_sep(s);
    if i > 0 {
        lemma_components_root(s.take(i));
        lemma_components_not_empty(s.take(i));
    }
}

/// An absolute path written directly behind another: the components of the
/// result begin with the components of the path in front.
pub proof fn lemma_components_concat(front: Seq<char>, back: Seq<char>)
    requires
        is_absolute(back),
    ensures
        starts_with(front + back, front),
    decreases back.len(),
{
    let whole = front + back;
    let j = last_sep(back);
    let n = front.len() as int;
    lemma_last_sep(back);
    assert(j >= 0);
    assert forall|k: int| n + j < k < whole.len() implies whole[k] != '/' by {
        assert(whole[k] == back[k - n]);
    }
    lemma_last_sep_is(whole, n + j);
    let before = if n + j > 0 {
        components(whole.take(n + j))
    } else {
        seq![root_marker()]
    };
    assert(components(front).is_prefix_of(before)) by {
        if j > 0 {
            assert(whole.take(n + j) =~= front + back.take(j));
            lemma_components_concat(front, back.take(j));
        } else if n > 0 {
            assert(whole.take(n) =~= front);
        }
    }
}

} // verus!
