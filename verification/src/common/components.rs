//! The kinds of path components and the spans they take up within a path.
use vstd::prelude::*;

verus! {

/// Kind of a path component, common to every encoding
#[derive(Copy, Clone, Debug, PartialEq, Eq, Structural, Hash)]
pub enum ComponentKind {
    /// A Windows prefix such as `C:` or `\\server\share`
    Prefix,
    /// The root directory separator
    RootDir,
    /// The current directory, `.`
    CurDir,
    /// The parent directory, `..`
    ParentDir,
    /// A file or directory name
    Normal,
}

/// Interface of an iterator over the components of a path
pub trait Components<'a>: Sized {
    /// Bytes of the portion of the path remaining for iteration
    spec fn remaining(&self) -> Seq<u8>;

    /// The remaining path is absolute
    spec fn spec_is_absolute(&self) -> bool;

    /// The remaining path has a root
    spec fn spec_has_root(&self) -> bool;

    /// Extracts a slice corresponding to the portion of the path remaining for iteration
    fn as_bytes(&self) -> (res: &'a [u8])
        ensures
            res@ == self.remaining(),
    ;

    /// Reports back whether the iterator represents an absolute path
    fn is_absolute(&self) -> (res: bool)
        ensures
            res == self.spec_is_absolute(),
    ;

    /// Returns `true` if the iterator represents a path that has a root
    fn has_root(&self) -> (res: bool)
        ensures
            res == self.spec_has_root(),
    ;
}

/// A component of a path: its kind, and the offsets in the path where its bytes start and end
pub type Span = (ComponentKind, int, int);

/// A span with executable offsets, as a mathematical span
pub open spec fn span_of(t: (ComponentKind, usize, usize)) -> Span {
    (t.0, t.1 as int, t.2 as int)
}

/// Every span lies within a path of `len` bytes, in order and without overlap
pub open spec fn spans_wf(spans: Seq<Span>, len: int) -> bool {
    &&& forall|i: int| 0 <= i < spans.len() ==> 0 <= (#[trigger] spans[i]).1 <= spans[i].2 <= len
    &&& forall|i: int, j: int|
        0 <= i < j < spans.len() ==> (#[trigger] spans[i]).2 <= (#[trigger] spans[j]).1
}

/// Offset `i` of `s` is at either end of `s`, or next to an ASCII byte
pub open spec fn ascii_edge(s: Seq<u8>, i: int) -> bool {
    ||| i == 0
    ||| i == s.len()
    ||| (0 < i <= s.len() && s[i - 1] < 128)
    ||| (0 <= i < s.len() && s[i] < 128)
}

/// Every component in `spans` starts and ends at an ASCII edge of `s`
pub open spec fn ascii_delimited(s: Seq<u8>, spans: Seq<Span>) -> bool {
    forall|i: int|
        0 <= i < spans.len() ==> ascii_edge(s, (#[trigger] spans[i]).1) && ascii_edge(s, spans[i].2)
}

/// An ASCII edge of the part of `p` from `base` on is an ASCII edge of `p`, provided `base` itself
/// is one when the edge is the start of that part
pub proof fn lemma_ascii_edge_shift(p: Seq<u8>, base: int, x: int)
    requires
        0 <= base <= p.len(),
        0 <= x <= p.len() - base,
        ascii_edge(p.skip(base), x),
        x == 0 ==> ascii_edge(p, base),
    ensures
        ascii_edge(p, base + x),
{
    if x > 0 && x < p.len() - base {
        assert(p.skip(base)[x - 1] == p[base + x - 1]);
        assert(p.skip(base)[x] == p[base + x]);
    } else if x > 0 {
        assert(p.skip(base)[x - 1] == p[base + x - 1]);
    }
}

/// Offset where the component before the last one ends, or 0 when there is at most one component
pub open spec fn end_before_last(spans: Seq<Span>) -> int {
    if spans.len() >= 2 {
        spans[spans.len() - 2].2
    } else {
        0
    }
}

/// Length of the parent of a path with the given components, if it has one: the path without its
/// final component, which must be a name, `.` or `..`
pub open spec fn parent_len(spans: Seq<Span>) -> Option<int> {
    if spans.len() == 0 {
        None
    } else {
        match spans.last().0 {
            ComponentKind::Normal | ComponentKind::CurDir | ComponentKind::ParentDir => Some(
                end_before_last(spans),
            ),
            _ => None,
        }
    }
}

/// Offsets of the final component of a path with the given components, if it is a file or
/// directory name
pub open spec fn file_name_span(spans: Seq<Span>) -> Option<(int, int)> {
    if spans.len() > 0 && spans.last().0 == ComponentKind::Normal {
        Some((spans.last().1, spans.last().2))
    } else {
        None
    }
}

} // verus!
