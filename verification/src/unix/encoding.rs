//! The Unix encoding of paths.
use vstd::prelude::*;

use crate::common::components::{
    ascii_delimited, ascii_edge, lemma_ascii_edge_shift, span_of, spans_wf, ComponentKind, Span,
};
use crate::common::encoding::Encoding;
use crate::common::path::Path;
use crate::common::pathbuf::PathBuf;
use crate::common::reencode::spec_path_with_encoding;
use crate::common::utf8::str_eq;
use crate::constants::{unix_separator_bytes, NUL_BYTE, UNIX_SEPARATOR_BYTE};
use crate::unix::component::UnixComponentView;
use crate::unix::components::{starts_with_root, UnixComponents};
use crate::windows::prefix::bytes_eq;
use crate::parser::lemma_run_len_bounds;
use crate::unix::parser::{
    cur_dir_at, disallowed_fn, is_disallowed, is_sep, lemma_front_wf, lemma_skip_from_bounds, not_sep_fn, skip_from,
    spec_components, spec_front, spec_front_parsed, Parser, State,
};

verus! {

/// Represents a Unix-specific [`Encoding`]
#[derive(Copy, Clone, Debug)]
pub struct UnixEncoding;

/// Components of a Unix path, by kind and offsets
pub open spec fn unix_spans(path: Seq<u8>) -> Seq<Span> {
    spec_components(path, State::AtBeginning, 0).map_values(
        |t: (UnixComponentView, int, int)| (t.0.kind(), t.1, t.2),
    )
}

/// A Unix path has a root if its first component is the root directory
pub open spec fn unix_has_root(path: Seq<u8>) -> bool {
    starts_with_root(path, State::AtBeginning)
}

/// Pushing onto a Unix path: an absolute path replaces it, a relative one is appended with a
/// separator between them unless the current path is empty or already ends with one, and an empty
/// one changes nothing
pub open spec fn unix_push(current: Seq<u8>, path: Seq<u8>) -> Seq<u8> {
    if path.len() == 0 {
        current
    } else if unix_has_root(path) {
        path
    } else if current.len() > 0 && !is_sep(current.last()) {
        current.push(UNIX_SEPARATOR_BYTE) + path
    } else {
        current + path
    }
}

/// A Unix path has a root exactly when it starts with a separator
pub proof fn lemma_unix_has_root(path: Seq<u8>)
    ensures
        unix_has_root(path) == (path.len() > 0 && is_sep(path[0])),
{
}

/// When skipping moves, the byte it stops after is a separator or a `.`
proof fn lemma_skip_from_ascii(s: Seq<u8>, i: int)
    requires
        0 <= i <= s.len(),
    ensures
        skip_from(s, i) > i ==> s[skip_from(s, i) - 1] < 128,
    decreases s.len() - i,
{
    if 0 <= i < s.len() && (is_sep(s[i]) || cur_dir_at(s, i)) {
        lemma_skip_from_ascii(s, i + 1);
    }
}

/// A parsing step starts its component, ends it and stops at ASCII edges of its input
proof fn lemma_front_edges(s: Seq<u8>, state: State)
    ensures
        spec_front(s, state) matches Some((c, a, b, n)) ==> ascii_edge(s, a) && ascii_edge(s, b)
            && ascii_edge(s, n),
{
    lemma_front_wf(s, state);
    lemma_skip_from_bounds(s, 0);
    lemma_skip_from_ascii(s, 0);
    let skip = if state == State::AtBeginning {
        0
    } else {
        skip_from(s, 0)
    };
    let t = s.skip(skip);
    lemma_run_len_bounds(t, disallowed_fn());
    if let Some((rest, c)) = spec_front_parsed(s, state) {
        lemma_run_len_bounds(rest, not_sep_fn());
    }
    if let Some((c, a, b, n)) = spec_front(s, state) {
        let rest = spec_front_parsed(s, state).unwrap().0;
        let len = t.len() - rest.len();
        assert(rest =~= t.skip(len));
        if n > b {
            assert(s[n - 1] == rest[n - b - 1]);
        }
        if b < s.len() {
            assert(s[b] == t[len]);
        }
        assert(s[b - 1] == t[len - 1]);
    }
}

/// The components found from `base` start and end at ASCII edges of `p`
proof fn lemma_components_edges(p: Seq<u8>, state: State, base: int)
    requires
        0 <= base <= p.len(),
        ascii_edge(p, base),
    ensures
        ({
            let comps = spec_components(p.skip(base), state, base);
            forall|i: int|
                0 <= i < comps.len() ==> ascii_edge(p, (#[trigger] comps[i]).1) && ascii_edge(
                    p,
                    comps[i].2,
                )
        }),
    decreases p.len() - base,
{
    let s = p.skip(base);
    lemma_front_wf(s, state);
    lemma_front_edges(s, state);
    if let Some((c, a, b, n)) = spec_front(s, state) {
        if 0 < n <= s.len() {
            lemma_ascii_edge_shift(p, base, a);
            lemma_ascii_edge_shift(p, base, b);
            lemma_ascii_edge_shift(p, base, n);
            assert(s.skip(n) =~= p.skip(base + n));
            lemma_components_edges(p, State::NotAtBeginning, base + n);
            let comps = spec_components(s, state, base);
            let rest = spec_components(s.skip(n), State::NotAtBeginning, base + n);
            assert(comps == seq![(c, base + a, base + b)] + rest);
            assert forall|i: int| 0 <= i < comps.len() implies ascii_edge(p, (#[trigger] comps[i]).1)
                && ascii_edge(p, comps[i].2) by {
                if i > 0 {
                    assert(comps[i] == rest[i - 1]);
                }
            }
        }
    }
}

/// Offsets of the components found from `base` lie within the input and in order
pub proof fn lemma_components_wf(s: Seq<u8>, state: State, base: int)
    ensures
        ({
            let comps = spec_components(s, state, base);
            &&& forall|i: int|
                0 <= i < comps.len() ==> base <= (#[trigger] comps[i]).1 <= comps[i].2 <= base
                    + s.len()
            &&& forall|i: int, j: int|
                0 <= i < j < comps.len() ==> (#[trigger] comps[i]).2 <= (#[trigger] comps[j]).1
        }),
    decreases s.len(),
{
    lemma_front_wf(s, state);
    if let Some((c, a, b, n)) = spec_front(s, state) {
        if 0 < n <= s.len() {
            lemma_components_wf(s.skip(n), State::NotAtBeginning, base + n);
            let comps = spec_components(s, state, base);
            let rest = spec_components(s.skip(n), State::NotAtBeginning, base + n);
            assert(comps == seq![(c, base + a, base + b)] + rest);
            assert forall|i: int| 0 <= i < comps.len() implies base <= (#[trigger] comps[i]).1
                <= comps[i].2 <= base + s.len() by {
                if i > 0 {
                    assert(comps[i] == rest[i - 1]);
                }
            }
            assert forall|i: int, j: int| 0 <= i < j < comps.len() implies (
            #[trigger] comps[i]).2 <= (#[trigger] comps[j]).1 by {
                assert(comps[j] == rest[j - 1]);
                if i > 0 {
                    assert(comps[i] == rest[i - 1]);
                }
            }
        }
    }
}

impl Encoding for UnixEncoding {
    open spec fn spec_spans(path: Seq<u8>) -> Seq<Span> {
        unix_spans(path)
    }

    open spec fn spec_has_root(path: Seq<u8>) -> bool {
        unix_has_root(path)
    }

    open spec fn spec_is_absolute(path: Seq<u8>) -> bool {
        unix_has_root(path)
    }

    open spec fn spec_push(current: Seq<u8>, path: Seq<u8>) -> Seq<u8> {
        unix_push(current, path)
    }

    proof fn lemma_spans_wf(path: Seq<u8>) {
        lemma_components_wf(path, State::AtBeginning, 0);
    }

    open spec fn spec_root_bytes() -> Seq<u8> {
        seq![UNIX_SEPARATOR_BYTE]
    }

    proof fn lemma_spans_ascii_delimited(path: Seq<u8>) {
        assert(path.skip(0) =~= path);
        lemma_components_edges(path, State::AtBeginning, 0);
        let comps = spec_components(path, State::AtBeginning, 0);
        let spans = unix_spans(path);
        assert forall|i: int| 0 <= i < spans.len() implies ascii_edge(path, (#[trigger] spans[i]).1)
            && ascii_edge(path, spans[i].2) by {
            assert(spans[i].1 == comps[i].1 && spans[i].2 == comps[i].2);
        }
    }

    fn root_bytes() -> (res: &'static [u8]) {
        unix_separator_bytes()
    }

    open spec fn spec_same_component(ka: ComponentKind, a: Seq<u8>, kb: ComponentKind, b: Seq<u8>) -> bool {
        ka == kb && a == b
    }

    open spec fn spec_is_root(k: ComponentKind, c: Seq<u8>) -> bool {
        k == ComponentKind::RootDir
    }

    fn is_root(k: ComponentKind, c: &[u8]) -> (res: bool) {
        k == ComponentKind::RootDir
    }

    /// A Unix name holds neither a separator nor a NUL byte
    open spec fn spec_valid_name(name: Seq<u8>) -> bool {
        forall|i: int| 0 <= i < name.len() ==> !is_disallowed(#[trigger] name[i])
    }

    fn is_valid_name(name: &[u8]) -> (res: bool) {
        let mut i: usize = 0;
        while i < name.len()
            invariant
                i <= name@.len(),
                forall|j: int| 0 <= j < i ==> !is_disallowed(#[trigger] name@[j]),
            decreases name@.len() - i,
        {
            if name[i] == UNIX_SEPARATOR_BYTE || name[i] == NUL_BYTE {
                proof {
                    assert(is_disallowed(name@[i as int]));
                }
                return false;
            }
            i = i + 1;
        }
        true
    }

    proof fn lemma_same_component_refl(k: ComponentKind, a: Seq<u8>) {
    }

    proof fn lemma_same_component_sym(ka: ComponentKind, a: Seq<u8>, kb: ComponentKind, b: Seq<u8>) {
    }

    proof fn lemma_same_component_trans(
        ka: ComponentKind,
        a: Seq<u8>,
        kb: ComponentKind,
        b: Seq<u8>,
        kc: ComponentKind,
        c: Seq<u8>,
    ) {
    }

    fn same_component(ka: ComponentKind, a: &[u8], kb: ComponentKind, b: &[u8]) -> (res: bool) {
        ka == kb && bytes_eq(a, b)
    }

    open spec fn spec_label() -> Seq<char> {
        seq!['u', 'n', 'i', 'x']
    }

    fn label() -> (res: &'static str) {
        let r = "unix";
        proof {
            reveal_strlit("unix");
        }
        r
    }

    fn push(current_path: &mut Vec<u8>, path: &[u8]) {
        if path.len() == 0 {
            return;
        }
        if Self::has_root(path) {
            current_path.clear();
        } else if current_path.len() > 0 && current_path[current_path.len() - 1]
            != UNIX_SEPARATOR_BYTE {
            current_path.push(UNIX_SEPARATOR_BYTE);
        }
        let ghost before = current_path@;
        current_path.extend_from_slice(path);
        proof {
            assert(current_path@ == before + path@);
        }
    }

    fn has_root(path: &[u8]) -> (res: bool) {
        UnixComponents::new(path).has_root()
    }

    fn is_absolute(path: &[u8]) -> (res: bool) {
        UnixComponents::new(path).is_absolute()
    }

    fn component_spans(path: &[u8]) -> (res: Vec<(ComponentKind, usize, usize)>) {
        let mut parser = Parser::new(path);
        let mut out: Vec<(ComponentKind, usize, usize)> = Vec::new();
        let mut offset: usize = 0;
        let total: usize = path.len();
        let ghost f = |t: (UnixComponentView, int, int)| (t.0.kind(), t.1, t.2);
        let ghost g = |t: (ComponentKind, usize, usize)| span_of(t);
        proof {
            assert(path@.skip(0) =~= path@);
        }
        loop
            invariant_except_break
                f == (|t: (UnixComponentView, int, int)| (t.0.kind(), t.1, t.2)),
                g == (|t: (ComponentKind, usize, usize)| span_of(t)),
                total == path@.len(),
                offset <= path@.len(),
                parser@.0 == path@.skip(offset as int),
                unix_spans(path@) == out@.map_values(g) + spec_components(
                    parser@.0,
                    parser@.1,
                    offset as int,
                ).map_values(f),
            ensures
                out@.map_values(g) == unix_spans(path@),
            decreases parser@.0.len(),
        {
            let ghost before = parser@;
            proof {
                lemma_front_wf(before.0, before.1);
            }
            match parser.step_front() {
                Ok((c, a, b, n)) => {
                    let item = (c.kind(), offset + a, offset + b);
                    proof {
                        let rest = spec_components(before.0.skip(n as int), State::NotAtBeginning, offset + n);
                        let head = seq![(c@, offset + a, offset + b)];
                        assert(spec_components(before.0, before.1, offset as int) == head + rest);
                        assert((head + rest).map_values(f) =~= head.map_values(f) + rest.map_values(f));
                        assert(out@.push(item).map_values(g) =~= out@.map_values(g) + head.map_values(f));
                    }
                    out.push(item);
                    let _ = parser.next_front();
                    offset = offset + n;
                    proof {
                        assert(parser@.0 =~= path@.skip(offset as int));
                    }
                },
                Err(_) => {
                    proof {
                        assert(spec_components(before.0, before.1, offset as int).map_values(f)
                            =~= Seq::<Span>::empty());
                        assert(out@.map_values(g) =~= out@.map_values(g) + Seq::<Span>::empty());
                    }
                    break ;
                },
            }
        }
        out
    }

    fn last_component(path: &[u8]) -> (res: Option<(ComponentKind, usize, usize, usize)>) {
        match Parser::new(path).last_component() {
            None => None,
            Some((c, a, b, e)) => Some((c.kind(), a, b, e)),
        }
    }
}

impl UnixEncoding {
    /// Produces an iterator over the components of `path`
    pub fn components<'a>(path: &'a [u8]) -> (res: UnixComponents<'a>)
        ensures
            res@ == (path@, State::AtBeginning),
    {
        UnixComponents::new(path)
    }
}

impl<'a, T: Encoding> Path<'a, T> {
    /// Returns true if the encoding of the path is the Unix one
    pub fn has_unix_encoding(&self) -> (res: bool)
        ensures
            res == (T::spec_label() == UnixEncoding::spec_label()),
    {
        str_eq(T::label(), UnixEncoding::label())
    }

    /// Creates an owned path like `self` but in the Unix encoding; see [`Path::with_encoding`]
    pub fn with_unix_encoding(&self) -> (res: PathBuf<UnixEncoding>)
        ensures
            res@ == spec_path_with_encoding::<T, UnixEncoding>(self@),
    {
        self.with_encoding::<UnixEncoding>()
    }
}

} // verus!
