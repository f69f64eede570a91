//! The bytes by which a Unix path is hashed, so that paths with the same components hash alike.
use vstd::prelude::*;
use vstd::slice::slice_subrange;

use crate::constants::{DOT_BYTE, NUL_BYTE, UNIX_SEPARATOR_BYTE};
use crate::parser::{lemma_run_len, lemma_run_len_bounds, run_len};
use crate::common::encoding::Encoding;
use crate::common::path::{matches_from, spec_same_components};
use crate::unix::component::UnixComponentView;
use crate::unix::encoding::{unix_spans, UnixEncoding};
use crate::unix::parser::{
    cur_dir_at, disallowed_fn, ends_component, is_sep, lemma_front_wf, lemma_skip_from_bounds,
    not_sep_fn, skip_from, spec_components, spec_cur_dir, spec_front, spec_front_parsed, spec_parent_dir,
    State,
};

verus! {

/// Predicate that stops a scan at a separator
pub open spec fn sep_stop() -> spec_fn(u8) -> bool {
    |b: u8| is_sep(b)
}

/// The pieces of `s` between separators that are fed to a hasher, in order: every non-empty
/// piece except a `.` that is not the first piece, which the components leave out too
pub open spec fn hashed_pieces(s: Seq<u8>, first: bool) -> Seq<Seq<u8>>
    decreases s.len(),
{
    let n = run_len(s, sep_stop()) as int;
    let piece = s.take(n);
    let head = if n > 0 && !(!first && piece == seq![DOT_BYTE]) {
        seq![piece]
    } else {
        Seq::empty()
    };
    if n >= s.len() {
        head
    } else {
        head + hashed_pieces(s.skip(n + 1), false)
    }
}

/// Total length of some pieces
pub open spec fn total_len(ps: Seq<Seq<u8>>) -> int
    decreases ps.len(),
{
    if ps.len() == 0 {
        0
    } else {
        total_len(ps.drop_last()) + ps.last().len()
    }
}

/// The contents of byte slices
pub open spec fn slice_views(v: Seq<&[u8]>) -> Seq<Seq<u8>> {
    v.map_values(|p: &[u8]| p@)
}

/// `s` holds no NUL byte
pub open spec fn no_nul(s: Seq<u8>) -> bool {
    forall|i: int| 0 <= i < s.len() ==> s[i] != NUL_BYTE
}

/// The bytes of some components
pub open spec fn comp_bytes(cs: Seq<(UnixComponentView, int, int)>) -> Seq<Seq<u8>> {
    cs.map_values(|c: (UnixComponentView, int, int)| c.0.bytes())
}

/// The components of a path but a leading root directory
pub open spec fn without_root(cs: Seq<(UnixComponentView, int, int)>) -> Seq<
    (UnixComponentView, int, int),
> {
    if cs.len() > 0 && cs[0].0 is RootDir {
        cs.drop_first()
    } else {
        cs
    }
}

/// A separator adds no piece
proof fn lemma_hash_skip_sep(s: Seq<u8>, i: int)
    requires
        0 <= i < s.len(),
        is_sep(s[i]),
    ensures
        hashed_pieces(s.skip(i), false) == hashed_pieces(s.skip(i + 1), false),
{
    let t = s.skip(i);
    lemma_run_len(t, sep_stop(), 0);
    assert(t.skip(1) =~= s.skip(i + 1));
    assert(hashed_pieces(t, false) == Seq::<Seq<u8>>::empty() + hashed_pieces(t.skip(1), false));
    assert(Seq::<Seq<u8>>::empty() + hashed_pieces(t.skip(1), false) =~= hashed_pieces(t.skip(1), false));
}

/// Separators add no pieces
proof fn lemma_hash_skip_seps(s: Seq<u8>, i: int, k: int)
    requires
        0 <= i,
        0 <= k,
        i + k <= s.len(),
        forall|j: int| i <= j < i + k ==> is_sep(#[trigger] s[j]),
    ensures
        hashed_pieces(s.skip(i), false) == hashed_pieces(s.skip(i + k), false),
    decreases k,
{
    if k > 0 {
        lemma_hash_skip_sep(s, i);
        lemma_hash_skip_seps(s, i + 1, k - 1);
    }
}

/// A `.` component after the first adds no piece
proof fn lemma_hash_skip_dot(s: Seq<u8>, i: int)
    requires
        cur_dir_at(s, i),
    ensures
        hashed_pieces(s.skip(i), false) == hashed_pieces(s.skip(i + 1), false),
{
    let t = s.skip(i);
    lemma_run_len(t, sep_stop(), 1);
    assert(t.take(1) =~= seq![DOT_BYTE]);
    if i + 1 < s.len() {
        lemma_hash_skip_sep(s, i + 1);
        assert(t.skip(2) =~= s.skip(i + 2));
        assert(hashed_pieces(t, false) == Seq::<Seq<u8>>::empty() + hashed_pieces(t.skip(2), false));
        assert(Seq::<Seq<u8>>::empty() + hashed_pieces(t.skip(2), false) =~= hashed_pieces(t.skip(2), false));
    } else {
        let e = s.skip(i + 1);
        assert(e.len() == 0);
        lemma_run_len(e, sep_stop(), 0);
        assert(hashed_pieces(e, false) =~= Seq::<Seq<u8>>::empty());
        assert(hashed_pieces(t, false) =~= Seq::<Seq<u8>>::empty());
    }
}

/// Skipping separators and `.` components adds no pieces, and stops at neither
proof fn lemma_hash_skip_from(s: Seq<u8>, i: int)
    requires
        0 <= i <= s.len(),
    ensures
        hashed_pieces(s.skip(i), false) == hashed_pieces(s.skip(skip_from(s, i)), false),
        skip_from(s, i) < s.len() ==> !is_sep(s[skip_from(s, i)]) && !cur_dir_at(s, skip_from(s, i)),
    decreases s.len() - i,
{
    if 0 <= i < s.len() && (is_sep(s[i]) || cur_dir_at(s, i)) {
        if is_sep(s[i]) {
            lemma_hash_skip_sep(s, i);
        } else {
            lemma_hash_skip_dot(s, i);
        }
        lemma_hash_skip_from(s, i + 1);
    }
}

/// When the first piece of `t` is the `len` bytes of a component other than a `.` after the
/// first piece, hashing `t` gives those bytes and then the pieces after the separator that
/// follows them
proof fn lemma_step_piece(t: Seq<u8>, first: bool, bytes: Seq<u8>, len: int)
    requires
        0 < len <= t.len(),
        run_len(t, sep_stop()) == len,
        bytes == t.take(len),
        !first ==> bytes != seq![DOT_BYTE],
    ensures
        hashed_pieces(t, first) == seq![bytes] + (if len == t.len() {
            Seq::<Seq<u8>>::empty()
        } else {
            hashed_pieces(t.skip(len + 1), false)
        }),
{
    if len == t.len() {
        assert(seq![bytes] + Seq::<Seq<u8>>::empty() =~= seq![bytes]);
    }
}

/// The component that follows the first piece of `t` and what parsing it consumes: the pieces of
/// what is left after it are those after the separator that follows the piece
proof fn lemma_hash_after_piece(t: Seq<u8>, len: int, seps: int)
    requires
        0 < len <= t.len(),
        len < t.len() ==> is_sep(t[len]),
        seps == run_len(t.skip(len), not_sep_fn()),
    ensures
        len + seps <= t.len(),
        len < t.len() ==> seps >= 1 && hashed_pieces(t.skip(len + 1), false) == hashed_pieces(
            t.skip(len + seps),
            false,
        ),
        len == t.len() ==> seps == 0,
{
    let rest = t.skip(len);
    lemma_run_len_bounds(rest, not_sep_fn());
    if len < t.len() {
        assert(rest[0] == t[len]);
        assert forall|j: int| len + 1 <= j < len + seps implies is_sep(#[trigger] t[j]) by {
            assert(rest[j - len] == t[j]);
            assert(!(not_sep_fn())(rest[j - len]));
        }
        lemma_hash_skip_seps(t, len + 1, seps - 1);
    } else {
        lemma_run_len(rest, not_sep_fn(), 0);
    }
}

/// Length of the component at the start of `t` after the first: `..`, or a name up to the next
/// separator
pub open spec fn later_len(t: Seq<u8>) -> int {
    if spec_parent_dir(t) is Some {
        2
    } else {
        run_len(t, sep_stop()) as int
    }
}

/// A parsing step after the first component, in a path without NUL bytes whose separators and
/// `.` components before the next component leave something: it finds the first piece of what
/// is left, which is no `.`
proof fn lemma_later_step(s: Seq<u8>)
    requires
        no_nul(s),
        skip_from(s, 0) < s.len(),
        !is_sep(s[skip_from(s, 0)]),
        !cur_dir_at(s, skip_from(s, 0)),
    ensures
        ({
            let skip = skip_from(s, 0);
            let t = s.skip(skip);
            let len = later_len(t);
            let seps = run_len(t.skip(len), not_sep_fn()) as int;
            let c = spec_front_parsed(s, State::NotAtBeginning).unwrap().1;
            &&& 0 < len <= t.len()
            &&& run_len(t, sep_stop()) == len
            &&& len < t.len() ==> is_sep(t[len])
            &&& spec_front(s, State::NotAtBeginning) == Some((c, skip, skip + len, skip + len + seps))
            &&& c.bytes() == t.take(len)
            &&& c.bytes() != seq![DOT_BYTE]
        }),
{
    lemma_skip_from_bounds(s, 0);
    let skip = skip_from(s, 0);
    let t = s.skip(skip);
    assert(t[0] == s[skip]);
    lemma_run_len_bounds(t, sep_stop());
    let n = run_len(t, sep_stop()) as int;
    assert forall|j: int| 0 <= j < n implies !(disallowed_fn())(#[trigger] t[j]) by {
        assert(!(sep_stop())(t[j]));
        assert(t[j] == s[skip + j]);
    }
    if n < t.len() {
        assert((sep_stop())(t[n]));
    }
    lemma_run_len(t, disallowed_fn(), n);
    assert(n > 0) by {
        if n == 0 {
            assert((sep_stop())(t[0]));
        }
    }
    let len = later_len(t);
    if spec_parent_dir(t) is Some {
        lemma_run_len(t, sep_stop(), 2);
    }
    let c = spec_front_parsed(s, State::NotAtBeginning).unwrap().1;
    assert(c.bytes() =~= t.take(len));
    if c.bytes() == seq![DOT_BYTE] {
        assert(t.take(len)[0] == t[0]);
        assert(len == 1);
        if 1 < t.len() {
            assert(t[1] == s[skip + 1]);
        }
        assert(cur_dir_at(s, skip));
    }
}

/// After the first component, a path without NUL bytes is hashed by the bytes of its components
proof fn lemma_hash_later(s: Seq<u8>, base: int)
    requires
        no_nul(s),
    ensures
        hashed_pieces(s, false) == comp_bytes(spec_components(s, State::NotAtBeginning, base)),
    decreases s.len(),
{
    lemma_front_wf(s, State::NotAtBeginning);
    lemma_skip_from_bounds(s, 0);
    assert(s.skip(0) =~= s);
    lemma_hash_skip_from(s, 0);
    let skip = skip_from(s, 0);
    let t = s.skip(skip);
    if t.len() == 0 {
        lemma_run_len(t, sep_stop(), 0);
        lemma_run_len(t, disallowed_fn(), 0);
        assert(hashed_pieces(t, false) =~= Seq::<Seq<u8>>::empty());
        assert(spec_front(s, State::NotAtBeginning) is None);
        assert(comp_bytes(spec_components(s, State::NotAtBeginning, base)) =~= Seq::<Seq<u8>>::empty());
    } else {
        lemma_later_step(s);
        let len = later_len(t);
        let seps = run_len(t.skip(len), not_sep_fn()) as int;
        let c = spec_front_parsed(s, State::NotAtBeginning).unwrap().1;
        lemma_hash_after_piece(t, len, seps);
        lemma_step_piece(t, false, c.bytes(), len);
        let m = skip + len + seps;
        assert(t.skip(len + seps) =~= s.skip(m));
        assert(no_nul(s.skip(m))) by {
            assert forall|i: int| 0 <= i < s.skip(m).len() implies s.skip(m)[i] != NUL_BYTE by {
                assert(s.skip(m)[i] == s[m + i]);
            }
        }
        lemma_hash_later(s.skip(m), base + m);
        let later = spec_components(s.skip(m), State::NotAtBeginning, base + m);
        let comps = spec_components(s, State::NotAtBeginning, base);
        assert(comps == seq![(c, base + skip, base + skip + len)] + later);
        assert(comp_bytes(comps) =~= seq![c.bytes()] + comp_bytes(later));
        if len == t.len() {
            lemma_front_wf(s.skip(m), State::NotAtBeginning);
            lemma_skip_from_bounds(s.skip(m), 0);
            assert(spec_front(s.skip(m), State::NotAtBeginning) is None);
            assert(later =~= Seq::<(UnixComponentView, int, int)>::empty());
        }
    }
}

/// The first parsing step of a path without NUL bytes that does not start with a separator: it
/// finds the first piece of the path
proof fn lemma_first_step(s: Seq<u8>)
    requires
        no_nul(s),
        s.len() > 0,
        !is_sep(s[0]),
    ensures
        ({
            let len = run_len(s, sep_stop()) as int;
            let seps = run_len(s.skip(len), not_sep_fn()) as int;
            let c = spec_front_parsed(s, State::AtBeginning).unwrap().1;
            &&& 0 < len <= s.len()
            &&& len < s.len() ==> is_sep(s[len])
            &&& spec_front(s, State::AtBeginning) == Some((c, 0int, len, len + seps))
            &&& c.bytes() == s.take(len)
        }),
{
    assert(s.skip(0) =~= s);
    lemma_run_len_bounds(s, sep_stop());
    let n = run_len(s, sep_stop()) as int;
    assert forall|j: int| 0 <= j < n implies !(disallowed_fn())(#[trigger] s[j]) by {
        assert(!(sep_stop())(s[j]));
    }
    if n < s.len() {
        assert((sep_stop())(s[n]));
    }
    lemma_run_len(s, disallowed_fn(), n);
    assert(n > 0) by {
        if n == 0 {
            assert((sep_stop())(s[0]));
        }
    }
    if spec_parent_dir(s) is Some {
        lemma_run_len(s, sep_stop(), 2);
    } else if spec_cur_dir(s) is Some {
        lemma_run_len(s, sep_stop(), 1);
    }
    let c = spec_front_parsed(s, State::AtBeginning).unwrap().1;
    assert(c.bytes() =~= s.take(n));
}

/// A Unix path without NUL bytes is hashed by the bytes of its components, its root directory
/// left out, so that paths with the same components hash alike
pub proof fn law_hash_follows_components(path: Seq<u8>)
    requires
        no_nul(path),
    ensures
        hashed_pieces(path, true) == comp_bytes(
            without_root(spec_components(path, State::AtBeginning, 0)),
        ),
{
    lemma_front_wf(path, State::AtBeginning);
    let comps = spec_components(path, State::AtBeginning, 0);
    if path.len() == 0 {
        lemma_run_len(path, sep_stop(), 0);
        assert(hashed_pieces(path, true) =~= Seq::<Seq<u8>>::empty());
        assert(path.skip(0) =~= path);
        lemma_run_len(path, disallowed_fn(), 0);
        assert(spec_front(path, State::AtBeginning) is None);
        assert(comp_bytes(without_root(comps)) =~= Seq::<Seq<u8>>::empty());
    } else if is_sep(path[0]) {
        assert(path.skip(0) =~= path);
        lemma_run_len(path, sep_stop(), 0);
        let rest = path.skip(1);
        let seps = run_len(rest, not_sep_fn()) as int;
        lemma_run_len_bounds(rest, not_sep_fn());
        assert forall|j: int| 1 <= j < 1 + seps implies is_sep(#[trigger] path[j]) by {
            assert(rest[j - 1] == path[j]);
            assert(!(not_sep_fn())(rest[j - 1]));
        }
        lemma_hash_skip_seps(path, 1, seps);
        let m = 1 + seps;
        assert(no_nul(path.skip(m))) by {
            assert forall|i: int| 0 <= i < path.skip(m).len() implies path.skip(m)[i] != NUL_BYTE by {
                assert(path.skip(m)[i] == path[m + i]);
            }
        }
        lemma_hash_later(path.skip(m), m);
        let later = spec_components(path.skip(m), State::NotAtBeginning, m);
        assert(comps == seq![(UnixComponentView::RootDir, 0int, 1int)] + later);
        assert(without_root(comps) =~= later);
        assert(hashed_pieces(path, true) == Seq::<Seq<u8>>::empty() + hashed_pieces(path.skip(1), false));
        assert(Seq::<Seq<u8>>::empty() + hashed_pieces(path.skip(1), false) =~= hashed_pieces(path.skip(1), false));
    } else {
        lemma_first_step(path);
        let len = run_len(path, sep_stop()) as int;
        let seps = run_len(path.skip(len), not_sep_fn()) as int;
        let c = spec_front_parsed(path, State::AtBeginning).unwrap().1;
        lemma_hash_after_piece(path, len, seps);
        lemma_step_piece(path, true, c.bytes(), len);
        let m = len + seps;
        assert(no_nul(path.skip(m))) by {
            assert forall|i: int| 0 <= i < path.skip(m).len() implies path.skip(m)[i] != NUL_BYTE by {
                assert(path.skip(m)[i] == path[m + i]);
            }
        }
        lemma_hash_later(path.skip(m), m);
        let later = spec_components(path.skip(m), State::NotAtBeginning, m);
        assert(comps == seq![(c, 0int, len)] + later);
        assert(!(c is RootDir));
        assert(without_root(comps) == comps);
        assert(comp_bytes(comps) =~= seq![c.bytes()] + comp_bytes(later));
        if len == path.len() {
            lemma_front_wf(path.skip(m), State::NotAtBeginning);
            lemma_skip_from_bounds(path.skip(m), 0);
            assert(spec_front(path.skip(m), State::NotAtBeginning) is None);
            assert(later =~= Seq::<(UnixComponentView, int, int)>::empty());
        }
    }
}

/// Unix paths without NUL bytes whose components are the same are hashed alike
pub proof fn law_same_components_hash_alike(p: Seq<u8>, q: Seq<u8>)
    requires
        no_nul(p),
        no_nul(q),
        spec_components(p, State::AtBeginning, 0).map_values(
            |c: (UnixComponentView, int, int)| c.0,
        ) == spec_components(q, State::AtBeginning, 0).map_values(
            |c: (UnixComponentView, int, int)| c.0,
        ),
    ensures
        hashed_pieces(p, true) == hashed_pieces(q, true),
{
    law_hash_follows_components(p);
    law_hash_follows_components(q);
    let cp = spec_components(p, State::AtBeginning, 0);
    let cq = spec_components(q, State::AtBeginning, 0);
    let f = |c: (UnixComponentView, int, int)| c.0;
    assert(cp.len() == cq.len()) by {
        assert(cp.map_values(f).len() == cq.map_values(f).len());
    }
    assert forall|i: int| 0 <= i < cp.len() implies cp[i].0 == cq[i].0 by {
        assert(cp.map_values(f)[i] == cq.map_values(f)[i]);
    }
    assert(comp_bytes(without_root(cp)) =~= comp_bytes(without_root(cq)));
}

/// A parsing step finds a component that stands for the bytes it covers
proof fn lemma_front_bytes(s: Seq<u8>, state: State)
    ensures
        spec_front(s, state) matches Some((c, a, b, n)) ==> c.bytes() == s.subrange(a, b),
{
    lemma_front_wf(s, state);
    lemma_skip_from_bounds(s, 0);
    if let Some((c, a, b, n)) = spec_front(s, state) {
        let t = s.skip(a);
        lemma_run_len_bounds(t, disallowed_fn());
        let rest = spec_front_parsed(s, state).unwrap().0;
        assert(s.subrange(a, b) =~= t.take(b - a));
        assert(b - a == t.len() - rest.len());
        if c is RootDir || c is CurDir {
            assert(t.take(b - a) =~= seq![t[0]]);
        } else if c is ParentDir {
            assert(t.take(b - a) =~= seq![t[0], t[1]]);
        }
    }
}

/// Every component found from `base` on stands for the bytes of `p` that it covers
pub(crate) proof fn lemma_components_bytes(p: Seq<u8>, state: State, base: int)
    requires
        0 <= base <= p.len(),
    ensures
        ({
            let comps = spec_components(p.skip(base), state, base);
            forall|i: int|
                0 <= i < comps.len() ==> (#[trigger] comps[i]).0.bytes() == p.subrange(
                    comps[i].1,
                    comps[i].2,
                )
        }),
    decreases p.len() - base,
{
    let s = p.skip(base);
    lemma_front_wf(s, state);
    lemma_front_bytes(s, state);
    if let Some((c, a, b, n)) = spec_front(s, state) {
        if 0 < n <= s.len() {
            assert(s.skip(n) =~= p.skip(base + n));
            assert(s.subrange(a, b) =~= p.subrange(base + a, base + b));
            lemma_components_bytes(p, State::NotAtBeginning, base + n);
            let comps = spec_components(s, state, base);
            let rest = spec_components(s.skip(n), State::NotAtBeginning, base + n);
            assert(comps == seq![(c, base + a, base + b)] + rest);
            assert forall|i: int| 0 <= i < comps.len() implies (#[trigger] comps[i]).0.bytes()
                == p.subrange(comps[i].1, comps[i].2) by {
                if i > 0 {
                    assert(comps[i] == rest[i - 1]);
                }
            }
        }
    }
}

/// Unix paths without NUL bytes that are equal, having the same components, are hashed alike
pub proof fn law_equal_paths_hash_alike(p: Seq<u8>, q: Seq<u8>)
    requires
        no_nul(p),
        no_nul(q),
        spec_same_components::<UnixEncoding>(p, q),
    ensures
        hashed_pieces(p, true) == hashed_pieces(q, true),
{
    assert(p.skip(0) =~= p);
    assert(q.skip(0) =~= q);
    lemma_components_bytes(p, State::AtBeginning, 0);
    lemma_components_bytes(q, State::AtBeginning, 0);
    let cp = spec_components(p, State::AtBeginning, 0);
    let cq = spec_components(q, State::AtBeginning, 0);
    let sp = unix_spans(p);
    let sq = unix_spans(q);
    let f = |c: (UnixComponentView, int, int)| c.0;
    assert forall|i: int| 0 <= i < cp.len() implies cp.map_values(f)[i] == cq.map_values(f)[i] by {
        assert(matches_from::<UnixEncoding>(p, q, 0, i));
        assert(sp[i] == (cp[i].0.kind(), cp[i].1, cp[i].2));
        assert(sq[i] == (cq[i].0.kind(), cq[i].1, cq[i].2));
        let (v, w) = (cp[i].0, cq[i].0);
        assert(v.kind() == w.kind() && v.bytes() == w.bytes());
    }
    assert(cp.map_values(f) =~= cq.map_values(f));
    law_same_components_hash_alike(p, q);
}

/// The pieces of a Unix path that hashing it feeds to a hasher, and their total length, which
/// is fed last
pub fn hash_pieces(path: &[u8]) -> (res: (Vec<&[u8]>, usize))
    ensures
        slice_views(res.0@) == hashed_pieces(path@, true),
        res.1 == total_len(hashed_pieces(path@, true)),
{
    let mut out: Vec<&[u8]> = Vec::new();
    let mut total: usize = 0;
    let mut start: usize = 0;
    let mut first = true;
    proof {
        assert(path@.skip(0) =~= path@);
        assert(slice_views(out@) + hashed_pieces(path@, true) =~= hashed_pieces(path@, true));
    }
    loop
        invariant_except_break
            start <= path@.len(),
            slice_views(out@) + hashed_pieces(path@.skip(start as int), first) == hashed_pieces(
                path@,
                true,
            ),
            total == total_len(slice_views(out@)),
            total <= start,
        ensures
            slice_views(out@) == hashed_pieces(path@, true),
            total == total_len(slice_views(out@)),
        decreases path@.len() - start,
    {
        let ghost t = path@.skip(start as int);
        let mut end = start;
        while end < path.len() && path[end] != UNIX_SEPARATOR_BYTE
            invariant
                start <= end <= path@.len(),
                t == path@.skip(start as int),
                forall|j: int| 0 <= j < end - start ==> !(sep_stop())(#[trigger] t[j]),
            decreases path@.len() - end,
        {
            end = end + 1;
        }
        proof {
            lemma_run_len(t, sep_stop(), end - start);
        }
        let n = end - start;
        let piece = slice_subrange(path, start, end);
        let is_dot = n == 1 && path[start] == DOT_BYTE;
        let ghost before = out@;
        proof {
            assert(piece@ == t.take(n as int));
            assert(is_dot == (t.take(n as int) == seq![DOT_BYTE])) by {
                if n == 1 {
                    assert(t.take(1)[0] == path@[start as int]);
                    if path@[start as int] == DOT_BYTE {
                        assert(t.take(1) =~= seq![DOT_BYTE]);
                    }
                } else {
                    assert(t.take(n as int).len() != seq![DOT_BYTE].len());
                }
            }
        }
        let keep = n > 0 && !(!first && is_dot);
        if keep {
            out.push(piece);
            total = total + n;
            proof {
                assert(slice_views(out@).drop_last() =~= slice_views(before));
            }
        }
        let ghost head = if keep {
            seq![t.take(n as int)]
        } else {
            Seq::<Seq<u8>>::empty()
        };
        proof {
            assert(slice_views(out@) =~= slice_views(before) + head);
        }
        if end >= path.len() {
            proof {
                assert(hashed_pieces(t, first) == head);
            }
            break;
        }
        proof {
            assert(t.skip(n + 1) =~= path@.skip(end + 1));
            assert(hashed_pieces(t, first) == head + hashed_pieces(t.skip(n + 1), false));
            assert(slice_views(out@) + hashed_pieces(path@.skip(end + 1), false) =~= slice_views(
                before,
            ) + (head + hashed_pieces(t.skip(n + 1), false)));
        }
        start = end + 1;
        first = false;
    }
    (out, total)
}

} // verus!
