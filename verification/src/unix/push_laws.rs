//! Laws of pushing parts onto a Unix path, and what normalizing gives.
use vstd::prelude::*;

use crate::parser::{lemma_run_len, lemma_run_len_bounds, run_len};
use crate::common::components::ComponentKind;
use crate::common::normalize::{kept, law_kept_has_no_cur_dir, parts, push_all, spec_normalize};
use crate::constants::{DOT_BYTE, UNIX_SEPARATOR_BYTE};
use crate::unix::component::UnixComponentView;
use crate::common::encoding::Encoding;
use crate::unix::encoding::{lemma_unix_has_root, unix_push, unix_spans, UnixEncoding};
use crate::unix::hash::lemma_components_bytes;
use crate::unix::extension_laws::{
    lemma_front_agree, lemma_parsed_agree, lemma_parsed_rest, lemma_skip_from_passes,
    lemma_components_names_valid, lemma_skip_from_reaches, parsed_at, valid_name,
};
use crate::unix::laws::{
    law_trailing_separator_ignored, lemma_no_components_after_end, lemma_skip_from_stops,
};
use crate::unix::parser::{
    cur_dir_at, disallowed_fn, ends_component, is_disallowed, is_sep, lemma_front_wf,
    lemma_skip_from_bounds, not_sep_fn, skip_from, spec_components, spec_front, State,
};

verus! {

/// `w` can be pushed as one part of a path: a name or `..`, not empty, without a separator or
/// a nul byte, and not `.`
pub open spec fn single_part(w: Seq<u8>) -> bool {
    &&& w.len() > 0
    &&& forall|i: int| 0 <= i < w.len() ==> !is_disallowed(#[trigger] w[i])
    &&& !(w.len() == 1 && w[0] == 46)
}

/// The component that a single part reads as
pub open spec fn part_view(w: Seq<u8>) -> UnixComponentView {
    if w.len() == 2 && w[0] == 46 && w[1] == 46 {
        UnixComponentView::ParentDir
    } else {
        UnixComponentView::Normal(w)
    }
}

/// A single part read on its own, with nothing to skip before it, is one component
proof fn lemma_components_of_part(w: Seq<u8>, state: State, base: int)
    requires
        single_part(w),
    ensures
        spec_components(w, state, base) == seq![(part_view(w), base, base + w.len())],
{
    assert(!is_disallowed(w[0]));
    if w.len() > 1 {
        assert(!is_disallowed(w[1]));
    }
    if w.len() > 2 {
        assert(!is_disallowed(w[2]));
    }
    assert forall|j: int| 0 <= j < w.len() implies !(disallowed_fn())(#[trigger] w[j]) by {
        assert(!is_disallowed(w[j]));
    }
    lemma_run_len(w, disallowed_fn(), w.len() as int);
    assert(w.take(w.len() as int) =~= w);
    assert(skip_from(w, 0) == 0);
    assert(w.skip(0) =~= w);
    let e = w.skip(w.len() as int);
    assert(e =~= Seq::<u8>::empty());
    assert(run_len(e, not_sep_fn()) == 0);
    assert(spec_front(w, state) == Some((part_view(w), 0int, w.len() as int, w.len() as int)));
    lemma_no_components_after_end(base + w.len());
    assert(spec_components(w, state, base) =~= seq![(part_view(w), base, base + w.len())]);
}

/// No byte of `s` is a nul byte
pub open spec fn no_nul(s: Seq<u8>) -> bool {
    forall|i: int| 0 <= i < s.len() ==> #[trigger] s[i] != 0
}

/// On input that ends with a separator and holds no nul byte, a parsing step finds a component
/// unless nothing but separators and `.` components is left past the beginning; the component
/// ends before the input does unless it is the root directory
proof fn lemma_step_on_sep_ended(s: Seq<u8>, state: State)
    requires
        s.len() > 0,
        is_sep(s.last()),
        no_nul(s),
    ensures
        spec_front(s, state) is None ==> state == State::NotAtBeginning && skip_from(s, 0)
            == s.len(),
        spec_front(s, state) matches Some((c, a, b, n)) ==> (c is RootDir || b < s.len()) && (
        state == State::NotAtBeginning ==> a + 1 < s.len()) && (state == State::AtBeginning
            ==> a == 0),
{
    lemma_front_wf(s, state);
    lemma_skip_from_bounds(s, 0);
    lemma_skip_from_stops(s, 0);
    assert(s.last() == s[s.len() - 1]);
    let skip = if state == State::AtBeginning { 0 } else { skip_from(s, 0) };
    let t = s.skip(skip);
    lemma_run_len_bounds(t, disallowed_fn());
    if skip < s.len() {
        assert(t[0] == s[skip]);
        assert(s[skip] != 0);
        if t.len() > 1 {
            assert(t[1] == s[skip + 1]);
        }
        if t.len() > 2 {
            assert(t[2] == s[skip + 2]);
        }
        assert(t[t.len() - 1] == s.last());
        let l = run_len(t, disallowed_fn()) as int;
        if !is_sep(t[0]) {
            assert(!(disallowed_fn())(t[0]));
            assert(l >= 1) by {
                assert(t.len() > 0 && !(disallowed_fn())(t[0]));
            }
            assert(l < t.len()) by {
                if l == t.len() {
                    assert(!(disallowed_fn())(t[t.len() - 1]));
                }
            }
            assert(t[l] == s[skip + l]);
            assert(s[skip + l] != 0);
        }
    }
    if let Some((c, a, b, n)) = spec_front(s, state) {
        if !(c is RootDir) && b == s.len() {
            assert(t[t.len() - 1] == s.last());
            if let UnixComponentView::Normal(v) = c {
                assert(!(disallowed_fn())(t[b - a - 1]));
            }
        }
    }
}

/// With nothing but separators and `.` components past the beginning, a single part that follows
/// is the one component read
proof fn lemma_append_after_nothing(s: Seq<u8>, w: Seq<u8>, state: State, base: int)
    requires
        single_part(w),
        s.len() == 0 || is_sep(s.last()),
        no_nul(s),
        spec_front(s, state) is None,
    ensures
        spec_components(s, state, base) == Seq::<(UnixComponentView, int, int)>::empty(),
        spec_components(s + w, state, base) == seq![
            (part_view(w), base + s.len(), base + s.len() + w.len()),
        ],
{
    let x = s + w;
    assert(!is_disallowed(w[0]));
    if w.len() > 1 {
        assert(!is_disallowed(w[1]));
    }
    if s.len() == 0 {
        assert(x =~= w);
        lemma_components_of_part(w, state, base);
    } else {
        lemma_step_on_sep_ended(s, state);
        let k = s.len() as int;
        lemma_skip_from_passes(s, 0);
        assert(s.last() == s[k - 1]);
        assert forall|j: int| 0 <= j < k implies is_sep(#[trigger] x[j]) || cur_dir_at(x, j) by {
            assert(x[j] == s[j]);
            assert(is_sep(s[j]) || cur_dir_at(s, j));
            if j + 1 < k {
                assert(x[j + 1] == s[j + 1]);
            }
        }
        assert(x[k] == w[0]);
        if w.len() > 1 {
            assert(x[k + 1] == w[1]);
        }
        lemma_skip_from_reaches(x, 0, k);
        assert(x.skip(k) =~= w);
        assert forall|j: int| 0 <= j < w.len() implies !(disallowed_fn())(#[trigger] w[j]) by {
            assert(!is_disallowed(w[j]));
        }
        lemma_run_len(w, disallowed_fn(), w.len() as int);
        assert(w.take(w.len() as int) =~= w);
        let e = w.skip(w.len() as int);
        assert(e =~= Seq::<u8>::empty());
        assert(run_len(e, not_sep_fn()) == 0);
        if w.len() > 2 {
            assert(!is_disallowed(w[2]));
        }
        assert(spec_front(x, state) == Some(
            (part_view(w), k, k + w.len(), k + w.len()),
        ));
        assert(x.skip(k + w.len()) =~= Seq::<u8>::empty());
        lemma_no_components_after_end(base + k + w.len());
        assert(spec_components(x, state, base) =~= seq![
            (part_view(w), base + s.len(), base + s.len() + w.len()),
        ]);
    }
}

/// The last step on input that ends with a separator, where the step consumes all of it, is
/// taken the same when a single part follows
proof fn lemma_last_step_append(s: Seq<u8>, w: Seq<u8>, state: State)
    requires
        single_part(w),
        s.len() > 0,
        is_sep(s.last()),
        no_nul(s),
        spec_front(s, state) matches Some((_, _, _, n)) && n == s.len(),
    ensures
        spec_front(s + w, state) == spec_front(s, state),
{
    lemma_front_wf(s, state);
    lemma_step_on_sep_ended(s, state);
    let x = s + w;
    let (c, a, b, n) = spec_front(s, state).unwrap();
    assert(s.last() == s[s.len() - 1]);
    assert forall|j: int| 0 <= j < s.len() implies s[j] == x[j] by {}
    assert(x[s.len() as int] == w[0]);
    assert(!is_disallowed(w[0]));
    lemma_skip_from_bounds(s, 0);
    if state == State::NotAtBeginning {
        lemma_skip_from_passes(s, 0);
        lemma_skip_from_stops(s, 0);
        assert forall|j: int| 0 <= j < a implies is_sep(#[trigger] x[j]) || cur_dir_at(x, j) by {
            assert(is_sep(s[j]) || cur_dir_at(s, j));
            assert(x[j + 1] == s[j + 1]);
        }
        assert(x[a + 1] == s[a + 1]);
        lemma_skip_from_reaches(x, 0, a);
    }
    let t = s.skip(a);
    let tx = x.skip(a);
    let (rest, c1) = parsed_at(t, state).unwrap();
    lemma_parsed_rest(t, state);
    let len = t.len() - rest.len();
    assert(len == b - a);
    let p = if c is RootDir { 1int } else { len + 1 };
    assert forall|j: int| 0 <= j < p implies t[j] == tx[j] by {
        assert(t[j] == s[a + j]);
        assert(tx[j] == x[a + j]);
    }
    lemma_parsed_agree(t, tx, p, state);
    let rx = tx.skip(len);
    lemma_run_len_bounds(rest, not_sep_fn());
    assert(run_len(rest, not_sep_fn()) == n - b);
    assert forall|j: int| 0 <= j < n - b implies !(not_sep_fn())(#[trigger] rx[j]) by {
        assert(rest[j] == s[b + j]);
        assert(rx[j] == x[b + j]);
        assert(!(not_sep_fn())(rest[j]));
    }
    assert(rx[n - b] == w[0]);
    lemma_run_len(rx, not_sep_fn(), n - b);
}

/// Pushing a single part after input that is empty or ends with a separator, and holds no nul
/// byte, adds that part as one more component and leaves the components before it as they were
pub proof fn lemma_components_append_part(s: Seq<u8>, w: Seq<u8>, state: State, base: int)
    requires
        single_part(w),
        s.len() == 0 || is_sep(s.last()),
        no_nul(s),
    ensures
        spec_components(s + w, state, base) == spec_components(s, state, base).push(
            (part_view(w), base + s.len(), base + s.len() + w.len()),
        ),
    decreases s.len(),
{
    let x = s + w;
    let new = (part_view(w), base + s.len(), base + s.len() + w.len());
    if spec_front(s, state) is None {
        lemma_append_after_nothing(s, w, state, base);
        assert(Seq::<(UnixComponentView, int, int)>::empty().push(new) =~= seq![new]);
    } else {
        lemma_front_wf(s, state);
        let (c, a, b, n) = spec_front(s, state).unwrap();
        let comps = spec_components(s, state, base);
        assert(comps == seq![(c, base + a, base + b)] + spec_components(
            s.skip(n),
            State::NotAtBeginning,
            base + n,
        ));
        if n < s.len() {
            let t = s.skip(a);
            let (rest, c1) = parsed_at(t, state).unwrap();
            lemma_parsed_rest(t, state);
            lemma_run_len_bounds(rest, not_sep_fn());
            assert(rest[n - b] == s[n]);
            assert(x[n] == s[n]);
            assert(x.take(n) =~= s.take(n));
            lemma_front_agree(s, x, n, state);
            let s2 = s.skip(n);
            assert(x.skip(n) =~= s2 + w);
            assert(s2.last() == s.last());
            lemma_components_append_part(s2, w, State::NotAtBeginning, base + n);
            assert(spec_components(x, state, base) == seq![(c, base + a, base + b)]
                + spec_components(x.skip(n), State::NotAtBeginning, base + n));
            assert(spec_components(x, state, base) =~= comps.push(new));
        } else {
            lemma_last_step_append(s, w, state);
            assert(x.skip(n) =~= w);
            lemma_components_of_part(w, State::NotAtBeginning, base + n);
            assert(s.skip(n) =~= Seq::<u8>::empty());
            lemma_no_components_after_end(base + n);
            assert(spec_components(x, state, base) == seq![(c, base + a, base + b)]
                + spec_components(x.skip(n), State::NotAtBeginning, base + n));
            assert(spec_components(x, state, base) =~= comps.push(new));
        }
    }
}

/// Past the beginning, no root directory is read
proof fn lemma_no_root_later(s: Seq<u8>, base: int)
    ensures
        forall|i: int|
            0 <= i < spec_components(s, State::NotAtBeginning, base).len() ==> !((#[trigger] spec_components(
                s,
                State::NotAtBeginning,
                base,
            )[i]).0 is RootDir),
    decreases s.len(),
{
    lemma_front_wf(s, State::NotAtBeginning);
    if let Some((c, a, b, n)) = spec_front(s, State::NotAtBeginning) {
        if 0 < n <= s.len() {
            lemma_no_root_later(s.skip(n), base + n);
            let comps = spec_components(s, State::NotAtBeginning, base);
            let rest = spec_components(s.skip(n), State::NotAtBeginning, base + n);
            assert(comps == seq![(c, base + a, base + b)] + rest);
            assert forall|i: int| 0 <= i < comps.len() implies !((#[trigger] comps[i]).0 is RootDir) by {
                if i > 0 {
                    assert(comps[i] == rest[i - 1]);
                }
            }
        }
    }
}

/// The parts of a Unix path that normalizing may keep: no `.`, a root only first and written `/`,
/// names that are valid names, and `..` written as such
pub open spec fn clean_parts(ks: Seq<(ComponentKind, Seq<u8>)>) -> bool {
    forall|i: int|
        0 <= i < ks.len() ==> {
            let k = (#[trigger] ks[i]).0;
            let v = ks[i].1;
            &&& k != ComponentKind::CurDir
            &&& k != ComponentKind::Prefix
            &&& k == ComponentKind::RootDir ==> i == 0 && v == seq![UNIX_SEPARATOR_BYTE]
            &&& k == ComponentKind::Normal ==> valid_name(v)
            &&& k == ComponentKind::ParentDir ==> v == seq![DOT_BYTE, DOT_BYTE]
        }
}

/// The parts of a Unix path: a root only first and written `/`, valid names, `..` and `.`
/// written as such, and no prefix
proof fn lemma_parts_shape(p: Seq<u8>)
    ensures
        forall|i: int|
            0 <= i < parts::<UnixEncoding>(p).len() ==> {
                let k = (#[trigger] parts::<UnixEncoding>(p)[i]).0;
                let v = parts::<UnixEncoding>(p)[i].1;
                &&& k != ComponentKind::Prefix
                &&& k == ComponentKind::RootDir ==> i == 0 && v == seq![UNIX_SEPARATOR_BYTE]
                &&& k == ComponentKind::Normal ==> valid_name(v)
                &&& k == ComponentKind::ParentDir ==> v == seq![DOT_BYTE, DOT_BYTE]
                &&& k == ComponentKind::CurDir ==> v == seq![DOT_BYTE]
            },
{
    let comps = spec_components(p, State::AtBeginning, 0);
    let cs = parts::<UnixEncoding>(p);
    assert(p.skip(0) =~= p);
    lemma_components_bytes(p, State::AtBeginning, 0);
    lemma_components_names_valid(p, State::AtBeginning, 0);
    lemma_front_wf(p, State::AtBeginning);
    if let Some((c, a, b, n)) = spec_front(p, State::AtBeginning) {
        lemma_no_root_later(p.skip(n), n);
        assert(comps == seq![(c, a, b)] + spec_components(p.skip(n), State::NotAtBeginning, n));
    }
    assert forall|i: int| 0 <= i < cs.len() implies {
        let k = (#[trigger] cs[i]).0;
        let v = cs[i].1;
        &&& k != ComponentKind::Prefix
        &&& k == ComponentKind::RootDir ==> i == 0 && v == seq![UNIX_SEPARATOR_BYTE]
        &&& k == ComponentKind::Normal ==> valid_name(v)
        &&& k == ComponentKind::ParentDir ==> v == seq![DOT_BYTE, DOT_BYTE]
        &&& k == ComponentKind::CurDir ==> v == seq![DOT_BYTE]
    } by {
        let t = comps[i];
        assert(cs[i].0 == t.0.kind());
        if i > 0 {
            let (c, a, b, n) = spec_front(p, State::AtBeginning).unwrap();
            assert(comps[i] == spec_components(p.skip(n), State::NotAtBeginning, n)[i - 1]);
        }
    }
}

/// Every part kept by normalizing is one of the parts it was given, at the same place or later
proof fn lemma_kept_origin<X>(cs: Seq<(ComponentKind, X)>)
    ensures
        kept(cs).len() <= cs.len(),
        forall|i: int|
            0 <= i < kept(cs).len() ==> exists|j: int|
                i <= j < cs.len() && #[trigger] kept(cs)[i] == cs[j],
    decreases cs.len(),
{
    if cs.len() > 0 {
        let init = cs.drop_last();
        lemma_kept_origin(init);
        let stack = kept(init);
        let k = kept(cs);
        assert forall|i: int| 0 <= i < k.len() implies exists|j: int|
            i <= j < cs.len() && #[trigger] k[i] == cs[j] by {
            if i < stack.len() && k[i] == stack[i] {
                let j = choose|j: int| i <= j < init.len() && #[trigger] stack[i] == init[j];
                assert(cs[j] == init[j]);
            } else {
                assert(k[i] == cs[cs.len() - 1]);
            }
        }
    }
}

/// The parts normalizing keeps from a Unix path are clean
proof fn lemma_kept_parts_clean(p: Seq<u8>)
    ensures
        clean_parts(kept(parts::<UnixEncoding>(p))),
{
    let cs = parts::<UnixEncoding>(p);
    let ks = kept(cs);
    lemma_parts_shape(p);
    lemma_kept_origin(cs);
    law_kept_has_no_cur_dir(cs);
    assert forall|i: int| 0 <= i < ks.len() implies {
        let k = (#[trigger] ks[i]).0;
        let v = ks[i].1;
        &&& k != ComponentKind::CurDir
        &&& k != ComponentKind::Prefix
        &&& k == ComponentKind::RootDir ==> i == 0 && v == seq![UNIX_SEPARATOR_BYTE]
        &&& k == ComponentKind::Normal ==> valid_name(v)
        &&& k == ComponentKind::ParentDir ==> v == seq![DOT_BYTE, DOT_BYTE]
    } by {
        let j = choose|j: int| i <= j < cs.len() && #[trigger] ks[i] == cs[j];
        assert(ks[i] == cs[j]);
    }
}

/// Pushing clean parts in turn onto an empty Unix path gives a path without nul bytes whose
/// components are, kind for kind, those parts
proof fn lemma_push_all_reads_back(ks: Seq<(ComponentKind, Seq<u8>)>)
    requires
        clean_parts(ks),
    ensures
        no_nul(push_all::<UnixEncoding>(Seq::empty(), ks)),
        unix_spans(push_all::<UnixEncoding>(Seq::empty(), ks)).len() == ks.len(),
        forall|i: int|
            0 <= i < ks.len() ==> (#[trigger] unix_spans(
                push_all::<UnixEncoding>(Seq::empty(), ks),
            )[i]).0 == ks[i].0,
    decreases ks.len(),
{
    if ks.len() == 0 {
        let e = Seq::<u8>::empty();
        assert(e.skip(0) =~= e);
        assert(run_len(e, disallowed_fn()) == 0);
        assert(spec_components(e, State::AtBeginning, 0) =~= Seq::<(UnixComponentView, int, int)>::empty());
    } else {
        let init = ks.drop_last();
        assert(clean_parts(init)) by {
            assert forall|i: int| 0 <= i < init.len() implies #[trigger] init[i] == ks[i] by {}
        }
        lemma_push_all_reads_back(init);
        let buf0 = push_all::<UnixEncoding>(Seq::empty(), init);
        let (k, w) = ks.last();
        assert(ks.last() == ks[ks.len() - 1]);
        let x = push_all::<UnixEncoding>(Seq::empty(), ks);
        assert(x == unix_push(buf0, w));
        let s0 = unix_spans(buf0);
        if k == ComponentKind::RootDir {
            assert(init.len() == 0);
            assert(buf0.len() == 0);
            lemma_unix_has_root(w);
            assert(x == w);
            let t = w.skip(0);
            assert(t =~= w);
            let e = w.skip(1);
            assert(e =~= Seq::<u8>::empty());
            assert(run_len(e, not_sep_fn()) == 0);
            assert(e.skip(0) =~= e);
            assert(run_len(e, disallowed_fn()) == 0);
            assert(spec_front(w, State::AtBeginning) == Some((UnixComponentView::RootDir, 0int, 1int, 1int)));
            lemma_no_components_after_end(1);
            assert(spec_components(w, State::AtBeginning, 0) =~= seq![(UnixComponentView::RootDir, 0int, 1int)]);
        } else {
            assert(single_part(w)) by {
                if k == ComponentKind::ParentDir {
                    assert(w == seq![DOT_BYTE, DOT_BYTE]);
                    assert forall|i: int| 0 <= i < w.len() implies !is_disallowed(#[trigger] w[i]) by {}
                }
            }
            assert(part_view(w).kind() == k) by {
                if k == ComponentKind::Normal {
                    assert(valid_name(w));
                }
            }
            assert(!is_disallowed(w[0]));
            lemma_unix_has_root(w);
            let sep = buf0.len() > 0 && !is_sep(buf0.last());
            let sx = if sep { buf0.push(UNIX_SEPARATOR_BYTE) } else { buf0 };
            assert(x == sx + w);
            if sep {
                law_trailing_separator_ignored(buf0);
                assert(sx.last() == UNIX_SEPARATOR_BYTE);
            } else if buf0.len() > 0 {
                assert(sx.last() == buf0.last());
            }
            assert(no_nul(sx)) by {
                assert forall|i: int| 0 <= i < sx.len() implies #[trigger] sx[i] != 0 by {
                    if i < buf0.len() {
                        assert(sx[i] == buf0[i]);
                    }
                }
            }
            lemma_components_append_part(sx, w, State::AtBeginning, 0);
            let cx = spec_components(sx, State::AtBeginning, 0);
            let f = |t: (UnixComponentView, int, int)| (t.0.kind(), t.1, t.2);
            assert(unix_spans(sx) == cx.map_values(f));
            assert(unix_spans(x) == cx.push((part_view(w), sx.len() as int, (sx.len() + w.len()) as int)).map_values(f));
            assert(unix_spans(x) =~= unix_spans(sx).push((k, sx.len() as int, (sx.len() + w.len()) as int)));
            assert(unix_spans(sx) == s0);
            assert forall|i: int| 0 <= i < x.len() implies #[trigger] x[i] != 0 by {
                if i < sx.len() {
                    assert(x[i] == sx[i]);
                } else {
                    assert(x[i] == w[i - sx.len()]);
                    assert(!is_disallowed(w[i - sx.len()]));
                }
            }
        }
    }
}

/// Normalizing a Unix path gives a path whose components are, kind for kind, the parts that
/// normalizing keeps; in particular none of them is `.`, wherever a `.` stood in the path
pub proof fn law_unix_normalize_reads_back(p: Seq<u8>)
    ensures
        UnixEncoding::spec_spans(spec_normalize::<UnixEncoding>(p)).len() == kept(
            parts::<UnixEncoding>(p),
        ).len(),
        forall|i: int|
            0 <= i < kept(parts::<UnixEncoding>(p)).len() ==> (#[trigger] UnixEncoding::spec_spans(
                spec_normalize::<UnixEncoding>(p),
            )[i]).0 == kept(parts::<UnixEncoding>(p))[i].0,
        forall|i: int|
            0 <= i < UnixEncoding::spec_spans(spec_normalize::<UnixEncoding>(p)).len() ==> (
            #[trigger] UnixEncoding::spec_spans(spec_normalize::<UnixEncoding>(p))[i]).0
                != ComponentKind::CurDir,
{
    lemma_kept_parts_clean(p);
    let ks = kept(parts::<UnixEncoding>(p));
    lemma_push_all_reads_back(ks);
    let spans = UnixEncoding::spec_spans(spec_normalize::<UnixEncoding>(p));
    assert forall|i: int| 0 <= i < spans.len() implies (#[trigger] spans[i]).0
        != ComponentKind::CurDir by {
        assert(spans[i].0 == ks[i].0);
    }
}


/// Pushing a single name or `..` onto a Unix path without nul bytes adds exactly one component,
/// that part, taking the last bytes of the result; the components before it are those of the
/// current path, at the same places
pub proof fn law_unix_push_adds_one_component(current: Seq<u8>, w: Seq<u8>)
    requires
        single_part(w),
        no_nul(current),
    ensures
        ({
            let x = unix_push(current, w);
            &&& x.take(current.len() as int) == current
            &&& unix_spans(x) == unix_spans(current).push(
                (part_view(w).kind(), x.len() - w.len(), x.len() as int),
            )
        }),
{
    let x = unix_push(current, w);
    assert(!is_disallowed(w[0]));
    lemma_unix_has_root(w);
    let sep = current.len() > 0 && !is_sep(current.last());
    let sx = if sep { current.push(UNIX_SEPARATOR_BYTE) } else { current };
    assert(x == sx + w);
    assert(x.take(current.len() as int) =~= current);
    if sep {
        law_trailing_separator_ignored(current);
        assert(sx.last() == UNIX_SEPARATOR_BYTE);
    } else if current.len() > 0 {
        assert(sx.last() == current.last());
    }
    assert(no_nul(sx)) by {
        assert forall|i: int| 0 <= i < sx.len() implies #[trigger] sx[i] != 0 by {
            if i < current.len() {
                assert(sx[i] == current[i]);
            }
        }
    }
    lemma_components_append_part(sx, w, State::AtBeginning, 0);
    let cx = spec_components(sx, State::AtBeginning, 0);
    let f = |t: (UnixComponentView, int, int)| (t.0.kind(), t.1, t.2);
    assert(unix_spans(sx) == cx.map_values(f));
    assert(unix_spans(x) == cx.push((part_view(w), sx.len() as int, (sx.len() + w.len()) as int)).map_values(f));
    assert(unix_spans(x) =~= unix_spans(sx).push(
        (part_view(w).kind(), sx.len() as int, (sx.len() + w.len()) as int),
    ));
}

} // verus!
