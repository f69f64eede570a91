//! Laws of how Unix paths are split into components: repeated separators and `.` components are
//! ignored past the start.
use vstd::prelude::*;

use crate::common::encoding::Encoding;
use crate::common::iter::span_bytes;
use crate::common::normalize::parts;
use crate::constants::{DOT_BYTE, UNIX_SEPARATOR_BYTE};
use crate::parser::{
    insert_at, lemma_insert_at_index, lemma_insert_skip, lemma_run_len_bounds, lemma_run_len_insert,
    lemma_run_len_insert_after_stop, lemma_run_len_insert_stop, run_len,
};
use crate::unix::component::UnixComponentView;
use crate::unix::encoding::{lemma_components_wf, unix_spans, UnixEncoding};
use crate::unix::hash::lemma_components_bytes;
use crate::unix::parser::{
    cur_dir_at, disallowed_fn, ends_component, is_sep, lemma_front_wf, lemma_skip_from_bounds,
    not_sep_fn, skip_from, spec_components, spec_first_component, spec_front,
    spec_later_component, State,
};

verus! {

/// The components found, without their offsets
pub open spec fn comp_views(comps: Seq<(UnixComponentView, int, int)>) -> Seq<UnixComponentView> {
    comps.map_values(|t: (UnixComponentView, int, int)| t.0)
}

/// What a component parser reads from `t` and from `t` with the byte `y` put in at offset `j`
/// agree: the same component, read from bytes before `j`, with `y` still to come after it
spec fn agrees_with_insert(
    parsed: Option<(Seq<u8>, UnixComponentView)>,
    parsed_ins: Option<(Seq<u8>, UnixComponentView)>,
    t: Seq<u8>,
    j: int,
    y: u8,
) -> bool {
    match parsed {
        None => parsed_ins is None,
        Some((rest, c)) => {
            let len = t.len() - rest.len();
            &&& 0 < len <= j
            &&& (!(c is RootDir) ==> len < j)
            &&& rest == t.skip(len)
            &&& parsed_ins == Some((insert_at(rest, j - len, y), c))
        },
    }
}

/// Skipping from past the put-in separator is skipping from one byte later
proof fn lemma_skip_shift(s: Seq<u8>, j: int, q: int)
    requires
        0 <= j <= q <= s.len(),
    ensures
        skip_from(insert_at(s, j, UNIX_SEPARATOR_BYTE), q + 1) == skip_from(s, q) + 1,
    decreases s.len() - q,
{
    let t = insert_at(s, j, UNIX_SEPARATOR_BYTE);
    lemma_insert_at_index(s, j, UNIX_SEPARATOR_BYTE);
    if q < s.len() {
        assert(t[q + 1] == s[q]);
        if q + 1 < s.len() {
            assert(t[q + 2] == s[q + 1]);
        }
        assert(cur_dir_at(t, q + 1) == cur_dir_at(s, q));
        if is_sep(s[q]) || cur_dir_at(s, q) {
            lemma_skip_shift(s, j, q + 1);
        }
    }
}

/// Skipping from before a separator put in right after another one stops at the same place, or
/// one byte later when it runs past it
proof fn lemma_skip_insert(s: Seq<u8>, j: int, q: int)
    requires
        1 <= j <= s.len(),
        is_sep(s[j - 1]),
        0 <= q < j,
    ensures
        skip_from(insert_at(s, j, UNIX_SEPARATOR_BYTE), q) == if skip_from(s, q) >= j {
            skip_from(s, q) + 1
        } else {
            skip_from(s, q)
        },
        skip_from(s, q) != j - 1,
    decreases j - q,
{
    let t = insert_at(s, j, UNIX_SEPARATOR_BYTE);
    lemma_insert_at_index(s, j, UNIX_SEPARATOR_BYTE);
    lemma_skip_from_bounds(s, q);
    assert(t[q] == s[q]);
    if q + 1 < j {
        assert(t[q + 1] == s[q + 1]);
    }
    assert(cur_dir_at(t, q) == cur_dir_at(s, q));
    if is_sep(s[q]) || cur_dir_at(s, q) {
        if q + 1 < j {
            lemma_skip_insert(s, j, q + 1);
        } else {
            assert(t[j] == UNIX_SEPARATOR_BYTE);
            assert(skip_from(t, q) == skip_from(t, j));
            assert(skip_from(t, j) == skip_from(t, j + 1));
            assert(skip_from(s, q) == skip_from(s, j));
            lemma_skip_shift(s, j, j);
            lemma_skip_from_bounds(s, j);
        }
    }
}

/// Names, `.`, `..` and the root are read the same once a byte is put in right after a separator
proof fn lemma_names_insert(t: Seq<u8>, j: int, y: u8)
    requires
        1 <= j <= t.len(),
        is_sep(t[j - 1]),
    ensures
        agrees_with_insert(spec_later_component(t), spec_later_component(insert_at(t, j, y)), t, j, y),
        agrees_with_insert(spec_first_component(t), spec_first_component(insert_at(t, j, y)), t, j, y),
{
    let tt = insert_at(t, j, y);
    lemma_insert_at_index(t, j, y);
    lemma_run_len_insert_after_stop(t, disallowed_fn(), j, y);
    lemma_run_len_bounds(t, disallowed_fn());
    let n = run_len(t, disallowed_fn()) as int;
    assert(n <= j - 1);
    lemma_insert_skip(t, j, y, n);
    assert(tt.take(n) =~= t.take(n));
    lemma_insert_skip(t, j, y, 1);
    assert(tt[0] == t[0]);
    if j >= 2 {
        assert(tt[1] == t[1]);
        lemma_insert_skip(t, j, y, 2);
    }
    if j >= 3 {
        assert(tt[2] == t[2]);
    }
}

/// A parsing step reads the same component once a separator is put in right after another one;
/// it consumes one byte more when the separator lands among the bytes it consumed, and otherwise
/// the same bytes
#[verifier::rlimit(40)]
proof fn lemma_front_insert(s: Seq<u8>, state: State, j: int)
    requires
        1 <= j <= s.len(),
        is_sep(s[j - 1]),
    ensures
        match spec_front(s, state) {
            None => spec_front(insert_at(s, j, UNIX_SEPARATOR_BYTE), state) is None,
            Some((c, a, b, n)) => spec_front(insert_at(s, j, UNIX_SEPARATOR_BYTE), state) matches Some(
                (c2, a2, b2, n2),
            ) && c2 == c && if j <= n {
                n2 == n + 1
            } else {
                n2 == n
            },
        },
{
    let ss = insert_at(s, j, UNIX_SEPARATOR_BYTE);
    lemma_insert_at_index(s, j, UNIX_SEPARATOR_BYTE);
    lemma_front_wf(s, state);
    lemma_skip_from_bounds(s, 0);
    let k = if state == State::AtBeginning {
        0
    } else {
        skip_from(s, 0)
    };
    if state == State::NotAtBeginning {
        lemma_skip_insert(s, j, 0);
    }
    let t = s.skip(k);
    if k >= j {
        assert(ss.skip(k + 1) =~= t);
    } else {
        let jj = j - k;
        lemma_insert_skip(s, j, UNIX_SEPARATOR_BYTE, k);
        let tt = ss.skip(k);
        assert(tt == insert_at(t, jj, UNIX_SEPARATOR_BYTE));
        assert(t[jj - 1] == s[j - 1]);
        lemma_names_insert(t, jj, UNIX_SEPARATOR_BYTE);
        lemma_insert_at_index(t, jj, UNIX_SEPARATOR_BYTE);
        let parsed = if state == State::AtBeginning {
            spec_first_component(t)
        } else {
            spec_later_component(t)
        };
        if let Some((rest, c)) = parsed {
            let len = t.len() - rest.len();
            if !(c is RootDir) {
                assert(tt[len] == t[len]);
                assert(ends_component(tt, len) == ends_component(t, len));
            }
            if len < jj {
                assert(rest[jj - len - 1] == t[jj - 1]);
            }
            lemma_run_len_insert(rest, not_sep_fn(), jj - len, UNIX_SEPARATOR_BYTE);
            lemma_run_len_bounds(rest, not_sep_fn());
        }
    }
}

/// The components found do not depend on where their offsets are counted from
proof fn lemma_views_any_base(s: Seq<u8>, state: State, b1: int, b2: int)
    ensures
        comp_views(spec_components(s, state, b1)) == comp_views(spec_components(s, state, b2)),
    decreases s.len(),
{
    if let Some((c, a, b, n)) = spec_front(s, state) {
        if 0 < n <= s.len() {
            lemma_views_any_base(s.skip(n), State::NotAtBeginning, b1 + n, b2 + n);
            let r1 = spec_components(s.skip(n), State::NotAtBeginning, b1 + n);
            let r2 = spec_components(s.skip(n), State::NotAtBeginning, b2 + n);
            assert(comp_views(seq![(c, b1 + a, b1 + b)] + r1) =~= seq![c] + comp_views(r1));
            assert(comp_views(seq![(c, b2 + a, b2 + b)] + r2) =~= seq![c] + comp_views(r2));
        }
    }
}

/// The components are the same once a separator is put in right after another one
proof fn lemma_components_insert(s: Seq<u8>, state: State, j: int, b1: int, b2: int)
    requires
        1 <= j <= s.len(),
        is_sep(s[j - 1]),
    ensures
        comp_views(spec_components(insert_at(s, j, UNIX_SEPARATOR_BYTE), state, b1)) == comp_views(
            spec_components(s, state, b2),
        ),
    decreases s.len(),
{
    let ss = insert_at(s, j, UNIX_SEPARATOR_BYTE);
    lemma_insert_at_index(s, j, UNIX_SEPARATOR_BYTE);
    lemma_front_insert(s, state, j);
    lemma_front_wf(s, state);
    if let Some((c, a, b, n)) = spec_front(s, state) {
        let (c2, a2, b2x, n2) = spec_front(ss, state).unwrap();
        if j <= n {
            assert(ss.skip(n + 1) =~= s.skip(n));
            lemma_views_any_base(s.skip(n), State::NotAtBeginning, b1 + n + 1, b2 + n);
            let r1 = spec_components(ss.skip(n2), State::NotAtBeginning, b1 + n2);
            let r2 = spec_components(s.skip(n), State::NotAtBeginning, b2 + n);
            assert(comp_views(seq![(c, b1 + a2, b1 + b2x)] + r1) =~= seq![c] + comp_views(r1));
            assert(comp_views(seq![(c, b2 + a, b2 + b)] + r2) =~= seq![c] + comp_views(r2));
        } else {
            lemma_insert_skip(s, j, UNIX_SEPARATOR_BYTE, n);
            assert(s.skip(n)[j - n - 1] == s[j - 1]);
            lemma_components_insert(s.skip(n), State::NotAtBeginning, j - n, b1 + n, b2 + n);
            let r1 = spec_components(ss.skip(n2), State::NotAtBeginning, b1 + n2);
            let r2 = spec_components(s.skip(n), State::NotAtBeginning, b2 + n);
            assert(comp_views(seq![(c, b1 + a2, b1 + b2x)] + r1) =~= seq![c] + comp_views(r1));
            assert(comp_views(seq![(c, b2 + a, b2 + b)] + r2) =~= seq![c] + comp_views(r2));
        }
    }
}

/// The parts of a Unix path are its components by kind and the bytes each stands for
proof fn lemma_parts_from_views(p: Seq<u8>)
    ensures
        parts::<UnixEncoding>(p) == comp_views(spec_components(p, State::AtBeginning, 0)).map_values(
            |v: UnixComponentView| (v.kind(), v.bytes()),
        ),
{
    assert(p.skip(0) =~= p);
    lemma_components_bytes(p, State::AtBeginning, 0);
    lemma_components_wf(p, State::AtBeginning, 0);
    let comps = spec_components(p, State::AtBeginning, 0);
    let spans = unix_spans(p);
    assert forall|i: int| 0 <= i < spans.len() implies #[trigger] span_bytes::<UnixEncoding>(
        p,
        spans[i],
    ) == comps[i].0.bytes() by {
        assert(spans[i] == (comps[i].0.kind(), comps[i].1, comps[i].2));
    }
    assert(parts::<UnixEncoding>(p) =~= comp_views(comps).map_values(
        |v: UnixComponentView| (v.kind(), v.bytes()),
    ));
}

/// Repeated separators are ignored: a separator put in right after another one leaves the
/// components of a Unix path, by kind and by the bytes each stands for, as they were
pub proof fn law_repeated_separators_ignored(p: Seq<u8>, j: int)
    requires
        1 <= j <= p.len(),
        is_sep(p[j - 1]),
    ensures
        parts::<UnixEncoding>(insert_at(p, j, UNIX_SEPARATOR_BYTE)) == parts::<UnixEncoding>(p),
{
    lemma_components_insert(p, State::AtBeginning, j, 0, 0);
    lemma_parts_from_views(p);
    lemma_parts_from_views(insert_at(p, j, UNIX_SEPARATOR_BYTE));
}

/// Skipping from an offset of a suffix is skipping from the matching offset of the whole input
proof fn lemma_skip_of_suffix(x: Seq<u8>, m: int, q: int)
    requires
        0 <= m <= x.len(),
        0 <= q <= x.len() - m,
    ensures
        skip_from(x.skip(m), q) == skip_from(x, q + m) - m,
    decreases x.len() - m - q,
{
    let y = x.skip(m);
    if q < y.len() {
        assert(y[q] == x[q + m]);
        if q + 1 < y.len() {
            assert(y[q + 1] == x[q + m + 1]);
        }
        assert(cur_dir_at(y, q) == cur_dir_at(x, q + m));
        if is_sep(y[q]) || cur_dir_at(y, q) {
            lemma_skip_of_suffix(x, m, q + 1);
        }
    }
}

/// Skipping from a point that skipping from `q` passes stops at the same place
proof fn lemma_skip_mid(x: Seq<u8>, q: int, r: int)
    requires
        0 <= q <= r <= skip_from(x, q),
    ensures
        skip_from(x, r) == skip_from(x, q),
    decreases r - q,
{
    if q < r {
        lemma_skip_mid(x, q + 1, r);
    }
}

/// Past the start, separators and `.` components in front of the input change nothing: the
/// components are those of the input without any of them
proof fn lemma_views_skip(x: Seq<u8>, m: int, b1: int, b2: int)
    requires
        0 <= m <= skip_from(x, 0),
    ensures
        comp_views(spec_components(x.skip(m), State::NotAtBeginning, b1)) == comp_views(
            spec_components(x, State::NotAtBeginning, b2),
        ),
{
    lemma_skip_from_bounds(x, 0);
    lemma_skip_of_suffix(x, m, 0);
    lemma_skip_mid(x, 0, m);
    let k = skip_from(x, 0);
    let y = x.skip(m);
    assert(y.skip(k - m) =~= x.skip(k));
    lemma_front_wf(x, State::NotAtBeginning);
    assert(skip_from(y, 0) == k - m);
    let t = x.skip(k);
    assert(spec_later_component(y.skip(skip_from(y, 0))) == spec_later_component(t));
    if let Some((c, a, b, n)) = spec_front(x, State::NotAtBeginning) {
        assert(spec_front(y, State::NotAtBeginning) == Some((c, a - m, b - m, n - m)));
        assert(y.skip(n - m) =~= x.skip(n));
        lemma_views_any_base(x.skip(n), State::NotAtBeginning, b1 + n - m, b2 + n);
        let r1 = spec_components(y.skip(n - m), State::NotAtBeginning, b1 + n - m);
        let r2 = spec_components(x.skip(n), State::NotAtBeginning, b2 + n);
        assert(comp_views(seq![(c, b1 + a - m, b1 + b - m)] + r1) =~= seq![c] + comp_views(r1));
        assert(comp_views(seq![(c, b2 + a, b2 + b)] + r2) =~= seq![c] + comp_views(r2));
    } else {
        assert(spec_front(y, State::NotAtBeginning) is None);
    }
}

/// A `.` put in between two separators is skipped, together with the separator after it
proof fn lemma_skip_dot(x: Seq<u8>, j: int, q: int)
    requires
        1 <= j < x.len(),
        is_sep(x[j - 1]),
        is_sep(x[j]),
        0 <= q < j,
    ensures
        skip_from(insert_at(x, j, DOT_BYTE), q) == if skip_from(x, q) >= j {
            skip_from(x, q) + 1
        } else {
            skip_from(x, q)
        },
        skip_from(x, q) != j - 1 && skip_from(x, q) != j,
    decreases j - q,
{
    let d = insert_at(x, j, DOT_BYTE);
    lemma_insert_at_index(x, j, DOT_BYTE);
    lemma_skip_from_bounds(x, q);
    assert(d[q] == x[q]);
    if q + 1 < j {
        assert(d[q + 1] == x[q + 1]);
    }
    assert(cur_dir_at(d, q) == cur_dir_at(x, q));
    if is_sep(x[q]) || cur_dir_at(x, q) {
        if q + 1 < j {
            lemma_skip_dot(x, j, q + 1);
        } else {
            assert(d[j + 1] == x[j]);
            assert(cur_dir_at(d, j));
            assert(skip_from(d, q) == skip_from(d, j));
            assert(skip_from(d, j) == skip_from(d, j + 1));
            assert(skip_from(x, q) == skip_from(x, j));
            assert(skip_from(x, j) == skip_from(x, j + 1));
            lemma_skip_dot_shift(x, j, j);
            lemma_skip_from_bounds(x, j + 1);
        }
    }
}

/// Skipping from past a `.` put in is skipping from one byte later
proof fn lemma_skip_dot_shift(x: Seq<u8>, j: int, q: int)
    requires
        0 <= j <= q <= x.len(),
    ensures
        skip_from(insert_at(x, j, DOT_BYTE), q + 1) == skip_from(x, q) + 1,
    decreases x.len() - q,
{
    let d = insert_at(x, j, DOT_BYTE);
    lemma_insert_at_index(x, j, DOT_BYTE);
    if q < x.len() {
        assert(d[q + 1] == x[q]);
        if q + 1 < x.len() {
            assert(d[q + 2] == x[q + 1]);
        }
        assert(cur_dir_at(d, q + 1) == cur_dir_at(x, q));
        if is_sep(x[q]) || cur_dir_at(x, q) {
            lemma_skip_dot_shift(x, j, q + 1);
        }
    }
}

/// Separators at the start of the input are skipped
proof fn lemma_skip_over_seps(y: Seq<u8>, q: int, i: int)
    requires
        0 <= q <= i <= y.len(),
        forall|r: int| q <= r < i ==> is_sep(#[trigger] y[r]),
    ensures
        skip_from(y, q) >= i,
    decreases i - q,
{
    lemma_skip_from_bounds(y, q);
    if q < i {
        assert(is_sep(y[q]));
        lemma_skip_over_seps(y, q + 1, i);
    }
}

/// What is left to read after a `.` put in right after a separator that starts a run of at
/// least two separators reads as what is left after the run
proof fn lemma_views_after_dot(x: Seq<u8>, j: int, n: int, b1: int, b2: int)
    requires
        1 <= j < n <= x.len(),
        forall|r: int| j <= r < n ==> is_sep(#[trigger] x[r]),
    ensures
        comp_views(spec_components(insert_at(x, j, DOT_BYTE).skip(j), State::NotAtBeginning, b1))
            == comp_views(spec_components(x.skip(n), State::NotAtBeginning, b2)),
{
    let d = insert_at(x, j, DOT_BYTE);
    lemma_insert_at_index(x, j, DOT_BYTE);
    let u = d.skip(j);
    assert(u[0] == DOT_BYTE);
    assert(u[1] == x[j]);
    assert(cur_dir_at(u, 0));
    lemma_skip_from_bounds(u, 1);
    assert(u.skip(1) =~= x.skip(j));
    lemma_views_skip(u, 1, b1, b1);
    let v = x.skip(j);
    assert forall|r: int| 0 <= r < n - j implies is_sep(#[trigger] v[r]) by {
        assert(v[r] == x[j + r]);
    }
    lemma_skip_over_seps(v, 0, n - j);
    assert(v.skip(n - j) =~= x.skip(n));
    lemma_views_skip(v, n - j, b2, b1);
}

/// A parsing step reads the same component once a `.` is put in between two separators. Where
/// the `.` lands past the bytes the step consumes, it consumes the same bytes; otherwise what is
/// left to read, with the `.` in it, has the same components as what was left before
#[verifier::rlimit(40)]
proof fn lemma_front_dot(x: Seq<u8>, state: State, j: int)
    requires
        1 <= j < x.len(),
        is_sep(x[j - 1]),
        is_sep(x[j]),
    ensures
        match spec_front(x, state) {
            None => spec_front(insert_at(x, j, DOT_BYTE), state) is None,
            Some((c, a, b, n)) => spec_front(insert_at(x, j, DOT_BYTE), state) matches Some(
                (c2, a2, b2, n2),
            ) && c2 == c && 0 < n2 <= x.len() + 1 && (j > n ==> n2 == n) && (j <= n ==> forall|
                b1: int,
                b2: int,
            |
                comp_views(
                    #[trigger] spec_components(
                        insert_at(x, j, DOT_BYTE).skip(n2),
                        State::NotAtBeginning,
                        b1,
                    ),
                ) == comp_views(#[trigger] spec_components(x.skip(n), State::NotAtBeginning, b2))),
        },
{
    let d = insert_at(x, j, DOT_BYTE);
    lemma_insert_at_index(x, j, DOT_BYTE);
    lemma_front_wf(x, state);
    lemma_skip_from_bounds(x, 0);
    let k = if state == State::AtBeginning {
        0
    } else {
        skip_from(x, 0)
    };
    if state == State::NotAtBeginning {
        lemma_skip_dot(x, j, 0);
    }
    let t = x.skip(k);
    if k >= j {
        assert(d.skip(k + 1) =~= t);
        if let Some((c, a, b, n)) = spec_front(x, state) {
            assert(d.skip(n + 1) =~= x.skip(n));
            assert forall|b1: int, b2: int|
                comp_views(
                    #[trigger] spec_components(d.skip(n + 1), State::NotAtBeginning, b1),
                ) == comp_views(#[trigger] spec_components(x.skip(n), State::NotAtBeginning, b2)) by {
                lemma_views_any_base(x.skip(n), State::NotAtBeginning, b1, b2);
            }
        }
    } else {
        let jj = j - k;
        lemma_insert_skip(x, j, DOT_BYTE, k);
        let tt = d.skip(k);
        assert(t[jj - 1] == x[j - 1]);
        assert(t[jj] == x[j]);
        lemma_names_insert(t, jj, DOT_BYTE);
        lemma_insert_at_index(t, jj, DOT_BYTE);
        let parsed = if state == State::AtBeginning {
            spec_first_component(t)
        } else {
            spec_later_component(t)
        };
        lemma_run_len_bounds(t, disallowed_fn());
        if let Some((rest, c)) = parsed {
            let len = t.len() - rest.len();
            let e = jj - len;
            if !(c is RootDir) {
                assert(tt[len] == t[len]);
                assert(ends_component(tt, len) == ends_component(t, len));
            }
            if e > 0 {
                assert(rest[e - 1] == t[jj - 1]);
            }
            assert(rest[e] == t[jj]);
            lemma_run_len_insert_stop(rest, not_sep_fn(), e, DOT_BYTE);
            lemma_run_len_bounds(rest, not_sep_fn());
            let run = run_len(rest, not_sep_fn()) as int;
            if let Some((c0, a0, b0, n0)) = spec_front(x, state) {
                if j <= n0 {
                    assert(run >= e + 1);
                    assert forall|r: int| j <= r < n0 implies is_sep(#[trigger] x[r]) by {
                        assert(x[r] == rest[r - k - len]);
                    }
                    assert forall|b1: int, b2: int|
                        comp_views(
                            #[trigger] spec_components(d.skip(j), State::NotAtBeginning, b1),
                        ) == comp_views(#[trigger] spec_components(x.skip(n0), State::NotAtBeginning, b2)) by {
                        lemma_views_after_dot(x, j, n0, b1, b2);
                    }
                }
            }
        }
    }
}

/// The components are the same once a `.` is put in between two separators
proof fn lemma_components_dot(x: Seq<u8>, state: State, j: int, b1: int, b2: int)
    requires
        1 <= j < x.len(),
        is_sep(x[j - 1]),
        is_sep(x[j]),
    ensures
        comp_views(spec_components(insert_at(x, j, DOT_BYTE), state, b1)) == comp_views(
            spec_components(x, state, b2),
        ),
    decreases x.len(),
{
    let d = insert_at(x, j, DOT_BYTE);
    lemma_insert_at_index(x, j, DOT_BYTE);
    lemma_front_dot(x, state, j);
    lemma_front_wf(x, state);
    if let Some((c, a, b, n)) = spec_front(x, state) {
        let (c2, a2, b2x, n2) = spec_front(d, state).unwrap();
        let r1 = spec_components(d.skip(n2), State::NotAtBeginning, b1 + n2);
        let r2 = spec_components(x.skip(n), State::NotAtBeginning, b2 + n);
        if j <= n {
            assert(comp_views(r1) == comp_views(r2));
        } else {
            lemma_insert_skip(x, j, DOT_BYTE, n);
            assert(x.skip(n)[j - n - 1] == x[j - 1]);
            assert(x.skip(n)[j - n] == x[j]);
            lemma_components_dot(x.skip(n), State::NotAtBeginning, j - n, b1 + n, b2 + n);
        }
        assert(comp_views(seq![(c, b1 + a2, b1 + b2x)] + r1) =~= seq![c] + comp_views(r1));
        assert(comp_views(seq![(c, b2 + a, b2 + b)] + r2) =~= seq![c] + comp_views(r2));
    }
}

/// Occurrences of `.` are normalized away past the start: `./` put in right after a separator
/// leaves the components of a Unix path, by kind and by the bytes each stands for, as they were
/// (while `./` at the very start adds a `.` component)
pub proof fn law_current_dirs_ignored(p: Seq<u8>, j: int)
    requires
        1 <= j <= p.len(),
        is_sep(p[j - 1]),
    ensures
        parts::<UnixEncoding>(insert_at(insert_at(p, j, UNIX_SEPARATOR_BYTE), j, DOT_BYTE))
            == parts::<UnixEncoding>(p),
{
    let p1 = insert_at(p, j, UNIX_SEPARATOR_BYTE);
    lemma_insert_at_index(p, j, UNIX_SEPARATOR_BYTE);
    lemma_components_insert(p, State::AtBeginning, j, 0, 0);
    lemma_components_dot(p1, State::AtBeginning, j, 0, 0);
    lemma_parts_from_views(p);
    lemma_parts_from_views(insert_at(p1, j, DOT_BYTE));
}

} // verus!
