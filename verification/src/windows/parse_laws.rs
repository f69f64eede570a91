//! Laws of how Windows paths are split into components: past the prefix, repeated separators and
//! `.` components are ignored.
use vstd::prelude::*;

use crate::common::encoding::Encoding;
use crate::common::iter::span_bytes;
use crate::common::normalize::parts;
use crate::constants::{COLON_BYTE, DOT_BYTE, WINDOWS_SEPARATOR_BYTE};
use crate::parser::{
    insert_at, lemma_insert_at_index, lemma_insert_skip, lemma_run_len, lemma_run_len_bounds,
    lemma_run_len_insert_after_stop, run_len,
};
use crate::windows::component::WindowsComponentView;
use crate::windows::encoding::{lemma_windows_comps, windows_comps, windows_spans, WindowsEncoding};
use crate::windows::parser::{
    cur_dir_at, is_exact_verbatim, is_sep, lemma_front_wf, lemma_skip_from_bounds,
    is_suffix, lemma_prefix_suffix, lemma_share_suffix, sep_fn, skip_from, spec_after,
    spec_components, spec_filename, spec_front, spec_prefix, spec_prefix_device_ns, spec_prefix_unc,
    spec_prefix_verbatim, spec_prefix_verbatim_disk, spec_prefix_verbatim_unc, spec_root_or_name,
    spec_normal_bytes, spec_share, spec_verbatim, starts_with_unc, State,
};
use crate::windows::laws::{
    is_empty_verbatim, lemma_device_take, lemma_empty_verbatim_len, lemma_prefix_take,
    lemma_question_server, lemma_verbatim_disk_take, lemma_verbatim_family, lemma_verbatim_take_some,
    lemma_verbatim_unc_take,
};
use crate::windows::prefix::WindowsPrefixView;

verus! {

/// The components found, without their offsets
pub open spec fn comp_views(comps: Seq<(WindowsComponentView, int, int)>) -> Seq<
    WindowsComponentView,
> {
    comps.map_values(|t: (WindowsComponentView, int, int)| t.0)
}

/// What a component parser reads from `t` and from `t` with the byte `y` put in at offset `j`
/// agree: the same component, read from bytes before `j`, with `y` still to come after it
spec fn agrees_with_insert(
    parsed: Option<(Seq<u8>, WindowsComponentView)>,
    parsed_ins: Option<(Seq<u8>, WindowsComponentView)>,
    t: Seq<u8>,
    j: int,
    y: u8,
) -> bool {
    match parsed {
        None => parsed_ins is None,
        Some((rest, c)) => {
            let len = t.len() - rest.len();
            &&& 0 < len <= j
            &&& rest == t.skip(len)
            &&& parsed_ins == Some((insert_at(rest, j - len, y), c))
        },
    }
}

/// Names, `.`, `..` and the root are read the same once a byte is put in right after a
/// separator
proof fn lemma_names_insert(nz: bool, t: Seq<u8>, j: int, y: u8)
    requires
        1 <= j <= t.len(),
        is_sep(t[j - 1], nz),
    ensures
        agrees_with_insert(spec_filename(nz, t), spec_filename(nz, insert_at(t, j, y)), t, j, y),
        agrees_with_insert(
            spec_root_or_name(nz, t),
            spec_root_or_name(nz, insert_at(t, j, y)),
            t,
            j,
            y,
        ),
{
    let tt = insert_at(t, j, y);
    lemma_insert_at_index(t, j, y);
    lemma_run_len_insert_after_stop(t, sep_fn(nz), j, y);
    lemma_run_len_bounds(t, sep_fn(nz));
    let n = run_len(t, sep_fn(nz)) as int;
    assert(n <= j - 1);
    lemma_insert_skip(t, j, y, n);
    assert(tt.take(n) =~= t.take(n));
    lemma_insert_skip(t, j, y, 1);
    assert(tt[0] == t[0]);
    if j >= 2 {
        assert(tt[1] == t[1]);
        lemma_insert_skip(t, j, y, 2);
    }
    if j >= 3 {
        assert(tt[2] == t[2]);
    }
}

/// Skipping from past a put-in byte is skipping from one byte later
proof fn lemma_skip_shift(nz: bool, s: Seq<u8>, j: int, y: u8, q: int)
    requires
        0 <= j <= q <= s.len(),
    ensures
        skip_from(nz, insert_at(s, j, y), q + 1) == skip_from(nz, s, q) + 1,
    decreases s.len() - q,
{
    let t = insert_at(s, j, y);
    lemma_insert_at_index(s, j, y);
    if q < s.len() {
        assert(t[q + 1] == s[q]);
        if q + 1 < s.len() {
            assert(t[q + 2] == s[q + 1]);
        }
        assert(cur_dir_at(nz, t, q + 1) == cur_dir_at(nz, s, q));
        if is_sep(s[q], nz) || (nz && cur_dir_at(nz, s, q)) {
            lemma_skip_shift(nz, s, j, y, q + 1);
        }
    }
}

/// Skipping from before a backslash put in right after a separator (or at the start) stops at
/// the same place, or one byte later when it runs past it
proof fn lemma_skip_insert(nz: bool, s: Seq<u8>, j: int, q: int)
    requires
        0 <= q <= j <= s.len(),
        q < j ==> is_sep(s[j - 1], nz),
    ensures
        skip_from(nz, insert_at(s, j, WINDOWS_SEPARATOR_BYTE), q) == if skip_from(nz, s, q) >= j {
            skip_from(nz, s, q) + 1
        } else {
            skip_from(nz, s, q)
        },
    decreases j - q,
{
    let t = insert_at(s, j, WINDOWS_SEPARATOR_BYTE);
    lemma_insert_at_index(s, j, WINDOWS_SEPARATOR_BYTE);
    lemma_skip_from_bounds(nz, s, q);
    if q == j {
        assert(t[j] == WINDOWS_SEPARATOR_BYTE);
        assert(skip_from(nz, t, j) == skip_from(nz, t, j + 1));
        lemma_skip_shift(nz, s, j, WINDOWS_SEPARATOR_BYTE, j);
    } else {
        assert(t[q] == s[q]);
        if q + 1 < j {
            assert(t[q + 1] == s[q + 1]);
        }
        assert(cur_dir_at(nz, t, q) == cur_dir_at(nz, s, q));
        if is_sep(s[q], nz) || (nz && cur_dir_at(nz, s, q)) {
            lemma_skip_insert(nz, s, j, q + 1);
        }
    }
}

/// Skipping what follows a component agrees once a backslash is put in right after a separator
proof fn lemma_after_insert(
    parsed: Option<(Seq<u8>, WindowsComponentView)>,
    parsed_ins: Option<(Seq<u8>, WindowsComponentView)>,
    t: Seq<u8>,
    nz: bool,
    j: int,
)
    requires
        1 <= j <= t.len(),
        is_sep(t[j - 1], nz),
        agrees_with_insert(parsed, parsed_ins, t, j, WINDOWS_SEPARATOR_BYTE),
    ensures
        match spec_after(parsed, t, nz) {
            None => spec_after(parsed_ins, insert_at(t, j, WINDOWS_SEPARATOR_BYTE), nz) is None,
            Some((c, a, b, n, st)) => spec_after(
                parsed_ins,
                insert_at(t, j, WINDOWS_SEPARATOR_BYTE),
                nz,
            ) matches Some((c2, a2, b2, n2, st2)) && c2 == c && st2 == st && if j <= n {
                n2 == n + 1
            } else {
                n2 == n
            },
        },
{
    if let Some((rest, c)) = parsed {
        let len = t.len() - rest.len();
        let e = j - len;
        if e > 0 {
            assert(rest[e - 1] == t[j - 1]);
        }
        lemma_skip_insert(nz, rest, e, 0);
        lemma_skip_from_bounds(nz, rest, 0);
    }
}

/// A prefix takes at least two bytes: exactly two only for a disk such as `C:`, and exactly three
/// only where nothing follows it
pub(crate) proof fn lemma_prefix_min_len(s: Seq<u8>)
    requires
        spec_prefix(s) is Some,
    ensures
        spec_prefix(s) matches Some((r, _)) && s.len() - r.len() >= 2 && (s.len() - r.len() == 2
            ==> s[1] == COLON_BYTE) && (s.len() - r.len() == 3 ==> s.len() == 3),
{
    let nz = !is_exact_verbatim(s);
    lemma_prefix_suffix(s);
    if spec_prefix_verbatim_unc(s) is Some {
        assert(s.skip(4).skip(3).skip(1) =~= s.skip(8));
        let x = s.skip(8);
        lemma_run_len_bounds(x, sep_fn(nz));
        let k = run_len(x, sep_fn(nz)) as int;
        assert(x.skip(k) =~= s.skip(8 + k));
        lemma_share_suffix(nz, s.skip(8 + k), s);
        assert(is_suffix(s.skip(8 + k), s)) by {
            assert(s.skip(8 + k) =~= s.skip(s.len() - s.skip(8 + k).len()));
        }
    } else if spec_prefix_verbatim_disk(s) is Some {
        assert(s.skip(4).skip(2) =~= s.skip(6));
    } else if spec_prefix_verbatim(s) is Some {
        lemma_run_len_bounds(s.skip(4), sep_fn(nz));
    } else if spec_prefix_device_ns(s) is Some {
        lemma_run_len_bounds(s.skip(4), sep_fn(true));
    } else if spec_prefix_unc(s) is Some {
        let x = s.skip(2);
        lemma_run_len_bounds(x, sep_fn(true));
        let k = run_len(x, sep_fn(true)) as int;
        let t = x.skip(k);
        assert(t =~= s.skip(2 + k));
        assert(is_suffix(t, s)) by {
            assert(t =~= s.skip(s.len() - t.len()));
        }
        lemma_share_suffix(true, t, s);
        if t.len() > 0 {
            assert(t[0] == x[k]);
            lemma_run_len_bounds(t.skip(1), sep_fn(true));
            assert(spec_share(true, t).0.len() < t.len());
        }
    }
}

/// A path that starts with exactly `\\?\` has a prefix
proof fn lemma_exact_verbatim_has_prefix(x: Seq<u8>)
    requires
        is_exact_verbatim(x),
    ensures
        spec_prefix(x) is Some,
{
    if x.len() == 4 {
        lemma_question_server(x);
    } else {
        lemma_verbatim_family(x);
    }
}

/// A path without a prefix still has none once a backslash is put in past its first byte
proof fn lemma_no_prefix_insert(s: Seq<u8>, j: int)
    requires
        spec_prefix(s) is None,
        2 <= j <= s.len(),
    ensures
        spec_prefix(insert_at(s, j, WINDOWS_SEPARATOR_BYTE)) is None,
{
    let ss = insert_at(s, j, WINDOWS_SEPARATOR_BYTE);
    lemma_insert_at_index(s, j, WINDOWS_SEPARATOR_BYTE);
    assert(ss[0] == s[0] && ss[1] == s[1]);
    lemma_run_len_bounds(s.skip(2), sep_fn(true));
    if s.len() > 2 {
        assert(s.skip(2)[0] == s[2]);
    }
    if j > 2 {
        assert(ss[2] == s[2]);
    }
    lemma_run_len_bounds(ss.skip(2), sep_fn(true));
    assert(ss.skip(2)[0] == ss[2]);
}

/// A byte that separates components when `/` does not also separate them separates them when it
/// does
proof fn lemma_sep_any(b: u8, nz: bool)
    ensures
        is_sep(b, nz) ==> is_sep(b, true),
{
}

/// Server and share bytes hold no two separators in a row: within `\\SERVER\SHARE` as read from
/// `x` (what follows the leading bytes), a separator is followed by a share byte
proof fn lemma_server_share_no_double_sep(nz: bool, s: Seq<u8>, h: int, q: int)
    requires
        0 <= h <= s.len(),
        spec_normal_bytes(nz, s.skip(h)) matches Some((t, _)) && (h <= q && q + 1 < s.len()
            - spec_share(nz, t).0.len()),
    ensures
        !(is_sep(s[q], nz) && is_sep(s[q + 1], nz)),
{
    let x = s.skip(h);
    lemma_run_len_bounds(x, sep_fn(nz));
    let k = run_len(x, sep_fn(nz)) as int;
    let t = x.skip(k);
    assert(t =~= s.skip(h + k));
    if q < h + k {
        assert(s[q] == x[q - h]);
    } else {
        assert(t.len() > 0);
        assert(t[0] == x[k]);
        let t2 = t.skip(1);
        lemma_run_len_bounds(t2, sep_fn(nz));
        let k2 = run_len(t2, sep_fn(nz)) as int;
        if k2 == 0 {
            assert(spec_share(nz, t).0 == t2);
            assert(false);
        }
        assert(spec_share(nz, t).0 =~= t2.skip(k2));
        if q == h + k {
            assert(s[q + 1] == t2[0]);
        } else {
            assert(s[q] == t2[q - h - k - 1]);
        }
    }
}

/// Inside a prefix, past its first two bytes, no two separators follow each other
proof fn lemma_prefix_no_double_sep(s: Seq<u8>, q: int)
    requires
        spec_prefix(s) matches Some((r, _)) && 2 <= q && q + 1 < s.len() - r.len(),
    ensures
        !(is_sep(s[q], !is_exact_verbatim(s)) && is_sep(s[q + 1], !is_exact_verbatim(s))),
{
    let nz = !is_exact_verbatim(s);
    lemma_sep_any(s[q], nz);
    lemma_sep_any(s[q + 1], nz);
    lemma_prefix_suffix(s);
    if spec_prefix_verbatim_unc(s) is Some {
        assert(s.skip(4).skip(3).skip(1) =~= s.skip(8));
        assert(s.skip(4)[0] == s[4] && s.skip(4)[1] == s[5] && s.skip(4)[2] == s[6]);
        assert(s.skip(4).skip(3)[0] == s[7]);
        let x = s.skip(8);
        lemma_run_len_bounds(x, sep_fn(nz));
        if q >= 8 {
            lemma_server_share_no_double_sep(nz, s, 8, q);
        } else if q == 7 {
            assert(s[8] == x[0]);
        }
    } else if spec_prefix_verbatim_disk(s) is Some {
        assert(s.skip(4).skip(2) =~= s.skip(6));
        assert(s.skip(4)[0] == s[4] && s.skip(4)[1] == s[5]);
    } else if spec_prefix_verbatim(s) is Some {
        let x = s.skip(4);
        lemma_run_len_bounds(x, sep_fn(nz));
        if q >= 3 {
            assert(s[q + 1] == x[q - 3]);
        }
    } else if spec_prefix_device_ns(s) is Some {
        let x = s.skip(4);
        lemma_run_len_bounds(x, sep_fn(true));
        if q >= 3 {
            assert(s[q + 1] == x[q - 3]);
        }
    } else if spec_prefix_unc(s) is Some {
        lemma_server_share_no_double_sep(true, s, 2, q);
    }
}

/// A prefix is read the same once a backslash is put in right after a separator past it, and
/// whether the path starts with exactly `\\?\` does not change
proof fn lemma_prefix_insert(s: Seq<u8>, j: int)
    requires
        spec_prefix(s) is Some,
        s.len() - spec_prefix(s).unwrap().0.len() < j,
        j <= s.len(),
        is_sep(s[j - 1], !is_exact_verbatim(s)),
    ensures
        spec_prefix(s) matches Some((r, v)) && spec_prefix(insert_at(s, j, WINDOWS_SEPARATOR_BYTE))
            == Some((insert_at(r, j - (s.len() - r.len()), WINDOWS_SEPARATOR_BYTE), v)),
        is_exact_verbatim(insert_at(s, j, WINDOWS_SEPARATOR_BYTE)) == is_exact_verbatim(s),
{
    let ss = insert_at(s, j, WINDOWS_SEPARATOR_BYTE);
    lemma_prefix_suffix(s);
    lemma_insert_at_index(s, j, WINDOWS_SEPARATOR_BYTE);
    let (r, v) = spec_prefix(s).unwrap();
    let c = s.len() - r.len();
    lemma_prefix_min_len(s);
    lemma_prefix_suffix(s);
    // the first four bytes decide `\\?\`, and they are the same unless `j` is three
    if j >= 4 {
        assert(ss[0] == s[0] && ss[1] == s[1] && ss[2] == s[2] && ss[3] == s[3]);
    } else {
        assert(c == 2 && j == 3);
        assert(ss[1] == s[1]);
    }
    let nz = !is_exact_verbatim(s);
    assert(ss.take(j) =~= s.take(j));
    lemma_prefix_take(s, j);
    lemma_prefix_take(ss, j);
    lemma_prefix_suffix(ss);
    let (rs, vs) = spec_prefix(ss).unwrap();
    let cs = ss.len() - rs.len();
    if cs > j {
        assert(ss[j - 1] == s[j - 1]);
        assert(ss[j] == WINDOWS_SEPARATOR_BYTE);
        lemma_prefix_no_double_sep(ss, j - 1);
        assert(false);
    }
    if cs == j && is_empty_verbatim(vs) {
        lemma_empty_verbatim_len(ss);
        assert(j == 4);
        assert(s[0] == ss[0] && s[1] == ss[1] && s[2] == ss[2] && s[3] == ss[3]);
        assert(c >= 2 && c < 4);
        assert(s[1] != COLON_BYTE);
        assert(false);
    }
    let u = s.take(j);
    assert(ss.take(j) == u);
    assert(spec_prefix(u) == Some((u.skip(c), v)));
    assert(spec_prefix(u) == Some((u.skip(cs), vs)));
    assert(u.skip(c).len() == u.skip(cs).len());
    assert(cs == c);
    assert(rs == ss.skip(c));
    assert(r == s.skip(c));
    assert(ss.skip(c) =~= insert_at(r, j - c, WINDOWS_SEPARATOR_BYTE));
}

/// A backslash put in at offset `j` of `s` lands past the prefix of `s`, or, where `s` has none,
/// past its first byte (where, after a separator, it would start a UNC prefix)
pub open spec fn insert_past_prefix(s: Seq<u8>, j: int) -> bool {
    match spec_prefix(s) {
        Some((r, _)) => s.len() - r.len() < j,
        None => j >= 2,
    }
}

/// A parsing step reads the same component once a backslash is put in right after a separator
/// (past the prefix); it consumes one byte more when the backslash lands among the bytes it
/// consumed, and otherwise the same bytes
proof fn lemma_front_insert(s: Seq<u8>, state: State, nz: bool, j: int)
    requires
        1 <= j <= s.len(),
        is_sep(s[j - 1], nz),
        state == State::AtBeginning ==> nz == !is_exact_verbatim(s) && insert_past_prefix(s, j),
    ensures
        match spec_front(s, state, nz) {
            None => spec_front(insert_at(s, j, WINDOWS_SEPARATOR_BYTE), state, nz) is None,
            Some((c, a, b, n, st)) => spec_front(
                insert_at(s, j, WINDOWS_SEPARATOR_BYTE),
                state,
                nz,
            ) matches Some((c2, a2, b2, n2, st2)) && c2 == c && st2 == st && st != State::AtBeginning
                && if j <= n {
                n2 == n + 1
            } else {
                n2 == n
            },
        },
{
    reveal(spec_front);
    let ss = insert_at(s, j, WINDOWS_SEPARATOR_BYTE);
    lemma_names_insert(nz, s, j, WINDOWS_SEPARATOR_BYTE);
    if state == State::AtBeginning {
        if spec_prefix(s) is Some {
            lemma_prefix_suffix(s);
            lemma_prefix_insert(s, j);
            let (r, v) = spec_prefix(s).unwrap();
            let c = s.len() - r.len();
            assert(ss.take(c) =~= s.take(c));
        } else {
            lemma_no_prefix_insert(s, j);
            lemma_after_insert(spec_root_or_name(nz, s), spec_root_or_name(nz, ss), s, nz, j);
        }
    } else if state == State::SeenPrefix {
        lemma_after_insert(spec_root_or_name(nz, s), spec_root_or_name(nz, ss), s, nz, j);
    } else {
        lemma_after_insert(spec_filename(nz, s), spec_filename(nz, ss), s, nz, j);
    }
}

/// The components found do not depend on where their offsets are counted from
proof fn lemma_views_any_base(s: Seq<u8>, state: State, nz: bool, b1: int, b2: int)
    ensures
        comp_views(spec_components(s, state, nz, b1)) == comp_views(
            spec_components(s, state, nz, b2),
        ),
    decreases s.len(),
{
    if let Some((c, a, b, n, st)) = spec_front(s, state, nz) {
        if 0 < n <= s.len() {
            lemma_views_any_base(s.skip(n), st, nz, b1 + n, b2 + n);
            let r1 = spec_components(s.skip(n), st, nz, b1 + n);
            let r2 = spec_components(s.skip(n), st, nz, b2 + n);
            assert(comp_views(seq![(c, b1 + a, b1 + b)] + r1) =~= seq![c] + comp_views(r1));
            assert(comp_views(seq![(c, b2 + a, b2 + b)] + r2) =~= seq![c] + comp_views(r2));
        }
    }
}

/// The components are the same once a backslash is put in right after a separator past the
/// prefix
proof fn lemma_components_insert(s: Seq<u8>, state: State, nz: bool, j: int, b1: int, b2: int)
    requires
        1 <= j <= s.len(),
        is_sep(s[j - 1], nz),
        state == State::AtBeginning ==> nz == !is_exact_verbatim(s) && insert_past_prefix(s, j),
    ensures
        comp_views(spec_components(insert_at(s, j, WINDOWS_SEPARATOR_BYTE), state, nz, b1))
            == comp_views(spec_components(s, state, nz, b2)),
    decreases s.len(),
{
    let ss = insert_at(s, j, WINDOWS_SEPARATOR_BYTE);
    lemma_insert_at_index(s, j, WINDOWS_SEPARATOR_BYTE);
    lemma_front_insert(s, state, nz, j);
    lemma_front_wf(s, state, nz);
    if let Some((c, a, b, n, st)) = spec_front(s, state, nz) {
        let (c2, a2, b2x, n2, st2) = spec_front(ss, state, nz).unwrap();
        let r1 = spec_components(ss.skip(n2), st, nz, b1 + n2);
        let r2 = spec_components(s.skip(n), st, nz, b2 + n);
        if j <= n {
            assert(ss.skip(n + 1) =~= s.skip(n));
            lemma_views_any_base(s.skip(n), st, nz, b1 + n + 1, b2 + n);
        } else {
            lemma_insert_skip(s, j, WINDOWS_SEPARATOR_BYTE, n);
            assert(s.skip(n)[j - n - 1] == s[j - 1]);
            lemma_components_insert(s.skip(n), st, nz, j - n, b1 + n, b2 + n);
        }
        assert(comp_views(seq![(c, b1 + a2, b1 + b2x)] + r1) =~= seq![c] + comp_views(r1));
        assert(comp_views(seq![(c, b2 + a, b2 + b)] + r2) =~= seq![c] + comp_views(r2));
    }
}

/// The parts of a Windows path are its components by kind and the bytes each stands for
proof fn lemma_parts_from_views(p: Seq<u8>)
    ensures
        parts::<WindowsEncoding>(p) == comp_views(windows_comps(p)).map_values(
            |v: WindowsComponentView| (v.kind(), v.bytes()),
        ),
{
    lemma_windows_comps(p);
    let comps = windows_comps(p);
    let spans = windows_spans(p);
    assert forall|i: int| 0 <= i < spans.len() implies #[trigger] span_bytes::<WindowsEncoding>(
        p,
        spans[i],
    ) == comps[i].0.bytes() by {
        assert(spans[i] == (comps[i].0.kind(), comps[i].1, comps[i].2));
    }
    assert(parts::<WindowsEncoding>(p) =~= comp_views(comps).map_values(
        |v: WindowsComponentView| (v.kind(), v.bytes()),
    ));
}

/// Repeated separators are ignored past the prefix: a backslash put in right after a separator
/// leaves the components of a Windows path, by kind and by the bytes each stands for, as they
/// were, where it lands past the path's prefix (or, in a path without one, past its first byte)
pub proof fn law_repeated_separators_ignored(p: Seq<u8>, j: int)
    requires
        1 <= j <= p.len(),
        is_sep(p[j - 1], !is_exact_verbatim(p)),
        insert_past_prefix(p, j),
    ensures
        parts::<WindowsEncoding>(insert_at(p, j, WINDOWS_SEPARATOR_BYTE)) == parts::<
            WindowsEncoding,
        >(p),
{
    let pp = insert_at(p, j, WINDOWS_SEPARATOR_BYTE);
    lemma_insert_at_index(p, j, WINDOWS_SEPARATOR_BYTE);
    let nz = !is_exact_verbatim(p);
    lemma_insert_keeps_verbatim(p, j);
    lemma_components_insert(p, State::AtBeginning, nz, j, 0, 0);
    lemma_parts_from_views(p);
    lemma_parts_from_views(pp);
}

/// Skipping separators and `.` components from before a `.` put in between two separators (or
/// put in at the start, before a separator) stops at the same place, or one byte later when it
/// runs past it
proof fn lemma_skip_dot(s: Seq<u8>, j: int, q: int)
    requires
        0 <= q <= j < s.len(),
        is_sep(s[j], true),
        q < j ==> is_sep(s[j - 1], true),
    ensures
        skip_from(true, insert_at(s, j, DOT_BYTE), q) == if skip_from(true, s, q) >= j {
            skip_from(true, s, q) + 1
        } else {
            skip_from(true, s, q)
        },
    decreases j - q,
{
    let t = insert_at(s, j, DOT_BYTE);
    lemma_insert_at_index(s, j, DOT_BYTE);
    lemma_skip_from_bounds(true, s, q);
    if q == j {
        assert(t[j] == DOT_BYTE);
        assert(t[j + 1] == s[j]);
        assert(cur_dir_at(true, t, j));
        assert(skip_from(true, t, j) == skip_from(true, t, j + 1));
        assert(skip_from(true, s, j) == skip_from(true, s, j + 1));
        lemma_skip_from_bounds(true, s, j + 1);
        lemma_skip_shift(true, s, j, DOT_BYTE, j);
    } else {
        assert(t[q] == s[q]);
        if q + 1 < j {
            assert(t[q + 1] == s[q + 1]);
        }
        assert(cur_dir_at(true, t, q) == cur_dir_at(true, s, q));
        if is_sep(s[q], true) || cur_dir_at(true, s, q) {
            lemma_skip_dot(s, j, q + 1);
        }
    }
}

/// Skipping what follows a component agrees once a `.` is put in between two separators
proof fn lemma_after_dot(
    parsed: Option<(Seq<u8>, WindowsComponentView)>,
    parsed_ins: Option<(Seq<u8>, WindowsComponentView)>,
    t: Seq<u8>,
    j: int,
)
    requires
        1 <= j < t.len(),
        is_sep(t[j - 1], true),
        is_sep(t[j], true),
        agrees_with_insert(parsed, parsed_ins, t, j, DOT_BYTE),
    ensures
        match spec_after(parsed, t, true) {
            None => spec_after(parsed_ins, insert_at(t, j, DOT_BYTE), true) is None,
            Some((c, a, b, n, st)) => spec_after(parsed_ins, insert_at(t, j, DOT_BYTE), true) matches Some(
                (c2, a2, b2, n2, st2),
            ) && c2 == c && st2 == st && if j <= n {
                n2 == n + 1
            } else {
                n2 == n
            },
        },
{
    if let Some((rest, c)) = parsed {
        let len = t.len() - rest.len();
        let e = j - len;
        if e > 0 {
            assert(rest[e - 1] == t[j - 1]);
        }
        assert(rest[e] == t[j]);
        lemma_skip_dot(rest, e, 0);
        lemma_skip_from_bounds(true, rest, 0);
    }
}

/// A path without a prefix still has none once a `.` is put in past its first three bytes
proof fn lemma_no_prefix_dot(s: Seq<u8>, j: int)
    requires
        spec_prefix(s) is None,
        3 <= j <= s.len(),
    ensures
        spec_prefix(insert_at(s, j, DOT_BYTE)) is None,
{
    let d = insert_at(s, j, DOT_BYTE);
    lemma_insert_at_index(s, j, DOT_BYTE);
    assert(d[0] == s[0] && d[1] == s[1] && d[2] == s[2]);
    lemma_run_len_bounds(s.skip(2), sep_fn(true));
    assert(s.skip(2)[0] == s[2]);
    lemma_run_len_bounds(d.skip(2), sep_fn(true));
    assert(d.skip(2)[0] == d[2]);
}

/// `\\`, a server and a separator, with nothing after it, is a UNC prefix that takes all of it
proof fn lemma_unc_server_sep(u: Seq<u8>)
    requires
        u.len() >= 4,
        is_sep(u[0], true) && is_sep(u[1], true),
        forall|i: int| 2 <= i < u.len() - 1 ==> !is_sep(#[trigger] u[i], true),
        is_sep(u[u.len() - 1], true),
    ensures
        spec_prefix_unc(u) matches Some((rest, _)) && rest.len() == 0,
{
    let x = u.skip(2);
    lemma_run_len(x, sep_fn(true), x.len() - 1);
    let t = x.skip(x.len() - 1);
    assert(t.len() == 1);
    assert(t[0] == u[u.len() - 1]);
    assert(t.skip(1).len() == 0);
    assert(run_len(t.skip(1), sep_fn(true)) == 0);
}

/// `\\?\UNC\`, a server and a separator, with nothing after it, is a verbatim UNC prefix that
/// takes all of it
proof fn lemma_verbatim_unc_server_sep(u: Seq<u8>)
    requires
        u.len() >= 10,
        spec_prefix_verbatim_unc(u) is Some || (spec_verbatim(u) is Some && starts_with_unc(
            u.skip(4),
        ) && is_sep(u[7], !is_exact_verbatim(u))),
        forall|i: int| 8 <= i < u.len() - 1 ==> !is_sep(#[trigger] u[i], !is_exact_verbatim(u)),
        is_sep(u[u.len() - 1], !is_exact_verbatim(u)),
    ensures
        spec_prefix_verbatim_unc(u) matches Some((rest, _)) && rest.len() == 0,
{
    let nz = !is_exact_verbatim(u);
    assert(u.skip(4).skip(3).skip(1) =~= u.skip(8));
    assert(u.skip(4).skip(3)[0] == u[7]);
    let x = u.skip(8);
    lemma_run_len(x, sep_fn(nz), x.len() - 1);
    let t = x.skip(x.len() - 1);
    assert(t.len() == 1);
    assert(t[0] == u[u.len() - 1]);
    assert(t.skip(1).len() == 0);
    assert(run_len(t.skip(1), sep_fn(nz)) == 0);
}

/// The name `UNC` that a verbatim prefix such as `//?/UNC` holds
pub open spec fn unc_name() -> Seq<u8> {
    seq![85u8, 78u8, 67u8]
}

/// Once a `.` is put in between two separators past the prefix of a path that does not start with
/// exactly `\\?\`, the prefix read takes no more than the bytes before the `.` (unless the
/// prefix is the verbatim name `UNC` and the `.` follows it right away)
#[verifier::rlimit(60)]
proof fn lemma_prefix_dot_bound(s: Seq<u8>, j: int)
    requires
        spec_prefix(s) is Some,
        s.len() - spec_prefix(s).unwrap().0.len() < j < s.len(),
        !is_exact_verbatim(s),
        is_sep(s[j - 1], true),
        is_sep(s[j], true),
        !(j == s.len() - spec_prefix(s).unwrap().0.len() + 1 && spec_prefix(s).unwrap().1
            == WindowsPrefixView::Verbatim(unc_name())),
    ensures
        spec_prefix(insert_at(s, j, DOT_BYTE)) matches Some((rd, vd)) && s.len() + 1 - rd.len()
            <= j && !(s.len() + 1 - rd.len() == j && is_empty_verbatim(vd)),
{
    let d = insert_at(s, j, DOT_BYTE);
    lemma_prefix_suffix(s);
    lemma_insert_at_index(s, j, DOT_BYTE);
    lemma_prefix_min_len(s);
    let (r, v) = spec_prefix(s).unwrap();
    let c = s.len() - r.len();
    let u = d.take(j);
    assert(u =~= s.take(j));
    lemma_prefix_take(s, j);
    lemma_prefix_take(d, j);
    assert(spec_prefix(u) == Some((u.skip(c), v)));
    lemma_prefix_suffix(d);
    let (rd, vd) = spec_prefix(d).unwrap();
    let cd = d.len() - rd.len();
    if j >= 4 {
        assert(d[0] == s[0] && d[1] == s[1] && d[2] == s[2] && d[3] == s[3]);
    } else {
        assert(d[1] == s[1]);
    }
    lemma_prefix_no_dot_after_sep(d, s, j, c);
}

/// The only separator a server and share read from offset `h` take is the one between them
proof fn lemma_server_share_sep_at(nz: bool, d: Seq<u8>, h: int, q: int)
    requires
        0 <= h <= d.len(),
        spec_normal_bytes(nz, d.skip(h)) matches Some((t, _)) && (h <= q && q < d.len()
            - spec_share(nz, t).0.len()),
        is_sep(d[q], nz),
    ensures
        q == h + run_len(d.skip(h), sep_fn(nz)),
        forall|i: int| h <= i < q ==> !is_sep(#[trigger] d[i], nz),
{
    let x = d.skip(h);
    lemma_run_len_bounds(x, sep_fn(nz));
    let k = run_len(x, sep_fn(nz)) as int;
    let t = x.skip(k);
    assert(t =~= d.skip(h + k));
    if q < h + k {
        assert(d[q] == x[q - h]);
    } else if q > h + k {
        assert(t.len() > 0);
        assert(t[0] == x[k]);
        let t2 = t.skip(1);
        lemma_run_len_bounds(t2, sep_fn(nz));
        let k2 = run_len(t2, sep_fn(nz)) as int;
        if k2 == 0 {
            assert(spec_share(nz, t).0 == t2);
        } else {
            assert(spec_share(nz, t).0 =~= t2.skip(k2));
        }
        assert(d[q] == t2[q - h - k - 1]);
    }
    assert forall|i: int| h <= i < q implies !is_sep(#[trigger] d[i], nz) by {
        assert(d[i] == x[i - h]);
    }
}

/// A `.` put in between two separators past a path's prefix is not taken into the prefix (unless
/// the prefix is the verbatim name `UNC`, followed right away by the `.`)
#[verifier::rlimit(80)]
proof fn lemma_prefix_no_dot_after_sep(d: Seq<u8>, s: Seq<u8>, j: int, c: int)
    requires
        d == insert_at(s, j, DOT_BYTE),
        spec_prefix(s) matches Some((r, v)) && c == s.len() - r.len() && !(j == c + 1 && v
            == WindowsPrefixView::Verbatim(unc_name())),
        2 <= c < j < s.len(),
        c == 2 ==> s[1] == COLON_BYTE,
        c == 3 ==> s.len() == 3,
        !is_exact_verbatim(s),
        !is_exact_verbatim(d),
        is_sep(s[j - 1], true),
        is_sep(s[j], true),
        spec_prefix(d.take(j)) == Some((d.take(j).skip(c), spec_prefix(s).unwrap().1)),
        spec_prefix(d) is Some,
    ensures
        spec_prefix(d) matches Some((rd, vd)) && d.len() - rd.len() <= j && !(d.len() - rd.len() == j
            && is_empty_verbatim(vd)),
{
    lemma_insert_at_index(s, j, DOT_BYTE);
    lemma_prefix_suffix(d);
    let (rd, vd) = spec_prefix(d).unwrap();
    let cd = d.len() - rd.len();
    if cd > j || (cd == j && is_empty_verbatim(vd)) {
        let u = d.take(j);
        assert(d[j - 1] == s[j - 1]);
        assert(d[1] == s[1] && d[2] == s[2]);
        if j == 4 {
            assert(c == 2);
            assert(d[1] == COLON_BYTE);
            assert(false);
        }
        if spec_prefix_verbatim_unc(d) is Some {
            assert(d.skip(4).skip(3).skip(1) =~= d.skip(8));
            assert(d.skip(4)[0] == d[4] && d.skip(4)[1] == d[5] && d.skip(4)[2] == d[6]);
            assert(d.skip(4).skip(3)[0] == d[7]);
            if j - 1 >= 8 {
                lemma_server_share_sep_at(true, d, 8, j - 1);
                assert(u.skip(4).skip(3).skip(1) =~= u.skip(8));
                assert(u[0] == d[0] && u[1] == d[1] && u[2] == d[2] && u[3] == d[3] && u[4] == d[4]
                    && u[5] == d[5] && u[6] == d[6] && u[7] == d[7]);
                assert(u.skip(4)[0] == d[4] && u.skip(4)[1] == d[5] && u.skip(4)[2] == d[6]);
                assert(is_exact_verbatim(u) == is_exact_verbatim(d));
                assert forall|i: int| 8 <= i < u.len() - 1 implies !is_sep(#[trigger] u[i], !is_exact_verbatim(u)) by {
                    assert(u[i] == d[i]);
                }
                lemma_verbatim_unc_server_sep(u);
                assert(u.skip(c).len() == 0);
                assert(false);
            } else if j == 8 {
                // `s` starts with `\\?\UNC` and a separator, then another: a verbatim name `UNC`
                let x = s.skip(4);
                assert(x[0] == s[4] && x[1] == s[5] && x[2] == s[6] && x[3] == s[7]);
                assert(s[4] == d[4] && s[5] == d[5] && s[6] == d[6] && s[7] == d[7]);
                lemma_run_len(x, sep_fn(true), 3);
                assert(s.skip(4).skip(3).skip(1) =~= s.skip(8));
                assert(s.skip(8)[0] == s[8]);
                assert(run_len(s.skip(8), sep_fn(true)) == 0);
                assert(x.take(3) =~= unc_name());
                assert(false);
            }
        } else if spec_prefix_verbatim_disk(d) is Some {
            assert(d.skip(4)[0] == d[4]);
        } else if spec_prefix_verbatim(d) is Some {
            let x = d.skip(4);
            lemma_run_len_bounds(x, sep_fn(true));
            if j - 1 >= 4 {
                assert(d[j - 1] == x[j - 5]);
            }
        } else if spec_prefix_device_ns(d) is Some {
            let x = d.skip(4);
            lemma_run_len_bounds(x, sep_fn(true));
            if j - 1 >= 4 {
                assert(d[j - 1] == x[j - 5]);
            }
        } else if spec_prefix_unc(d) is Some {
            lemma_server_share_sep_at(true, d, 2, j - 1);
            assert(u[0] == d[0] && u[1] == d[1]);
            assert forall|i: int| 2 <= i < u.len() - 1 implies !is_sep(#[trigger] u[i], true) by {
                assert(u[i] == d[i]);
            }
            lemma_unc_server_sep(u);
            lemma_verbatim_unc_take(d, j);
            lemma_verbatim_disk_take(d, j);
            lemma_device_take(d, j);
            if spec_prefix_verbatim(u) is Some {
                lemma_verbatim_take_some(d, j);
                lemma_verbatim_family(d);
            }
            assert(u.skip(c).len() == 0);
            assert(false);
        }
    }
}

/// A `.` put in at offset `j` of `s` lands past the prefix of `s` (and not right after a verbatim
/// prefix named `UNC`, which it would turn into a verbatim UNC prefix), or, where `s` has none,
/// past its first three bytes (where it could make a device or UNC prefix)
pub open spec fn dot_past_prefix(s: Seq<u8>, j: int) -> bool {
    match spec_prefix(s) {
        Some((r, v)) => s.len() - r.len() < j && !(j == s.len() - r.len() + 1 && v
            == WindowsPrefixView::Verbatim(unc_name())),
        None => j >= 3,
    }
}

/// A prefix is read the same once a `.` is put in between two separators past it
proof fn lemma_prefix_dot(s: Seq<u8>, j: int)
    requires
        spec_prefix(s) is Some,
        dot_past_prefix(s, j),
        j < s.len(),
        !is_exact_verbatim(s),
        is_sep(s[j - 1], true),
        is_sep(s[j], true),
    ensures
        spec_prefix(s) matches Some((r, v)) && spec_prefix(insert_at(s, j, DOT_BYTE)) == Some(
            (insert_at(r, j - (s.len() - r.len()), DOT_BYTE), v),
        ),
        !is_exact_verbatim(insert_at(s, j, DOT_BYTE)),
{
    let d = insert_at(s, j, DOT_BYTE);
    lemma_prefix_suffix(s);
    lemma_insert_at_index(s, j, DOT_BYTE);
    lemma_prefix_min_len(s);
    let (r, v) = spec_prefix(s).unwrap();
    let c = s.len() - r.len();
    if j >= 4 {
        assert(d[0] == s[0] && d[1] == s[1] && d[2] == s[2] && d[3] == s[3]);
    } else {
        assert(d[1] == s[1]);
    }
    lemma_prefix_dot_bound(s, j);
    let u = d.take(j);
    assert(u =~= s.take(j));
    lemma_prefix_take(s, j);
    lemma_prefix_take(d, j);
    lemma_prefix_suffix(d);
    let (rd, vd) = spec_prefix(d).unwrap();
    let cd = d.len() - rd.len();
    assert(spec_prefix(u) == Some((u.skip(c), v)));
    assert(spec_prefix(u) == Some((u.skip(cd), vd)));
    assert(u.skip(c).len() == u.skip(cd).len());
    assert(cd == c);
    assert(rd == d.skip(c));
    assert(r == s.skip(c));
    assert(d.skip(c) =~= insert_at(r, j - c, DOT_BYTE));
}

/// A parsing step (where `.` components are skipped) reads the same component once a `.` is put
/// in between two separators past the prefix; it consumes one byte more when the `.` lands among
/// the bytes it consumed, and otherwise the same bytes
proof fn lemma_front_dot(s: Seq<u8>, state: State, j: int)
    requires
        1 <= j < s.len(),
        is_sep(s[j - 1], true),
        is_sep(s[j], true),
        state == State::AtBeginning ==> !is_exact_verbatim(s) && dot_past_prefix(s, j),
    ensures
        match spec_front(s, state, true) {
            None => spec_front(insert_at(s, j, DOT_BYTE), state, true) is None,
            Some((c, a, b, n, st)) => spec_front(insert_at(s, j, DOT_BYTE), state, true) matches Some(
                (c2, a2, b2, n2, st2),
            ) && c2 == c && st2 == st && st != State::AtBeginning && if j <= n {
                n2 == n + 1
            } else {
                n2 == n
            },
        },
{
    reveal(spec_front);
    let d = insert_at(s, j, DOT_BYTE);
    lemma_names_insert(true, s, j, DOT_BYTE);
    if state == State::AtBeginning {
        if spec_prefix(s) is Some {
            lemma_prefix_suffix(s);
            lemma_prefix_dot(s, j);
            let (r, v) = spec_prefix(s).unwrap();
            let c = s.len() - r.len();
            assert(d.take(c) =~= s.take(c));
        } else {
            lemma_no_prefix_dot(s, j);
            lemma_after_dot(spec_root_or_name(true, s), spec_root_or_name(true, d), s, j);
        }
    } else if state == State::SeenPrefix {
        lemma_after_dot(spec_root_or_name(true, s), spec_root_or_name(true, d), s, j);
    } else {
        lemma_after_dot(spec_filename(true, s), spec_filename(true, d), s, j);
    }
}

/// The components (where `.` components are skipped) are the same once a `.` is put in between
/// two separators past the prefix
proof fn lemma_components_dot(s: Seq<u8>, state: State, j: int, b1: int, b2: int)
    requires
        1 <= j < s.len(),
        is_sep(s[j - 1], true),
        is_sep(s[j], true),
        state == State::AtBeginning ==> !is_exact_verbatim(s) && dot_past_prefix(s, j),
    ensures
        comp_views(spec_components(insert_at(s, j, DOT_BYTE), state, true, b1)) == comp_views(
            spec_components(s, state, true, b2),
        ),
    decreases s.len(),
{
    let d = insert_at(s, j, DOT_BYTE);
    lemma_insert_at_index(s, j, DOT_BYTE);
    lemma_front_dot(s, state, j);
    lemma_front_wf(s, state, true);
    if let Some((c, a, b, n, st)) = spec_front(s, state, true) {
        let (c2, a2, b2x, n2, st2) = spec_front(d, state, true).unwrap();
        let r1 = spec_components(d.skip(n2), st, true, b1 + n2);
        let r2 = spec_components(s.skip(n), st, true, b2 + n);
        if j <= n {
            assert(d.skip(n + 1) =~= s.skip(n));
            lemma_views_any_base(s.skip(n), st, true, b1 + n + 1, b2 + n);
        } else {
            lemma_insert_skip(s, j, DOT_BYTE, n);
            assert(s.skip(n)[j - n - 1] == s[j - 1]);
            assert(s.skip(n)[j - n] == s[j]);
            lemma_components_dot(s.skip(n), st, j - n, b1 + n, b2 + n);
        }
        assert(comp_views(seq![(c, b1 + a2, b1 + b2x)] + r1) =~= seq![c] + comp_views(r1));
        assert(comp_views(seq![(c, b2 + a, b2 + b)] + r2) =~= seq![c] + comp_views(r2));
    }
}

/// Putting a backslash in past the prefix keeps whether a path starts with exactly `\\?\`
proof fn lemma_insert_keeps_verbatim(p: Seq<u8>, j: int)
    requires
        1 <= j <= p.len(),
        is_sep(p[j - 1], !is_exact_verbatim(p)),
        insert_past_prefix(p, j),
    ensures
        is_exact_verbatim(insert_at(p, j, WINDOWS_SEPARATOR_BYTE)) == is_exact_verbatim(p),
{
    let pp = insert_at(p, j, WINDOWS_SEPARATOR_BYTE);
    lemma_insert_at_index(p, j, WINDOWS_SEPARATOR_BYTE);
    if spec_prefix(p) is Some {
        lemma_prefix_suffix(p);
        lemma_prefix_insert(p, j);
    } else {
        lemma_no_prefix_insert(p, j);
        if j >= 4 {
            assert(pp[0] == p[0] && pp[1] == p[1] && pp[2] == p[2] && pp[3] == p[3]);
        } else {
            if is_exact_verbatim(pp) {
                lemma_exact_verbatim_has_prefix(pp);
            }
            if is_exact_verbatim(p) {
                lemma_exact_verbatim_has_prefix(p);
            }
        }
    }
}

/// Occurrences of `.` are normalized away past the prefix: in a Windows path that does not start
/// with exactly `\\?\` (where `.` components are kept), `.` and a backslash put in right after a
/// separator leave the components, by kind and by the bytes each stands for, as they were, where
/// they land past the path's prefix and do not make a new one
pub proof fn law_current_dirs_ignored(p: Seq<u8>, j: int)
    requires
        !is_exact_verbatim(p),
        1 <= j <= p.len(),
        is_sep(p[j - 1], true),
        dot_past_prefix(p, j),
    ensures
        parts::<WindowsEncoding>(
            insert_at(insert_at(p, j, WINDOWS_SEPARATOR_BYTE), j, DOT_BYTE),
        ) == parts::<WindowsEncoding>(p),
{
    let p1 = insert_at(p, j, WINDOWS_SEPARATOR_BYTE);
    let p2 = insert_at(p1, j, DOT_BYTE);
    lemma_insert_at_index(p, j, WINDOWS_SEPARATOR_BYTE);
    lemma_insert_keeps_verbatim(p, j);
    lemma_components_insert(p, State::AtBeginning, true, j, 0, 0);
    if spec_prefix(p) is Some {
        lemma_prefix_suffix(p);
        lemma_prefix_insert(p, j);
    } else {
        lemma_no_prefix_insert(p, j);
    }
    assert(dot_past_prefix(p1, j));
    lemma_components_dot(p1, State::AtBeginning, j, 0, 0);
    lemma_prefix_dot_keeps_verbatim(p1, j);
    lemma_parts_from_views(p);
    lemma_parts_from_views(p2);
}

/// Putting a `.` in past the prefix keeps a path from starting with exactly `\\?\`
proof fn lemma_prefix_dot_keeps_verbatim(s: Seq<u8>, j: int)
    requires
        1 <= j < s.len(),
        is_sep(s[j - 1], true),
        is_sep(s[j], true),
        !is_exact_verbatim(s),
        dot_past_prefix(s, j),
    ensures
        !is_exact_verbatim(insert_at(s, j, DOT_BYTE)),
{
    let d = insert_at(s, j, DOT_BYTE);
    lemma_insert_at_index(s, j, DOT_BYTE);
    if spec_prefix(s) is Some {
        lemma_prefix_suffix(s);
        lemma_prefix_dot(s, j);
    } else {
        lemma_no_prefix_dot(s, j);
        if j >= 4 {
            assert(d[0] == s[0] && d[1] == s[1] && d[2] == s[2] && d[3] == s[3]);
        } else if is_exact_verbatim(d) {
            lemma_exact_verbatim_has_prefix(d);
        }
    }
}

} // verus!
