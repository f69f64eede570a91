//! Laws of Windows paths that relate several operations.
use vstd::prelude::*;

use crate::parser::{lemma_run_len, lemma_run_len_bounds, lemma_run_len_push, lemma_run_len_take, min, run_len};
use crate::constants::WINDOWS_SEPARATOR_BYTE;
use crate::common::iter::span_bytes;
use crate::common::normalize::parts;
use crate::windows::parse_laws::comp_views;
use crate::windows::component::WindowsComponentView;
use crate::windows::prefix::WindowsPrefixView;
use crate::windows::parser::{
    cur_dir_at, ends_component, is_exact_verbatim, is_sep, is_suffix, lemma_prefix_suffix,
    lemma_share_suffix,
    lemma_skip_from_bounds, sep_fn, skip_from, spec_cur_dir, spec_disk_byte, spec_filename,
    spec_normal, spec_normal_bytes, spec_parent_dir, spec_prefix, spec_prefix_device_ns,
    spec_prefix_disk, spec_prefix_unc, spec_prefix_verbatim, spec_prefix_verbatim_disk,
    spec_prefix_verbatim_unc, spec_root_dir, spec_root_or_name, spec_separator, spec_share,
    spec_verbatim, starts_with_unc, spec_front, spec_after, spec_components, spec_prefix_component,
    lemma_front_wf, State, end_before_last_component,
};
use crate::common::path::spec_parent;
use crate::common::components::end_before_last;
use crate::common::checked::{spec_check, CheckedPathError};
use crate::common::encoding::Encoding;
use crate::windows::components::{first_of, prefix_of};
use crate::windows::encoding::start_of;
use crate::windows::encoding::{windows_comps, windows_spans, WindowsEncoding};

verus! {

/// Bytes up to a separator read from a prefix of the input that still holds them are the same
proof fn lemma_normal_bytes_take(nz: bool, t: Seq<u8>, p: int)
    requires
        0 <= p <= t.len(),
    ensures
        spec_normal_bytes(nz, t.take(p)) is Some ==> spec_normal_bytes(nz, t) is Some,
        spec_normal_bytes(nz, t) matches Some((rest, v)) ==> (t.len() - rest.len() <= p
            ==> spec_normal_bytes(nz, t.take(p)) == Some((t.take(p).skip(t.len() - rest.len()), v))),
{
    lemma_run_len_bounds(t, sep_fn(nz));
    lemma_run_len_take(t, sep_fn(nz), p);
    let l = run_len(t, sep_fn(nz)) as int;
    if l <= p {
        assert(t.take(p).take(l) =~= t.take(l));
    }
}

/// Skipping separators and `.` components in a prefix of the input stops where it does in the
/// whole input, or at the end of the prefix
proof fn lemma_skip_from_take(nz: bool, s: Seq<u8>, i: int, q: int)
    requires
        0 <= i <= q <= s.len(),
        i <= skip_from(nz, s, i),
        skip_from(nz, s, i) < q && nz && s[skip_from(nz, s, i)] == 46 ==> skip_from(nz, s, i) + 1
            < q,
    ensures
        skip_from(nz, s.take(q), i) == min(skip_from(nz, s, i), q),
    decreases s.len() - i,
{
    let t = s.take(q);
    if i < q {
        assert(t[i] == s[i]);
        if i + 1 < q {
            assert(t[i + 1] == s[i + 1]);
        }
    }
    if 0 <= i < s.len() && (is_sep(s[i], nz) || (nz && cur_dir_at(nz, s, i))) {
        lemma_skip_from_bounds(nz, s, i + 1);
        if i < q {
            lemma_skip_from_take(nz, s, i + 1, q);
        }
    }
}

/// A file name read from a prefix of the input that still holds it is the same
proof fn lemma_filename_take(nz: bool, t: Seq<u8>, p: int)
    requires
        spec_filename(nz, t) matches Some((rest, c)) && t.len() - rest.len() <= p <= t.len(),
    ensures
        spec_filename(nz, t.take(p)) matches Some((rest2, c2)) && spec_filename(nz, t) matches Some(
            (rest, c),
        ) && c2 == c && rest2 == t.take(p).skip(t.len() - rest.len()),
{
    let u = t.take(p);
    lemma_run_len_bounds(t, sep_fn(nz));
    lemma_normal_bytes_take(nz, t, p);
    if p >= 1 {
        assert(u[0] == t[0]);
    }
    if p >= 2 {
        assert(u[1] == t[1]);
    }
    if p >= 3 {
        assert(u[2] == t[2]);
    }
    if spec_parent_dir(nz, t) is Some {
        assert(spec_parent_dir(nz, u) is Some);
    } else if !nz && spec_cur_dir(nz, t) is Some {
        assert(spec_cur_dir(nz, u) is Some);
        if spec_parent_dir(nz, u) is Some {
            assert(false);
        }
    } else {
        if spec_parent_dir(nz, u) is Some {
            assert(run_len(t, sep_fn(nz)) >= 3) by {
                assert(t.drop_first()[0] == t[1]);
                assert(t.drop_first().drop_first()[0] == t[2]);
            }
            assert(false);
        }
        if !nz && spec_cur_dir(nz, u) is Some {
            assert(run_len(t, sep_fn(nz)) >= 2) by {
                assert(t.drop_first()[0] == t[1]);
            }
            assert(false);
        }
    }
}

/// A root, `.` or file name read from a prefix of the input that still holds it is the same
proof fn lemma_root_or_name_take(nz: bool, t: Seq<u8>, p: int)
    requires
        spec_root_or_name(nz, t) matches Some((rest, c)) && t.len() - rest.len() <= p <= t.len(),
    ensures
        spec_root_or_name(nz, t.take(p)) matches Some((rest2, c2)) && spec_root_or_name(nz, t) matches Some(
            (rest, c),
        ) && c2 == c && rest2 == t.take(p).skip(t.len() - rest.len()),
{
    let u = t.take(p);
    lemma_run_len_bounds(t, sep_fn(nz));
    lemma_normal_bytes_take(nz, t, p);
    if p >= 1 {
        assert(u[0] == t[0]);
    }
    if p >= 2 {
        assert(u[1] == t[1]);
    }
    if spec_root_dir(nz, t) is Some {
        assert(spec_root_dir(nz, u) is Some);
    } else if spec_cur_dir(nz, t) is Some {
        assert(spec_cur_dir(nz, u) is Some);
    } else {
        lemma_filename_take(nz, t, p);
        if spec_cur_dir(nz, u) is Some {
            assert(run_len(t, sep_fn(nz)) >= 2) by {
                assert(t.drop_first()[0] == t[1]);
            }
            if spec_parent_dir(nz, t) is Some {
                assert(false);
            }
            assert(false);
        }
    }
}

/// The optional share read from a prefix of the input that still holds it is the same
proof fn lemma_share_take(nz: bool, t: Seq<u8>, p: int)
    requires
        t.len() - spec_share(nz, t).0.len() <= p <= t.len(),
    ensures
        spec_share(nz, t.take(p)) == (
            t.take(p).skip(t.len() - spec_share(nz, t).0.len()),
            spec_share(nz, t).1,
        ),
{
    let u = t.take(p);
    lemma_run_len_bounds(t, sep_fn(nz));
    if t.len() >= 1 {
        lemma_run_len_bounds(t.skip(1), sep_fn(nz));
    }
    if p >= 1 {
        assert(u[0] == t[0]);
    }
    if spec_separator(nz, t) is Some {
        assert(p >= 1);
        assert(spec_separator(nz, u) is Some);
        assert(u.skip(1) =~= t.skip(1).take(p - 1));
        lemma_normal_bytes_take(nz, t.skip(1), p - 1);
        if spec_normal_bytes(nz, t.skip(1)) is None {
            lemma_run_len_take(t.skip(1), sep_fn(nz), p - 1);
            assert(u.skip(1) =~= u.skip(1).skip(0));
        } else {
            let k = run_len(t.skip(1), sep_fn(nz)) as int;
            assert(u.skip(1).skip(k) =~= u.skip(1 + k));
        }
    } else {
        lemma_normal_bytes_take(nz, t, p);
        if spec_normal_bytes(nz, t) is None {
            lemma_run_len_take(t, sep_fn(nz), p);
            assert(u =~= u.skip(0));
        }
        if p >= 1 {
            assert(spec_separator(nz, u) is None);
        }
    }
}

/// `t` is what is left of itself after dropping nothing
proof fn lemma_suffix_refl(t: Seq<u8>)
    ensures
        is_suffix(t, t),
{
    assert(t =~= t.skip(0));
}

/// A UNC prefix read from a prefix of the input that still holds it is the same, and one read
/// from a prefix of the input is read from the whole input too
pub(crate) proof fn lemma_unc_take(s: Seq<u8>, m: int)
    requires
        0 <= m <= s.len(),
    ensures
        spec_prefix_unc(s.take(m)) is Some ==> spec_prefix_unc(s) is Some,
        spec_prefix_unc(s) matches Some((rest, v)) ==> (s.len() - rest.len() <= m
            ==> spec_prefix_unc(s.take(m)) == Some((s.take(m).skip(s.len() - rest.len()), v))),
{
    let u = s.take(m);
    if s.len() >= 2 {
        lemma_run_len_bounds(s.skip(2), sep_fn(true));
        if let Some((t, server)) = spec_normal_bytes(true, s.skip(2)) {
            lemma_suffix_refl(t);
            lemma_share_suffix(true, t, t);
            let k = run_len(s.skip(2), sep_fn(true)) as int;
            assert(t =~= s.skip(2 + k));
        }
    }
    if m >= 2 {
        assert(u[0] == s[0] && u[1] == s[1]);
        assert(u.skip(2) =~= s.skip(2).take(m - 2));
        lemma_normal_bytes_take(true, s.skip(2), m - 2);
        if let Some((t, server)) = spec_normal_bytes(true, s.skip(2)) {
            let k = run_len(s.skip(2), sep_fn(true)) as int;
            if let Some((rest, v)) = spec_prefix_unc(s) {
                if s.len() - rest.len() <= m {
                    assert(u.skip(2 + k) =~= t.take(m - 2 - k));
                    lemma_share_take(true, t, m - 2 - k);
                    assert(u.skip(2).skip(k) =~= u.skip(2 + k));
                    assert(t.take(m - 2 - k).skip(t.len() - spec_share(true, t).0.len()) =~= u.skip(
                        s.len() - rest.len(),
                    ));
                }
            }
        }
    }
}

/// A device namespace prefix read from a prefix of the input that still holds it is the same,
/// and one read from a prefix of the input is read from the whole input too
pub(crate) proof fn lemma_device_take(s: Seq<u8>, m: int)
    requires
        0 <= m <= s.len(),
    ensures
        spec_prefix_device_ns(s.take(m)) is Some ==> spec_prefix_device_ns(s) is Some,
        spec_prefix_device_ns(s) matches Some((rest, v)) ==> (s.len() - rest.len() <= m
            ==> spec_prefix_device_ns(s.take(m)) == Some(
            (s.take(m).skip(s.len() - rest.len()), v),
        )),
{
    let u = s.take(m);
    if s.len() >= 4 {
        lemma_run_len_bounds(s.skip(4), sep_fn(true));
    }
    if m >= 4 {
        assert(u[0] == s[0] && u[1] == s[1] && u[2] == s[2] && u[3] == s[3]);
        assert(u.skip(4) =~= s.skip(4).take(m - 4));
        lemma_normal_bytes_take(true, s.skip(4), m - 4);
        if let Some((rest, v)) = spec_prefix_device_ns(s) {
            if s.len() - rest.len() <= m {
                let k = run_len(s.skip(4), sep_fn(true)) as int;
                assert(u.skip(4).skip(k) =~= u.skip(4 + k));
            }
        }
    }
}

/// A verbatim disk prefix read from a prefix of the input that still holds it is the same, and
/// one read from a prefix of the input is read from the whole input too
pub(crate) proof fn lemma_verbatim_disk_take(s: Seq<u8>, m: int)
    requires
        0 <= m <= s.len(),
    ensures
        spec_prefix_verbatim_disk(s.take(m)) is Some ==> spec_prefix_verbatim_disk(s) is Some,
        spec_prefix_verbatim_disk(s) matches Some((rest, v)) ==> (s.len() - rest.len() <= m
            ==> spec_prefix_verbatim_disk(s.take(m)) == Some(
            (s.take(m).skip(s.len() - rest.len()), v),
        )),
{
    let u = s.take(m);
    if m >= 6 {
        assert(u[0] == s[0] && u[1] == s[1] && u[2] == s[2] && u[3] == s[3] && u[4] == s[4] && u[5]
            == s[5]);
        assert(u.skip(4)[0] == s.skip(4)[0] && u.skip(4)[1] == s.skip(4)[1]);
        assert(u.skip(4).skip(2) =~= u.skip(6));
        assert(s.skip(4).skip(2) =~= s.skip(6));
    }
}

/// Whether input starts with exactly `\\?\` is decided by its first four bytes
pub(crate) proof fn lemma_exact_verbatim_take(s: Seq<u8>, m: int)
    requires
        4 <= m <= s.len(),
    ensures
        is_exact_verbatim(s.take(m)) == is_exact_verbatim(s),
{
    let u = s.take(m);
    assert(u[0] == s[0] && u[1] == s[1] && u[2] == s[2] && u[3] == s[3]);
}

/// A verbatim UNC prefix read from a prefix of the input that still holds it is the same, and
/// one read from a prefix of the input is read from the whole input too
#[verifier::rlimit(50)]
pub(crate) proof fn lemma_verbatim_unc_take(s: Seq<u8>, m: int)
    requires
        0 <= m <= s.len(),
    ensures
        spec_prefix_verbatim_unc(s.take(m)) is Some ==> spec_prefix_verbatim_unc(s) is Some,
        spec_prefix_verbatim_unc(s) matches Some((rest, v)) ==> (s.len() - rest.len() <= m
            ==> spec_prefix_verbatim_unc(s.take(m)) == Some(
            (s.take(m).skip(s.len() - rest.len()), v),
        )),
{
    let u = s.take(m);
    let nz = !is_exact_verbatim(s);
    if s.len() >= 8 {
        assert(s.skip(4).skip(3).skip(1) =~= s.skip(8));
        lemma_run_len_bounds(s.skip(8), sep_fn(nz));
        if let Some((t, server)) = spec_normal_bytes(nz, s.skip(8)) {
            lemma_suffix_refl(t);
            lemma_share_suffix(nz, t, t);
            let k = run_len(s.skip(8), sep_fn(nz)) as int;
            assert(t =~= s.skip(8 + k));
        }
    }
    if m >= 8 {
        lemma_exact_verbatim_take(s, m);
        assert(u[0] == s[0] && u[1] == s[1] && u[2] == s[2] && u[3] == s[3] && u[4] == s[4] && u[5]
            == s[5] && u[6] == s[6] && u[7] == s[7]);
        assert(u.skip(4)[0] == s[4] && u.skip(4)[1] == s[5] && u.skip(4)[2] == s[6]);
        assert(s.skip(4)[0] == s[4] && s.skip(4)[1] == s[5] && s.skip(4)[2] == s[6]);
        assert(u.skip(4).skip(3)[0] == s[7] && s.skip(4).skip(3)[0] == s[7]);
        assert(u.skip(4).skip(3).skip(1) =~= u.skip(8));
        assert(u.skip(8) =~= s.skip(8).take(m - 8));
        lemma_normal_bytes_take(nz, s.skip(8), m - 8);
        if let Some((t, server)) = spec_normal_bytes(nz, s.skip(8)) {
            let k = run_len(s.skip(8), sep_fn(nz)) as int;
            if let Some((rest, v)) = spec_prefix_verbatim_unc(s) {
                if s.len() - rest.len() <= m {
                    assert(u.skip(8 + k) =~= t.take(m - 8 - k));
                    lemma_share_take(nz, t, m - 8 - k);
                    assert(u.skip(8).skip(k) =~= u.skip(8 + k));
                    assert(t.take(m - 8 - k).skip(t.len() - spec_share(nz, t).0.len()) =~= u.skip(
                        s.len() - rest.len(),
                    ));
                }
            }
        }
    }
}

/// A verbatim prefix is read from a prefix of the input only where the whole input starts with
/// `\\?\` (or a variant with forward slashes) and holds more than that
pub(crate) proof fn lemma_verbatim_take_some(s: Seq<u8>, m: int)
    requires
        0 <= m <= s.len(),
        spec_prefix_verbatim(s.take(m)) is Some,
    ensures
        spec_verbatim(s) is Some,
        m > 4,
{
    let u = s.take(m);
    assert(u[0] == s[0] && u[1] == s[1] && u[2] == s[2] && u[3] == s[3]);
    lemma_run_len_bounds(u.skip(4), sep_fn(!is_exact_verbatim(u)));
}

/// An empty verbatim prefix, `\\?\` followed by a separator
pub open spec fn is_empty_verbatim(v: WindowsPrefixView) -> bool {
    v matches WindowsPrefixView::Verbatim(name) && name.len() == 0
}

/// The first of the components is an empty verbatim prefix
pub open spec fn starts_with_empty_verbatim(comps: Seq<(WindowsComponentView, int, int)>) -> bool {
    comps.len() > 0 && (comps[0].0 matches WindowsComponentView::Prefix(_, v) && is_empty_verbatim(
        v,
    ))
}

/// A verbatim prefix read from a prefix of the input that still holds it (and, for an empty
/// one, the separator after it) is the same
proof fn lemma_verbatim_take(s: Seq<u8>, m: int)
    requires
        0 <= m <= s.len(),
        spec_prefix_verbatim(s) matches Some((rest, v)) && s.len() - rest.len() <= m && (
        is_empty_verbatim(v) ==> s.len() - rest.len() < m),
    ensures
        spec_prefix_verbatim(s) matches Some((rest, v)) && spec_prefix_verbatim(s.take(m)) == Some(
            (s.take(m).skip(s.len() - rest.len()), v),
        ),
{
    let u = s.take(m);
    let nz = !is_exact_verbatim(s);
    lemma_run_len_bounds(s.skip(4), sep_fn(nz));
    lemma_exact_verbatim_take(s, m);
    lemma_verbatim_disk_take(s, m);
    lemma_verbatim_unc_take(s, m);
    assert(u[0] == s[0] && u[1] == s[1] && u[2] == s[2] && u[3] == s[3]);
    assert(u.skip(4) =~= s.skip(4).take(m - 4));
    lemma_normal_bytes_take(nz, s.skip(4), m - 4);
    if spec_normal_bytes(nz, s.skip(4)) is Some {
        let k = run_len(s.skip(4), sep_fn(nz)) as int;
        assert(u.skip(4).skip(k) =~= u.skip(4 + k));
    } else {
        assert(u.skip(4)[0] == s.skip(4)[0]);
        lemma_run_len_take(s.skip(4), sep_fn(nz), m - 4);
    }
}

/// Input that starts with `\\?\` and holds more than that has a verbatim prefix of one kind
pub(crate) proof fn lemma_verbatim_family(s: Seq<u8>)
    requires
        spec_verbatim(s) is Some,
        s.len() > 4,
    ensures
        spec_prefix_verbatim_unc(s) is Some || spec_prefix_verbatim_disk(s) is Some
            || spec_prefix_verbatim(s) is Some,
{
    let nz = !is_exact_verbatim(s);
    let t = s.skip(4);
    assert(t[0] == s[4]);
    if !is_sep(t[0], nz) {
        assert(run_len(t, sep_fn(nz)) >= 1);
    }
}

/// A prefix read from a prefix of the input that still holds it is the same (an empty verbatim
/// prefix needs the separator after it too), and input without a prefix has none in any prefix
/// of it
pub(crate) proof fn lemma_prefix_take(s: Seq<u8>, m: int)
    requires
        0 <= m <= s.len(),
    ensures
        spec_prefix(s) is None ==> spec_prefix(s.take(m)) is None,
        spec_prefix(s) matches Some((rest, v)) ==> (s.len() - rest.len() <= m && (
        is_empty_verbatim(v) ==> s.len() - rest.len() < m) ==> spec_prefix(s.take(m)) == Some(
            (s.take(m).skip(s.len() - rest.len()), v),
        )),
{
    let u = s.take(m);
    lemma_verbatim_unc_take(s, m);
    lemma_verbatim_disk_take(s, m);
    lemma_device_take(s, m);
    lemma_unc_take(s, m);
    if m >= 2 {
        assert(u[0] == s[0] && u[1] == s[1]);
    }
    if spec_prefix_verbatim(u) is Some {
        lemma_verbatim_take_some(s, m);
        lemma_verbatim_family(s);
        if spec_prefix_verbatim_unc(s) is None && spec_prefix_verbatim_disk(s) is None {
            assert(spec_prefix_verbatim(s) is Some);
        }
    }
    if let Some((rest, v)) = spec_prefix(s) {
        if s.len() - rest.len() <= m && (is_empty_verbatim(v) ==> s.len() - rest.len() < m) {
            if spec_prefix_verbatim_unc(s) is None && spec_prefix_verbatim_disk(s) is None
                && spec_prefix_verbatim(s) is Some {
                lemma_verbatim_take(s, m);
            }
        }
    }
}

/// Skipping stops at the end of the input, or at a byte that is neither a separator nor (when
/// normalizing) a `.` component
pub(crate) proof fn lemma_skip_from_stops(nz: bool, s: Seq<u8>, i: int)
    requires
        0 <= i <= s.len(),
    ensures
        skip_from(nz, s, i) < s.len() ==> !(is_sep(s[skip_from(nz, s, i)], nz) || (nz && cur_dir_at(
            nz,
            s,
            skip_from(nz, s, i),
        ))),
    decreases s.len() - i,
{
    if 0 <= i < s.len() && (is_sep(s[i], nz) || (nz && cur_dir_at(nz, s, i))) {
        lemma_skip_from_stops(nz, s, i + 1);
    }
}

/// A component read after a step, followed by the bytes it skipped, is read the same from a
/// prefix of the input that still holds it, and the step consumes as much of the prefix as it can
proof fn lemma_after_take(
    parsed: Option<(Seq<u8>, WindowsComponentView)>,
    parsed_u: Option<(Seq<u8>, WindowsComponentView)>,
    s: Seq<u8>,
    nz: bool,
    m: int,
)
    requires
        parsed matches Some((rest, c)) && rest.len() <= s.len() && s.len() - rest.len() <= m
            <= s.len() && rest == s.skip(s.len() - rest.len()) && parsed_u == Some(
            (s.take(m).skip(s.len() - rest.len()), c),
        ),
        spec_after(parsed, s, nz) matches Some((_, _, _, n, _)) && (n < m && nz && s[n] == 46
            ==> n + 1 < m),
    ensures
        spec_after(parsed_u, s.take(m), nz) matches Some((c2, a2, b2, n2, st2)) && spec_after(
            parsed,
            s,
            nz,
        ) matches Some((c, a, b, n, st)) && c2 == c && a2 == a && b2 == b && n2 == min(n, m) && st2
            == st,
{
    let (rest, c) = parsed.unwrap();
    let l = s.len() - rest.len();
    let u = s.take(m);
    lemma_skip_from_bounds(nz, rest, 0);
    assert(u.skip(l) =~= rest.take(m - l));
    let k = skip_from(nz, rest, 0);
    if k < m - l && nz && rest[k] == 46 {
        assert(rest[k] == s[l + k]);
    }
    lemma_skip_from_take(nz, rest, 0, m - l);
}

/// A parsing step reads the same component from a prefix of the input that still holds it, and
/// consumes as much of the prefix as it can; an empty verbatim prefix needs the separator after it
/// too, and `.` right after the bytes the step consumes must not end the prefix
proof fn lemma_front_take(s: Seq<u8>, state: State, nz: bool, m: int)
    requires
        spec_front(s, state, nz) matches Some((c, a, b, n, st)) && b <= m <= s.len() && (c matches WindowsComponentView::Prefix(
            _,
            v,
        ) ==> (is_empty_verbatim(v) ==> b < m)) && (!(c is Prefix) ==> (n < m && nz && s[n] == 46
            ==> n + 1 < m)),
    ensures
        spec_front(s.take(m), state, nz) matches Some((c2, a2, b2, n2, st2)) && spec_front(
            s,
            state,
            nz,
        ) matches Some((c, a, b, n, st)) && c2 == c && a2 == a && b2 == b && n2 == min(n, m) && st2
            == st,
{
    reveal(spec_front);
    let u = s.take(m);
    lemma_front_wf(s, state, nz);
    lemma_prefix_suffix(s);
    lemma_prefix_take(s, m);
    lemma_run_len_bounds(s, sep_fn(nz));
    if state == State::AtBeginning && spec_prefix_component(s) is Some {
        let (rest, v) = spec_prefix(s).unwrap();
        let l = s.len() - rest.len();
        assert(u.skip(l).len() == m - l);
        assert(u.take(m - (m - l)) =~= s.take(l));
    } else {
        let parsed = if state == State::NotAtBeginning {
            spec_filename(nz, s)
        } else {
            spec_root_or_name(nz, s)
        };
        let parsed_u = if state == State::NotAtBeginning {
            spec_filename(nz, u)
        } else {
            spec_root_or_name(nz, u)
        };
        if state == State::NotAtBeginning {
            lemma_filename_take(nz, s, m);
        } else {
            lemma_root_or_name_take(nz, s, m);
        }
        lemma_after_take(parsed, parsed_u, s, nz, m);
    }
}

/// No component is read from an empty input past its start
pub(crate) proof fn lemma_no_components_after_end(state: State, nz: bool, base: int)
    requires
        state != State::AtBeginning,
    ensures
        spec_components(Seq::<u8>::empty(), state, nz, base) == Seq::<
            (WindowsComponentView, int, int),
        >::empty(),
{
    let e = Seq::<u8>::empty();
    assert(run_len(e, sep_fn(nz)) == 0);
}

/// A name that starts with `.` where `.` components are skipped has at least two bytes
proof fn lemma_dot_name_len(nz: bool, t: Seq<u8>)
    requires
        nz,
        t.len() >= 2,
        t[0] == 46,
        !is_sep(t[1], nz),
        spec_filename(nz, t) is Some,
    ensures
        spec_filename(nz, t) matches Some((rest, _)) && t.len() - rest.len() >= 2,
{
    lemma_run_len_bounds(t, sep_fn(nz));
    assert(t.drop_first()[0] == t[1]);
    assert(run_len(t, sep_fn(nz)) >= 2);
}

/// The prefix of a path that ends where its `k`-th component ends has exactly its first `k`
/// components, unless that component is an empty verbatim prefix
#[verifier::rlimit(100)]
pub proof fn lemma_components_take(s: Seq<u8>, state: State, nz: bool, base: int, k: int)
    requires
        1 <= k <= spec_components(s, state, nz, base).len(),
        !(spec_components(s, state, nz, base)[k - 1].0 matches WindowsComponentView::Prefix(_, v)
            && is_empty_verbatim(v)),
    ensures
        spec_components(s.take(spec_components(s, state, nz, base)[k - 1].2 - base), state, nz, base)
            == spec_components(s, state, nz, base).take(k),
    decreases s.len(),
{
    lemma_front_wf(s, state, nz);
    let (c, a, b, n, st) = spec_front(s, state, nz).unwrap();
    let comps = spec_components(s, state, nz, base);
    let first = seq![(c, base + a, base + b)];
    let rest = spec_components(s.skip(n), st, nz, base + n);
    assert(comps == first + rest);
    assert(comps[0] == (c, base + a, base + b));
    assert(st != State::AtBeginning);
    if k == 1 {
        lemma_front_take(s, state, nz, b);
        let u = s.take(b);
        assert(u.skip(b) =~= Seq::<u8>::empty());
        lemma_no_components_after_end(st, nz, base + b);
        assert(spec_components(u, state, nz, base) == first + spec_components(
            u.skip(b),
            st,
            nz,
            base + b,
        ));
        assert(comps.take(1) =~= first);
        assert(first + Seq::<(WindowsComponentView, int, int)>::empty() =~= first);
    } else {
        crate::windows::encoding::lemma_components_wf(s.skip(n), st, nz, base + n);
        assert(comps[k - 1] == rest[k - 2]);
        let m = comps[k - 1].2 - base;
        lemma_front_wf(s.skip(n), st, nz);
        let (c1, a1, b1, n1, st1) = spec_front(s.skip(n), st, nz).unwrap();
        assert(rest[0] == (c1, base + n + a1, base + n + b1));
        assert(n + b1 <= m <= s.len());
        if !(c is Prefix) && n < m && nz && s[n] == 46 {
            let r = s.skip(b);
            let j = n - b;
            lemma_skip_from_stops(nz, r, 0);
            assert(r[j] == s[n]);
            assert(!cur_dir_at(nz, r, j));
            assert(j + 1 < r.len() && !is_sep(r[j + 1], nz));
            assert(r[j + 1] == s[n + 1]);
            assert(s.skip(n)[0] == s[n]);
            assert(s.skip(n)[1] == s[n + 1]);
            assert(st == State::NotAtBeginning);
            reveal(spec_front);
            lemma_dot_name_len(nz, s.skip(n));
        }
        lemma_front_take(s, state, nz, m);
        let u = s.take(m);
        assert(u.skip(n) =~= s.skip(n).take(m - n));
        lemma_components_take(s.skip(n), st, nz, base + n, k - 1);
        assert(spec_components(u, state, nz, base) == first + spec_components(
            u.skip(n),
            st,
            nz,
            base + n,
        ));
        assert(comps.take(k) =~= first + rest.take(k - 1));
    }
}

/// Nothing is read from an empty input
pub(crate) proof fn lemma_no_components_in_empty(state: State, nz: bool)
    ensures
        spec_components(Seq::<u8>::empty(), state, nz, 0) == Seq::<
            (WindowsComponentView, int, int),
        >::empty(),
{
    reveal(spec_front);
    let e = Seq::<u8>::empty();
    assert(run_len(e, sep_fn(nz)) == 0);
    assert(spec_prefix(e) is None);
}

/// Iterating from both ends agrees: once the last component is taken off the back of a Windows
/// path, what is left has exactly the components before it, as read from the front. This holds
/// except where the path is an empty verbatim prefix followed by a single other component, such
/// as `\\?\\`: without that component, `\\?\` reads as a UNC prefix
pub proof fn law_next_back_leaves_earlier_components(s: Seq<u8>, state: State, nz: bool)
    requires
        spec_components(s, state, nz, 0).len() > 0,
        !(spec_components(s, state, nz, 0).len() == 2 && starts_with_empty_verbatim(
            spec_components(s, state, nz, 0),
        )),
    ensures
        ({
            let comps = spec_components(s, state, nz, 0);
            spec_components(s.take(end_before_last_component(comps)), state, nz, 0)
                == comps.drop_last()
        }),
{
    let comps = spec_components(s, state, nz, 0);
    if comps.len() >= 2 {
        lemma_prefix_only_first(s, state, nz, 0);
        lemma_components_take(s, state, nz, 0, comps.len() - 1);
        assert(comps.take(comps.len() - 1) =~= comps.drop_last());
    } else {
        assert(s.take(0) =~= Seq::<u8>::empty());
        lemma_no_components_in_empty(state, nz);
        assert(comps.drop_last() =~= Seq::<(WindowsComponentView, int, int)>::empty());
    }
}

/// A path that starts with exactly `\\?\` starts with a prefix of at least four bytes
pub(crate) proof fn lemma_exact_verbatim_prefix(s: Seq<u8>)
    requires
        is_exact_verbatim(s),
    ensures
        spec_prefix(s) matches Some((rest, _)) && s.len() - rest.len() >= 4,
{
    lemma_prefix_suffix(s);
    let nz = !is_exact_verbatim(s);
    if s.len() > 4 {
        lemma_verbatim_family(s);
        lemma_run_len_bounds(s.skip(4), sep_fn(nz));
        if s.len() >= 8 {
            assert(s.skip(4).skip(3).skip(1) =~= s.skip(8));
            lemma_run_len_bounds(s.skip(8), sep_fn(nz));
            if let Some((t, _)) = spec_normal_bytes(nz, s.skip(8)) {
                lemma_suffix_refl(t);
                lemma_share_suffix(nz, t, t);
                assert(t.len() <= s.len() - 8);
            }
        }
        if let Some((rest, _)) = spec_prefix_verbatim_unc(s) {
            assert(s.len() - rest.len() >= 8);
        } else if let Some((rest, _)) = spec_prefix_verbatim_disk(s) {
            assert(s.len() - rest.len() == 6);
        } else {
            assert(spec_prefix_verbatim(s) matches Some((rest, _)) && s.len() - rest.len() >= 4);
        }
    } else {
        let t = s.skip(2);
        assert(t[0] == s[2] && t[1] == s[3]);
        lemma_run_len_bounds(t, sep_fn(true));
        assert(run_len(t, sep_fn(true)) == 1) by {
            assert(t.drop_first()[0] == t[1]);
        }
        let u = t.skip(1);
        assert(u[0] == s[3]);
        lemma_run_len_bounds(u.skip(1), sep_fn(true));
        assert(s.skip(4).len() == 0);
        assert(spec_prefix_verbatim_unc(s) is None);
        assert(spec_prefix_verbatim_disk(s) is None);
        assert(spec_prefix_verbatim(s) is None);
        assert(spec_prefix_device_ns(s) is None);
        assert(spec_prefix_unc(s) matches Some((rest, _)) && rest.len() == 0);
    }
}

/// Only the first component of a path can be a prefix, and none is read past the beginning
proof fn lemma_prefix_only_first(s: Seq<u8>, state: State, nz: bool, base: int)
    ensures
        forall|i: int|
            0 <= i < spec_components(s, state, nz, base).len() && (i > 0 || state
                != State::AtBeginning) ==> !(spec_components(s, state, nz, base)[i].0 is Prefix),
    decreases s.len(),
{
    lemma_front_wf(s, state, nz);
    if let Some((c, a, b, n, st)) = spec_front(s, state, nz) {
        if 0 < n <= s.len() {
            let comps = spec_components(s, state, nz, base);
            let rest = spec_components(s.skip(n), st, nz, base + n);
            assert(comps == seq![(c, base + a, base + b)] + rest);
            lemma_prefix_only_first(s.skip(n), st, nz, base + n);
            assert forall|i: int|
                0 <= i < comps.len() && (i > 0 || state != State::AtBeginning) implies !(
            comps[i].0 is Prefix) by {
                if i > 0 {
                    assert(comps[i] == rest[i - 1]);
                }
            }
        }
    }
}

/// The parent of a Windows path has exactly the components of the path but its last one, except
/// where the path is an empty verbatim prefix followed by a single other component
pub proof fn law_parent_drops_last_component(p: Seq<u8>)
    requires
        spec_parent::<WindowsEncoding>(p) is Some,
        !(windows_comps(p).len() == 2 && starts_with_empty_verbatim(windows_comps(p))),
    ensures
        windows_spans(spec_parent::<WindowsEncoding>(p).unwrap()) == windows_spans(p).drop_last(),
{
    let nz = !is_exact_verbatim(p);
    let comps = windows_comps(p);
    let spans = windows_spans(p);
    let f = |t: (WindowsComponentView, int, int)| (t.0.kind(), t.1, t.2);
    let e = end_before_last(spans);
    let q = p.take(e);
    assert(spec_parent::<WindowsEncoding>(p).unwrap() == q);
    law_next_back_leaves_earlier_components(p, State::AtBeginning, nz);
    if comps.len() >= 2 {
        assert(spans[spans.len() - 2] == f(comps[comps.len() - 2]));
        assert(e == end_before_last_component(comps));
        crate::windows::encoding::lemma_components_wf(p, State::AtBeginning, nz, 0);
        assert(comps[0].2 <= comps[comps.len() - 2].2) by {
            if comps.len() > 2 {
                assert(comps[0].2 <= comps[comps.len() - 2].1);
            }
        }
        lemma_front_wf(p, State::AtBeginning, nz);
        if is_exact_verbatim(p) {
            lemma_exact_verbatim_prefix(p);
            reveal(spec_front);
            assert(comps[0].2 >= 4);
            lemma_exact_verbatim_take(p, e);
        } else if e >= 4 {
            lemma_exact_verbatim_take(p, e);
        }
        assert(is_exact_verbatim(q) == is_exact_verbatim(p));
        assert(comps.drop_last().map_values(f) =~= spans.drop_last());
    } else {
        assert(q =~= Seq::<u8>::empty());
        lemma_no_components_in_empty(State::AtBeginning, !is_exact_verbatim(q));
        assert(windows_spans(q) =~= spans.drop_last());
    }
}

/// On Windows an absolute path (a prefix followed by a root) has a root
pub proof fn law_absolute_has_root(p: Seq<u8>)
    ensures
        WindowsEncoding::spec_is_absolute(p) ==> WindowsEncoding::spec_has_root(p),
{
}

/// Pushing an absolute Windows path, or one with a prefix, replaces the current one
pub proof fn law_push_absolute_replaces(current: Seq<u8>, path: Seq<u8>)
    requires
        path.len() > 0,
        WindowsEncoding::spec_is_absolute(path) || crate::windows::components::prefix_of(
            crate::windows::encoding::start_of(path),
        ) is Some,
    ensures
        WindowsEncoding::spec_push(current, path) == path,
{
}

/// A path that the checked push takes has neither a prefix nor a root, so pushing it onto a path
/// without a verbatim prefix keeps the current path in front of it
pub proof fn law_push_checked_keeps_current(current: Seq<u8>, path: Seq<u8>)
    requires
        spec_check::<WindowsEncoding>(path) is None,
        !(prefix_of(start_of(current)) matches Some((_, p)) && p.is_verbatim()),
    ensures
        ({
            let r = WindowsEncoding::spec_push(current, path);
            r.take(current.len() as int) == current && r.skip(r.len() - path.len()) == path
        }),
{
    let v = start_of(path);
    lemma_front_wf(v.0, v.1, v.2);
    if let Some(c) = first_of(v) {
        let comps = windows_comps(path);
        assert(comps[0].0 == c);
        assert(windows_spans(path)[0].0 == c.kind());
        if c is Prefix {
            assert(spec_check::<WindowsEncoding>(path) == Some(CheckedPathError::UnexpectedPrefix));
        } else if c is RootDir {
            assert(spec_check::<WindowsEncoding>(path) == Some(CheckedPathError::UnexpectedRoot));
        }
    }
    let r = WindowsEncoding::spec_push(current, path);
    assert(r.take(current.len() as int) =~= current);
    assert(r.skip(r.len() - path.len()) =~= path);
}

/// A server and an optional share followed by a separator that the share then consumes, with
/// nothing after it: without that separator the same server is read, with no share, from the
/// whole input
proof fn lemma_server_share_push_sep(nz: bool, x: Seq<u8>)
    requires
        spec_normal_bytes(nz, x.push(WINDOWS_SEPARATOR_BYTE)) matches Some((t, _)) && spec_share(
            nz,
            t,
        ).0.len() == 0,
    ensures
        spec_normal_bytes(nz, x.push(WINDOWS_SEPARATOR_BYTE)) matches Some((t, server))
            && spec_share(nz, t).1.len() == 0 && spec_normal_bytes(nz, x) == Some(
            (Seq::<u8>::empty(), server),
        ),
        spec_share(nz, Seq::<u8>::empty()) == (Seq::<u8>::empty(), Seq::<u8>::empty()),
{
    let xx = x.push(WINDOWS_SEPARATOR_BYTE);
    lemma_run_len_bounds(xx, sep_fn(nz));
    lemma_run_len_push(x, sep_fn(nz), WINDOWS_SEPARATOR_BYTE);
    let k = run_len(xx, sep_fn(nz)) as int;
    let t = xx.skip(k);
    if k == xx.len() {
        assert(!is_sep(xx[xx.len() - 1], nz));
        assert(false);
    }
    assert(is_sep(t[0], nz));
    let t2 = t.skip(1);
    lemma_run_len_bounds(t2, sep_fn(nz));
    if t2.len() > 0 {
        assert(t2[t2.len() - 1] == WINDOWS_SEPARATOR_BYTE);
        assert(run_len(t2, sep_fn(nz)) < t2.len());
    }
    assert(k == x.len());
    assert(x.skip(k) =~= Seq::<u8>::empty());
    assert(xx.take(k) =~= x.take(k));
    let e = Seq::<u8>::empty();
    assert(run_len(e, sep_fn(nz)) == 0);
}

/// A separator added at the end of a path is consumed by its prefix only where the path, without
/// it, is a prefix with nothing after it
proof fn lemma_prefix_all_push_sep(p: Seq<u8>)
    requires
        spec_prefix(p.push(WINDOWS_SEPARATOR_BYTE)) matches Some((rest, _)) && rest.len() == 0,
    ensures
        spec_prefix(p) matches Some((rest, _)) && rest.len() == 0,
{
    let s = p.push(WINDOWS_SEPARATOR_BYTE);
    let m = p.len() as int;
    assert(s.take(m) =~= p);
    let nz = !is_exact_verbatim(s);
    assert(s[s.len() - 1] == WINDOWS_SEPARATOR_BYTE);
    lemma_verbatim_unc_take(s, m);
    lemma_verbatim_disk_take(s, m);
    lemma_device_take(s, m);
    lemma_unc_take(s, m);
    if spec_prefix_verbatim(p) is Some {
        lemma_verbatim_take_some(s, m);
        lemma_verbatim_family(s);
    }
    if spec_prefix_verbatim_unc(s) is Some {
        assert(s.skip(4).skip(3).skip(1) =~= s.skip(8));
        assert(s.skip(8) =~= p.skip(8).push(WINDOWS_SEPARATOR_BYTE));
        lemma_exact_verbatim_take(s, m);
        lemma_server_share_push_sep(nz, p.skip(8));
        assert(p.skip(4).skip(3).skip(1) =~= p.skip(8));
        assert(p.skip(4)[0] == s.skip(4)[0] && p.skip(4)[1] == s.skip(4)[1] && p.skip(4)[2]
            == s.skip(4)[2]);
        assert(p.skip(4).skip(3)[0] == s.skip(4).skip(3)[0]);
    } else if spec_prefix_verbatim_disk(s) is Some {
        assert(s.skip(4).skip(2) =~= s.skip(6));
    } else if spec_prefix_verbatim(s) is Some {
        let t = s.skip(4);
        lemma_run_len_bounds(t, sep_fn(nz));
        if t.len() > 0 {
            assert(t[t.len() - 1] == WINDOWS_SEPARATOR_BYTE);
        }
    } else if spec_prefix_device_ns(s) is Some {
        let t = s.skip(4);
        lemma_run_len_bounds(t, sep_fn(true));
        assert(t[t.len() - 1] == WINDOWS_SEPARATOR_BYTE);
    } else if spec_prefix_unc(s) is Some {
        assert(s.skip(2) =~= p.skip(2).push(WINDOWS_SEPARATOR_BYTE));
        lemma_server_share_push_sep(true, p.skip(2));
        assert(p[0] == s[0] && p[1] == s[1]);
    } else {
        assert(s.skip(2).len() == 0);
    }
}

/// `\\?\` alone reads as a UNC prefix that takes all of it
pub(crate) proof fn lemma_question_server(p: Seq<u8>)
    requires
        p.len() == 4,
        is_sep(p[0], true) && is_sep(p[1], true) && p[2] == 63 && is_sep(p[3], true),
    ensures
        spec_prefix(p) matches Some((rest, _)) && rest.len() == 0,
{
    let t = p.skip(4);
    assert(t.len() == 0);
    assert(run_len(t, sep_fn(true)) == 0);
    assert(run_len(t, sep_fn(!is_exact_verbatim(p))) == 0);
    let x = p.skip(2);
    assert(x[0] == 63 && x[1] == p[3]);
    lemma_run_len(x, sep_fn(true), 1);
    assert(x.skip(1)[0] == p[3]);
    assert(x.skip(1).skip(1).len() == 0);
    assert(run_len(x.skip(1).skip(1), sep_fn(true)) == 0);
}

/// A prefix is read the same once a separator is added at the end of a path that holds more than
/// its prefix, and a path without a prefix still has none
proof fn lemma_prefix_push_sep(p: Seq<u8>)
    ensures
        spec_prefix(p) is None ==> spec_prefix(p.push(WINDOWS_SEPARATOR_BYTE)) is None,
        spec_prefix(p) matches Some((r, v)) ==> (r.len() > 0 ==> spec_prefix(
            p.push(WINDOWS_SEPARATOR_BYTE),
        ) == Some((r.push(WINDOWS_SEPARATOR_BYTE), v))),
{
    let s = p.push(WINDOWS_SEPARATOR_BYTE);
    let m = p.len() as int;
    assert(s.take(m) =~= p);
    lemma_prefix_take(s, m);
    lemma_prefix_suffix(s);
    if let Some((rs, vs)) = spec_prefix(s) {
        let cs = s.len() - rs.len();
        if cs <= m && (is_empty_verbatim(vs) ==> cs < m) {
            assert(rs =~= p.skip(cs).push(WINDOWS_SEPARATOR_BYTE));
        } else if cs == m + 1 {
            assert(rs.len() == 0);
            lemma_prefix_all_push_sep(p);
        } else {
            lemma_empty_verbatim_len(s);
            assert(p[0] == s[0] && p[1] == s[1] && p[2] == s[2] && p[3] == s[3]);
            lemma_question_server(p);
        }
    }
}

/// An empty verbatim prefix is `\\?\` (each backslash possibly a forward slash) and takes
/// four bytes
pub(crate) proof fn lemma_empty_verbatim_len(s: Seq<u8>)
    requires
        spec_prefix(s) matches Some((_, v)) && is_empty_verbatim(v),
    ensures
        spec_prefix(s) matches Some((rest, _)) && s.len() - rest.len() == 4,
        is_sep(s[0], true) && is_sep(s[1], true) && s[2] == 63 && is_sep(s[3], true),
{
    let nz = !is_exact_verbatim(s);
    if s.len() >= 4 {
        lemma_run_len_bounds(s.skip(4), sep_fn(nz));
    }
}

/// What a component parser reads from `t` and from `t` with a backslash added at its end agree:
/// the same component, with that backslash still to come after it
spec fn agrees_after_sep(
    parsed: Option<(Seq<u8>, WindowsComponentView)>,
    parsed_sep: Option<(Seq<u8>, WindowsComponentView)>,
) -> bool {
    match parsed {
        None => parsed_sep is None,
        Some((rest, c)) => parsed_sep == Some((rest.push(WINDOWS_SEPARATOR_BYTE), c)),
    }
}

/// A backslash added at the end of `t` changes nothing about where a component may end
proof fn lemma_ends_push_sep(nz: bool, t: Seq<u8>, n: int)
    requires
        0 <= n <= t.len(),
    ensures
        ends_component(nz, t.push(WINDOWS_SEPARATOR_BYTE), n) == ends_component(nz, t, n),
{
    let tt = t.push(WINDOWS_SEPARATOR_BYTE);
    assert(tt[n] == if n < t.len() { t[n] } else { WINDOWS_SEPARATOR_BYTE });
}

/// Names, `.`, `..` and (in a non-empty input) the root are read the same before and after a
/// backslash is added at the end
proof fn lemma_names_push_sep(nz: bool, t: Seq<u8>)
    ensures
        agrees_after_sep(spec_normal(nz, t), spec_normal(nz, t.push(WINDOWS_SEPARATOR_BYTE))),
        agrees_after_sep(spec_parent_dir(nz, t), spec_parent_dir(nz, t.push(WINDOWS_SEPARATOR_BYTE))),
        agrees_after_sep(spec_cur_dir(nz, t), spec_cur_dir(nz, t.push(WINDOWS_SEPARATOR_BYTE))),
        agrees_after_sep(spec_filename(nz, t), spec_filename(nz, t.push(WINDOWS_SEPARATOR_BYTE))),
        t.len() > 0 ==> agrees_after_sep(
            spec_root_or_name(nz, t),
            spec_root_or_name(nz, t.push(WINDOWS_SEPARATOR_BYTE)),
        ),
{
    let tt = t.push(WINDOWS_SEPARATOR_BYTE);
    lemma_run_len_push(t, sep_fn(nz), WINDOWS_SEPARATOR_BYTE);
    lemma_run_len_bounds(t, sep_fn(nz));
    let n = run_len(t, sep_fn(nz)) as int;
    assert(tt.skip(n) =~= t.skip(n).push(WINDOWS_SEPARATOR_BYTE));
    assert(tt.take(n) =~= t.take(n));
    if t.len() >= 1 {
        assert(tt[0] == t[0]);
        lemma_ends_push_sep(nz, t, 1);
        assert(tt.skip(1) =~= t.skip(1).push(WINDOWS_SEPARATOR_BYTE));
    } else {
        assert(tt[0] == WINDOWS_SEPARATOR_BYTE);
    }
    if t.len() >= 2 {
        assert(tt[1] == t[1]);
        lemma_ends_push_sep(nz, t, 2);
        assert(tt.skip(2) =~= t.skip(2).push(WINDOWS_SEPARATOR_BYTE));
    } else if t.len() == 1 {
        assert(tt[1] == WINDOWS_SEPARATOR_BYTE);
    }
}

/// Skipping separators (and `.` components) stops at the same place once a backslash is added at
/// the end, unless it ran to the end: then it runs past the added backslash too
proof fn lemma_skip_push_sep(nz: bool, s: Seq<u8>, i: int)
    requires
        0 <= i <= s.len(),
    ensures
        skip_from(nz, s.push(WINDOWS_SEPARATOR_BYTE), i) == if skip_from(nz, s, i) < s.len() {
            skip_from(nz, s, i)
        } else {
            s.len() + 1int
        },
    decreases s.len() - i,
{
    let ss = s.push(WINDOWS_SEPARATOR_BYTE);
    lemma_skip_from_bounds(nz, s, i);
    if i < s.len() {
        assert(ss[i] == s[i]);
        if i + 1 < s.len() {
            assert(ss[i + 1] == s[i + 1]);
        } else {
            assert(ss[i + 1] == WINDOWS_SEPARATOR_BYTE);
        }
        assert(cur_dir_at(nz, ss, i) == cur_dir_at(nz, s, i));
        if is_sep(s[i], nz) || (nz && cur_dir_at(nz, s, i)) {
            lemma_skip_push_sep(nz, s, i + 1);
        }
    } else {
        assert(ss[i] == WINDOWS_SEPARATOR_BYTE);
        assert(skip_from(nz, ss, i + 1) == i + 1);
    }
}

/// Skipping what follows a component agrees once a backslash is added at the end
proof fn lemma_after_push_sep(
    parsed: Option<(Seq<u8>, WindowsComponentView)>,
    parsed_sep: Option<(Seq<u8>, WindowsComponentView)>,
    t: Seq<u8>,
    nz: bool,
)
    requires
        agrees_after_sep(parsed, parsed_sep),
        parsed matches Some((rest, _)) ==> rest.len() <= t.len(),
    ensures
        match spec_after(parsed, t, nz) {
            None => spec_after(parsed_sep, t.push(WINDOWS_SEPARATOR_BYTE), nz) is None,
            Some((c, a, b, n, st)) => spec_after(parsed_sep, t.push(WINDOWS_SEPARATOR_BYTE), nz)
                == Some((c, a, b, if n < t.len() { n } else { n + 1 }, st)),
        },
{
    if let Some((rest, c)) = parsed {
        lemma_skip_push_sep(nz, rest, 0);
        lemma_skip_from_bounds(nz, rest, 0);
    }
}

/// A parsing step reads the same component once a backslash is added at the end of the input,
/// where the input holds more than the prefix read at its start; it consumes the same bytes, or
/// the added backslash too when it consumed the whole input, and never goes back to the start
proof fn lemma_front_push_sep(s: Seq<u8>, state: State, nz: bool)
    requires
        state == State::NotAtBeginning || s.len() > 0,
        state == State::AtBeginning ==> !(spec_prefix(s) matches Some((r, _)) && r.len() == 0),
    ensures
        match spec_front(s, state, nz) {
            None => spec_front(s.push(WINDOWS_SEPARATOR_BYTE), state, nz) is None,
            Some((c, a, b, n, st)) => st != State::AtBeginning && spec_front(
                s.push(WINDOWS_SEPARATOR_BYTE),
                state,
                nz,
            ) == Some((c, a, b, if n < s.len() { n } else { n + 1 }, st)),
        },
{
    reveal(spec_front);
    let ss = s.push(WINDOWS_SEPARATOR_BYTE);
    lemma_names_push_sep(nz, s);
    lemma_run_len_bounds(s, sep_fn(nz));
    if state == State::AtBeginning {
        lemma_prefix_push_sep(s);
        lemma_prefix_suffix(s);
        if let Some((r, v)) = spec_prefix(s) {
            let len = s.len() - r.len();
            assert(ss.take(len) =~= s.take(len));
        } else {
            lemma_after_push_sep(spec_root_or_name(nz, s), spec_root_or_name(nz, ss), s, nz);
        }
    } else if state == State::SeenPrefix {
        lemma_after_push_sep(spec_root_or_name(nz, s), spec_root_or_name(nz, ss), s, nz);
    } else {
        lemma_after_push_sep(spec_filename(nz, s), spec_filename(nz, ss), s, nz);
    }
}

/// The components of an input that holds more than the prefix read at its start (or of any
/// input past the start) are the same once a backslash is added at its end
proof fn lemma_components_push_sep(s: Seq<u8>, state: State, nz: bool, base: int)
    requires
        state == State::NotAtBeginning || s.len() > 0,
        state == State::AtBeginning ==> !(spec_prefix(s) matches Some((r, _)) && r.len() == 0),
    ensures
        spec_components(s.push(WINDOWS_SEPARATOR_BYTE), state, nz, base) == spec_components(
            s,
            state,
            nz,
            base,
        ),
    decreases s.len(),
{
    let ss = s.push(WINDOWS_SEPARATOR_BYTE);
    lemma_front_push_sep(s, state, nz);
    lemma_front_wf(s, state, nz);
    if let Some((c, a, b, n, st)) = spec_front(s, state, nz) {
        if 0 < n < s.len() {
            assert(ss.skip(n) =~= s.skip(n).push(WINDOWS_SEPARATOR_BYTE));
            lemma_components_push_sep(s.skip(n), st, nz, base + n);
        } else if n == s.len() {
            assert(ss.skip(n + 1) =~= Seq::<u8>::empty());
            assert(s.skip(n) =~= Seq::<u8>::empty());
            if st == State::SeenPrefix {
                reveal(spec_front);
                lemma_prefix_suffix(s);
            }
            lemma_no_components_after_end(st, nz, base + n);
            lemma_no_components_after_end(st, nz, base + n + 1);
        }
    }
}

/// `\\?` reads as a UNC prefix that takes all of it
proof fn lemma_question_server_short(p: Seq<u8>)
    requires
        p.len() == 3,
        is_sep(p[0], true) && is_sep(p[1], true) && p[2] == 63,
    ensures
        spec_prefix(p) matches Some((rest, _)) && rest.len() == 0,
{
    let x = p.skip(2);
    assert(x[0] == 63);
    lemma_run_len(x, sep_fn(true), 1);
    assert(x.skip(1).len() == 0);
    assert(run_len(x.skip(1), sep_fn(true)) == 0);
}

/// A trailing separator is ignored: a Windows path whose last component is not a prefix has the
/// same components, at the same places, whether or not a backslash is added at its end. (Where
/// the last component is a prefix, as in `C:`, the backslash adds a root.)
pub proof fn law_trailing_separator_ignored(p: Seq<u8>)
    requires
        windows_comps(p).len() > 0,
        !(windows_comps(p).last().0 is Prefix),
    ensures
        WindowsEncoding::spec_spans(p.push(WINDOWS_SEPARATOR_BYTE)) == WindowsEncoding::spec_spans(p),
        parts::<WindowsEncoding>(p.push(WINDOWS_SEPARATOR_BYTE)) == parts::<WindowsEncoding>(p),
{
    let pp = p.push(WINDOWS_SEPARATOR_BYTE);
    let nz = !is_exact_verbatim(p);
    if p.len() == 0 {
        lemma_no_components_in_empty(State::AtBeginning, nz);
        assert(p =~= Seq::<u8>::empty());
        assert(false);
    }
    if p.len() >= 4 {
        assert(pp[0] == p[0] && pp[1] == p[1] && pp[2] == p[2] && pp[3] == p[3]);
    } else if is_exact_verbatim(pp) {
        assert(pp[0] == p[0] && pp[1] == p[1] && pp[2] == p[2]);
        lemma_question_server_short(p);
    }
    if let Some((r, v)) = spec_prefix(p) {
        if r.len() == 0 {
            reveal(spec_front);
            lemma_prefix_suffix(p);
            assert(p.skip(p.len() as int) =~= Seq::<u8>::empty());
            lemma_no_components_after_end(State::SeenPrefix, nz, p.len() as int);
            assert(windows_comps(p).len() == 1);
            assert(false);
        }
    }
    assert(is_exact_verbatim(pp) == is_exact_verbatim(p));
    lemma_components_push_sep(p, State::AtBeginning, nz, 0);
    WindowsEncoding::lemma_spans_wf(p);
    let spans = windows_spans(p);
    assert forall|i: int| 0 <= i < spans.len() implies #[trigger] span_bytes::<WindowsEncoding>(
        pp,
        spans[i],
    ) == span_bytes::<WindowsEncoding>(p, spans[i]) by {
        assert(pp.subrange(spans[i].1, spans[i].2) =~= p.subrange(spans[i].1, spans[i].2));
    }
    assert(parts::<WindowsEncoding>(pp) =~= parts::<WindowsEncoding>(p));
}

/// What is left of a Windows path after `k` steps that each take the last component off its back
pub open spec fn back_rest(s: Seq<u8>, state: State, nz: bool, k: nat) -> Seq<u8>
    decreases k,
{
    if k == 0 {
        s
    } else {
        let r = back_rest(s, state, nz, (k - 1) as nat);
        let comps = spec_components(r, state, nz, 0);
        if comps.len() == 0 {
            r
        } else {
            r.take(end_before_last_component(comps))
        }
    }
}

/// The components that `k` steps from the back of a Windows path yield, in the order they come
pub open spec fn back_views(s: Seq<u8>, state: State, nz: bool, k: nat) -> Seq<
    WindowsComponentView,
>
    decreases k,
{
    if k == 0 {
        Seq::empty()
    } else {
        let r = back_rest(s, state, nz, (k - 1) as nat);
        let comps = spec_components(r, state, nz, 0);
        back_views(s, state, nz, (k - 1) as nat) + if comps.len() == 0 {
            Seq::<WindowsComponentView>::empty()
        } else {
            seq![comps.last().0]
        }
    }
}

/// After `k` steps from the back, what is left has the first components read from the front,
/// and the steps yielded the others, last first
proof fn lemma_back_steps(s: Seq<u8>, state: State, nz: bool, k: nat)
    requires
        k <= spec_components(s, state, nz, 0).len(),
        !(spec_components(s, state, nz, 0).len() >= 2 && starts_with_empty_verbatim(
            spec_components(s, state, nz, 0),
        )),
    ensures
        ({
            let comps = spec_components(s, state, nz, 0);
            let n = comps.len();
            &&& spec_components(back_rest(s, state, nz, k), state, nz, 0) == comps.take(n - k)
            &&& back_views(s, state, nz, k) == comp_views(comps.skip(n - k)).reverse()
        }),
    decreases k,
{
    let comps = spec_components(s, state, nz, 0);
    let n = comps.len();
    if k == 0 {
        assert(comps.take(n as int) =~= comps);
        assert(comp_views(comps.skip(n as int)).reverse() =~= Seq::<WindowsComponentView>::empty());
    } else {
        lemma_back_steps(s, state, nz, (k - 1) as nat);
        let r = back_rest(s, state, nz, (k - 1) as nat);
        let rc = spec_components(r, state, nz, 0);
        assert(rc == comps.take(n - k + 1));
        if rc.len() == 2 {
            assert(rc[0] == comps[0]);
        }
        law_next_back_leaves_earlier_components(r, state, nz);
        assert(rc.drop_last() =~= comps.take(n - k));
        assert(rc.last() == comps[n - k]);
        let before = comp_views(comps.skip(n - k + 1));
        let now = comp_views(comps.skip(n - k));
        assert(now =~= seq![comps[n - k].0] + before);
        assert(now.reverse() =~= before.reverse() + seq![comps[n - k].0]);
    }
}

/// Iterating from the back gives the components read from the front, in reverse: once as many
/// steps as there are components have been taken off the back of a Windows path, they are its
/// components last first, and nothing is left to read. This holds except where the path starts
/// with an empty verbatim prefix followed by more components, such as `\\?\\a`: once only the
/// prefix and the root are left, `\\?\` alone reads as a UNC prefix
pub proof fn law_back_iteration_reverses_front(s: Seq<u8>, state: State, nz: bool)
    requires
        !(spec_components(s, state, nz, 0).len() >= 2 && starts_with_empty_verbatim(
            spec_components(s, state, nz, 0),
        )),
    ensures
        ({
            let comps = spec_components(s, state, nz, 0);
            &&& back_views(s, state, nz, comps.len()) == comp_views(comps).reverse()
            &&& spec_components(back_rest(s, state, nz, comps.len()), state, nz, 0).len() == 0
        }),
{
    let comps = spec_components(s, state, nz, 0);
    lemma_back_steps(s, state, nz, comps.len());
    assert(comps.skip(0) =~= comps);
}


/// A Windows path is absolute exactly when its first component is a prefix, of any kind, and its
/// second is the root directory
pub proof fn law_absolute_iff_prefix_then_root(p: Seq<u8>)
    ensures
        WindowsEncoding::spec_is_absolute(p) <==> (windows_comps(p).len() >= 2
            && windows_comps(p)[0].0 is Prefix && windows_comps(p)[1].0 is RootDir),
{
    let nz = !is_exact_verbatim(p);
    lemma_front_wf(p, State::AtBeginning, nz);
    if let Some((c, a, b, n, st)) = spec_front(p, State::AtBeginning, nz) {
        lemma_front_wf(p.skip(n), st, nz);
        let comps = windows_comps(p);
        let rest = spec_components(p.skip(n), st, nz, n);
        assert(comps == seq![(c, a, b)] + rest);
        if let Some((c2, a2, b2, n2, st2)) = spec_front(p.skip(n), st, nz) {
            assert(rest == seq![(c2, n + a2, n + b2)] + spec_components(
                p.skip(n).skip(n2),
                st2,
                nz,
                n + n2,
            ));
            assert(comps[1] == rest[0]);
        }
    }
}


/// A Windows path has a root exactly when its first component is the root directory, a prefix
/// other than a disk, or a disk (plain or verbatim) followed by the root directory
pub proof fn law_has_root_iff(p: Seq<u8>)
    ensures
        WindowsEncoding::spec_has_root(p) <==> (windows_comps(p).len() >= 1 && (
        windows_comps(p)[0].0 is RootDir || (windows_comps(p)[0].0 matches WindowsComponentView::Prefix(
            _,
            pv,
        ) && (!(pv is Disk || pv is VerbatimDisk) || (windows_comps(p).len() >= 2 && windows_comps(
            p,
        )[1].0 is RootDir))))),
{
    let nz = !is_exact_verbatim(p);
    lemma_front_wf(p, State::AtBeginning, nz);
    if let Some((c, a, b, n, st)) = spec_front(p, State::AtBeginning, nz) {
        lemma_front_wf(p.skip(n), st, nz);
        let comps = windows_comps(p);
        let rest = spec_components(p.skip(n), st, nz, n);
        assert(comps == seq![(c, a, b)] + rest);
        if let Some((c2, a2, b2, n2, st2)) = spec_front(p.skip(n), st, nz) {
            assert(rest == seq![(c2, n + a2, n + b2)] + spec_components(
                p.skip(n).skip(n2),
                st2,
                nz,
                n + n2,
            ));
            assert(comps[1] == rest[0]);
        }
    }
}

} // verus!
