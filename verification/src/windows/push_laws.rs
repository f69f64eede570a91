//! Laws of pushing a name onto a Windows path.
use vstd::prelude::*;

use crate::parser::{lemma_run_len, lemma_run_len_bounds, run_len};
use crate::constants::{COLON_BYTE, WINDOWS_SEPARATOR_BYTE};
use crate::windows::component::WindowsComponentView;
use crate::windows::prefix::WindowsPrefixView;
use crate::common::components::ComponentKind;
use crate::common::path::spec_file_name;
use crate::windows::components::{first_of, prefix_of, second_of};
use crate::windows::encoding::{
    is_only_disk, start_of, windows_comps, windows_push, windows_spans, WindowsEncoding,
};
use crate::windows::extension_laws::{
    lemma_front_agree, lemma_front_shape, lemma_parsed_agree, lemma_parsed_rest,
    lemma_skip_from_passes, lemma_skip_from_reaches, name_bytes, parsed_at,
};
use crate::windows::laws::{
    lemma_exact_verbatim_prefix, lemma_no_components_after_end, lemma_prefix_take, lemma_skip_from_stops,
    lemma_verbatim_family,
};
use crate::windows::parser::{
    cur_dir_at, ends_component, is_drive_letter, is_exact_verbatim, is_sep, lemma_front_wf, lemma_prefix_suffix,
    lemma_skip_from_bounds, sep_fn, skip_from, spec_components, spec_front, spec_prefix,
    spec_prefix_component, spec_prefix_device_ns, spec_prefix_disk, spec_prefix_unc,
    spec_prefix_verbatim, spec_prefix_verbatim_disk, spec_prefix_verbatim_unc, spec_separator,
    spec_verbatim, State,
};

verus! {

/// `nm` can be pushed as one name: it holds bytes that can stand as a name and is neither `.`
/// nor `..`
pub open spec fn single_name(nz: bool, nm: Seq<u8>) -> bool {
    &&& name_bytes(nz, nm)
    &&& !(nm.len() == 1 && nm[0] == 46)
    &&& !(nm.len() == 2 && nm[0] == 46 && nm[1] == 46)
}

/// A single name read on its own, where no prefix is read, is one name component
proof fn lemma_components_of_single_name(nm: Seq<u8>, state: State, nz: bool, base: int)
    requires
        single_name(nz, nm),
        state == State::AtBeginning ==> spec_prefix_component(nm) is None,
    ensures
        spec_components(nm, state, nz, base) == seq![
            (WindowsComponentView::Normal(nm), base, base + nm.len()),
        ],
{
    reveal(spec_front);
    assert(!is_sep(nm[0], nz));
    if nm.len() > 1 {
        assert(!is_sep(nm[1], nz));
    }
    if nm.len() > 2 {
        assert(!is_sep(nm[2], nz));
    }
    assert forall|j: int| 0 <= j < nm.len() implies !(sep_fn(nz))(#[trigger] nm[j]) by {
        assert(!is_sep(nm[j], nz));
    }
    lemma_run_len(nm, sep_fn(nz), nm.len() as int);
    assert(nm.take(nm.len() as int) =~= nm);
    let e = nm.skip(nm.len() as int);
    assert(e =~= Seq::<u8>::empty());
    assert(parsed_at(nm, state, nz) == Some((e, WindowsComponentView::Normal(nm))));
    assert(skip_from(nz, e, 0) == 0);
    assert(spec_front(nm, state, nz) == Some(
        (
            WindowsComponentView::Normal(nm),
            0int,
            nm.len() as int,
            nm.len() as int,
            State::NotAtBeginning,
        ),
    ));
    lemma_no_components_after_end(State::NotAtBeginning, nz, base + nm.len());
    assert(spec_components(nm, state, nz, base) =~= seq![
        (WindowsComponentView::Normal(nm), base, base + nm.len()),
    ]);
}

/// A step past the beginning reads something from input that is not empty, when past the
/// start of a path it does not start with a separator
proof fn lemma_front_some(s: Seq<u8>, state: State, nz: bool)
    requires
        state != State::AtBeginning,
        s.len() > 0,
        state == State::NotAtBeginning ==> !is_sep(s[0], nz),
    ensures
        spec_front(s, state, nz) is Some,
{
    reveal(spec_front);
    lemma_run_len_bounds(s, sep_fn(nz));
    if !is_sep(s[0], nz) {
        assert(!(sep_fn(nz))(s[0]));
        assert(run_len(s, sep_fn(nz)) >= 1) by {
            assert(s.len() > 0 && !(sep_fn(nz))(s[0]));
        }
    }
}


/// The step a parser takes past the beginning on input that ends with a separator: it reads no
/// prefix, starts at the beginning, and its component ends before the input does unless it is the
/// root directory
proof fn lemma_step_facts(s: Seq<u8>, state: State, nz: bool)
    requires
        state != State::AtBeginning,
        s.len() > 0,
        is_sep(s.last(), nz),
        spec_front(s, state, nz) is Some,
    ensures
        spec_front(s, state, nz) matches Some((c, a, b, n, st)) && !(c is Prefix) && a == 0
            && st == State::NotAtBeginning && (c is RootDir || b < s.len()) && (c is RootDir
            || ends_component(nz, s, b)) && n == b + skip_from(nz, s.skip(b), 0),
        parsed_at(s, state, nz) is Some,
        parsed_at(s, state, nz).unwrap().1 == spec_front(s, state, nz).unwrap().0,
        s.len() - parsed_at(s, state, nz).unwrap().0.len() == spec_front(s, state, nz).unwrap().2,
{
    reveal(spec_front);
    lemma_front_wf(s, state, nz);
    lemma_parsed_rest(s, state, nz);
    lemma_run_len_bounds(s, sep_fn(nz));
    assert(s.last() == s[s.len() - 1]);
    let (c, a, b, n, st) = spec_front(s, state, nz).unwrap();
    if !(c is RootDir) && b == s.len() {
        if let WindowsComponentView::Normal(v) = c {
            assert(!(sep_fn(nz))(s[b - 1]));
        }
    }
}

/// The last step on input that ends with a separator, where the step consumes all of it, is
/// taken the same when a single name follows
proof fn lemma_last_step_append(s: Seq<u8>, nm: Seq<u8>, state: State, nz: bool)
    requires
        state != State::AtBeginning,
        single_name(nz, nm),
        s.len() > 0,
        is_sep(s.last(), nz),
        spec_front(s, state, nz) matches Some((_, _, _, n, _)) && n == s.len(),
    ensures
        spec_front(s + nm, state, nz) == spec_front(s, state, nz),
{
    lemma_step_facts(s, state, nz);
    let x = s + nm;
    let (c, a, b, n, st) = spec_front(s, state, nz).unwrap();
    assert forall|j: int| 0 <= j < s.len() implies s[j] == x[j] by {}
    assert(x[s.len() as int] == nm[0]);
    assert(!is_sep(nm[0], nz));
    if nm.len() > 1 {
        assert(x[s.len() + 1int] == nm[1]);
        assert(!is_sep(nm[1], nz));
    }
    assert(s.last() == s[s.len() - 1]);
    let p = if c is RootDir { 1int } else { b + 1 };
    lemma_parsed_agree(s, x, p, state, nz);
    let r1 = s.skip(b);
    let k = n - b;
    let rx = x.skip(b);
    lemma_skip_from_bounds(nz, r1, 0);
    lemma_skip_from_passes(nz, r1, 0);
    assert forall|j: int| 0 <= j < k implies is_sep(#[trigger] rx[j], nz) || (nz && cur_dir_at(
        nz,
        rx,
        j,
    )) by {
        assert(r1[j] == s[b + j]);
        assert(rx[j] == x[b + j]);
        assert(is_sep(r1[j], nz) || (nz && cur_dir_at(nz, r1, j)));
        if b + j + 1 < s.len() {
            assert(r1[j + 1] == s[b + j + 1]);
            assert(rx[j + 1] == x[b + j + 1]);
        } else {
            assert(r1[j] == s.last());
        }
    }
    assert(rx[k] == nm[0]);
    if nm.len() > 1 {
        assert(rx[k + 1] == nm[1]);
    }
    lemma_skip_from_reaches(nz, rx, 0, k);
    reveal(spec_front);
}

/// A step that consumes only part of input ending with a separator is taken the same when a
/// single name follows
proof fn lemma_middle_step_append(s: Seq<u8>, nm: Seq<u8>, state: State, nz: bool)
    requires
        state != State::AtBeginning,
        single_name(nz, nm),
        s.len() > 0,
        is_sep(s.last(), nz),
        spec_front(s, state, nz) matches Some((_, _, _, n, _)) && n < s.len(),
    ensures
        spec_front(s + nm, state, nz) == spec_front(s, state, nz),
        spec_front(s, state, nz) matches Some((_, _, _, n, _)) && !is_sep(s[n], nz),
{
    lemma_step_facts(s, state, nz);
    let x = s + nm;
    let (c, a, b, n, st) = spec_front(s, state, nz).unwrap();
    let r1 = s.skip(b);
    let k = n - b;
    lemma_skip_from_bounds(nz, r1, 0);
    lemma_skip_from_stops(nz, r1, 0);
    assert(r1[k] == s[n]);
    assert(s.last() == s[s.len() - 1]);
    assert(n + 1 < s.len());
    assert(r1[k + 1] == s[n + 1]);
    assert(x[n] == s[n]);
    assert(x[n + 1] == s[n + 1]);
    assert(x.take(n) =~= s.take(n));
    lemma_front_agree(s, x, n, state, nz);
}

/// Pushing a single name after input that is empty or ends with a separator adds that name as
/// one more component and leaves the components before it as they were
pub proof fn lemma_components_append_name(s: Seq<u8>, nm: Seq<u8>, state: State, nz: bool, base: int)
    requires
        state != State::AtBeginning,
        single_name(nz, nm),
        s.len() == 0 || is_sep(s.last(), nz),
        state == State::NotAtBeginning ==> (s.len() == 0 || !is_sep(s[0], nz)),
    ensures
        spec_components(s + nm, state, nz, base) == spec_components(s, state, nz, base).push(
            (WindowsComponentView::Normal(nm), base + s.len(), base + s.len() + nm.len()),
        ),
    decreases s.len(),
{
    let x = s + nm;
    let new = (WindowsComponentView::Normal(nm), base + s.len(), base + s.len() + nm.len());
    if s.len() == 0 {
        assert(x =~= nm);
        lemma_components_of_single_name(nm, state, nz, base);
        assert(spec_front(s, state, nz) is None) by {
            reveal(spec_front);
            assert(run_len(s, sep_fn(nz)) == 0);
        }
        assert(spec_components(s, state, nz, base) =~= Seq::<(WindowsComponentView, int, int)>::empty());
        assert(Seq::<(WindowsComponentView, int, int)>::empty().push(new) =~= seq![new]);
    } else {
        lemma_front_some(s, state, nz);
        lemma_front_wf(s, state, nz);
        lemma_step_facts(s, state, nz);
        let (c, a, b, n, st) = spec_front(s, state, nz).unwrap();
        let comps = spec_components(s, state, nz, base);
        assert(comps == seq![(c, base + a, base + b)] + spec_components(s.skip(n), st, nz, base + n));
        if n < s.len() {
            lemma_middle_step_append(s, nm, state, nz);
            let s2 = s.skip(n);
            assert(x.skip(n) =~= s2 + nm);
            assert(s2.last() == s.last());
            assert(s2[0] == s[n]);
            lemma_components_append_name(s2, nm, st, nz, base + n);
            assert(spec_components(x, state, nz, base) == seq![(c, base + a, base + b)]
                + spec_components(x.skip(n), st, nz, base + n));
            assert(spec_components(x, state, nz, base) =~= comps.push(new));
        } else {
            lemma_last_step_append(s, nm, state, nz);
            assert(x.skip(n) =~= nm);
            lemma_components_of_single_name(nm, st, nz, base + n);
            assert(s.skip(n) =~= Seq::<u8>::empty());
            lemma_no_components_after_end(st, nz, base + n);
            assert(spec_components(x, state, nz, base) == seq![(c, base + a, base + b)]
                + spec_components(x.skip(n), st, nz, base + n));
            assert(spec_components(x, state, nz, base) =~= comps.push(new));
        }
    }
}

/// A disk, device or UNC prefix with a share, read from all of `c`, is read the same when more
/// bytes follow it, starting with a separator unless it is a disk
#[verifier::spinoff_prover]
#[verifier::rlimit(60)]
proof fn lemma_prefix_extends(c: Seq<u8>, z: Seq<u8>)
    requires
        spec_prefix(c) matches Some((r, p)) && r.len() == 0 && (p is Disk || p is DeviceNS || (
        p matches WindowsPrefixView::UNC(_, share) && share.len() > 0)),
        spec_prefix(c).unwrap().1 is Disk || (z.len() > 0 && is_sep(z[0], true)),
    ensures
        spec_prefix(c + z) == Some(((c + z).skip(c.len() as int), spec_prefix(c).unwrap().1)),
{
    let y = c + z;
    let p = spec_prefix(c).unwrap().1;
    let l = c.len() as int;
    lemma_prefix_suffix(c);
    assert forall|j: int| 0 <= j < l implies #[trigger] y[j] == c[j] by {}
    if !(p is Disk) {
        assert(y[l] == z[0]);
    }
    if p is Disk {
        assert(y[0] == c[0] && y[1] == c[1]);
    } else if p is DeviceNS {
        assert(y[0] == c[0] && y[1] == c[1] && y[2] == c[2] && y[3] == c[3]);
        let t = c.skip(4);
        let ty = y.skip(4);
        lemma_run_len_bounds(t, sep_fn(true));
        assert(run_len(t, sep_fn(true)) == l - 4);
        assert forall|j: int| 0 <= j < l - 4 implies !(sep_fn(true))(#[trigger] ty[j]) by {
            assert(ty[j] == t[j]);
        }
        assert(ty[l - 4] == z[0]);
        lemma_run_len(ty, sep_fn(true), l - 4);
        assert(ty.take(l - 4) =~= t.take(l - 4));
        assert(ty.skip(l - 4) =~= y.skip(l));
    } else {
        let t2 = c.skip(2);
        lemma_run_len_bounds(t2, sep_fn(true));
        let rs = run_len(t2, sep_fn(true)) as int;
        let t3 = t2.skip(rs);
        assert(t3.len() > 0) by {
            if t3.len() == 0 {
                assert(spec_separator(true, t3) is None);
                assert(t3.skip(0) =~= t3);
                assert(run_len(t3, sep_fn(true)) == 0);
            }
        }
        assert(t3[0] == c[2 + rs]);
        assert(t2[rs] == c[2 + rs]);
        let t4 = t3.skip(1);
        assert(t4 =~= c.skip(3 + rs));
        lemma_run_len_bounds(t4, sep_fn(true));
        assert(run_len(t4, sep_fn(true)) == l - 3 - rs);
        assert(y[0] == c[0] && y[1] == c[1] && y[2] == c[2] && y[3] == c[3]);
        if c[2] == 46 && is_sep(c[3], true) {
            lemma_run_len_bounds(c.skip(4), sep_fn(true));
            assert(c.skip(4)[0] == c[4]);
            assert(y[4] == c[4]);
            assert(y.skip(4)[0] == y[4]);
        }
        if spec_verbatim(c) is Some {
            lemma_verbatim_family(c);
        }
        let ty2 = y.skip(2);
        assert forall|j: int| 0 <= j < rs implies !(sep_fn(true))(#[trigger] ty2[j]) by {
            assert(ty2[j] == t2[j]);
        }
        assert(ty2[rs] == t2[rs]);
        lemma_run_len(ty2, sep_fn(true), rs);
        assert(ty2.take(rs) =~= t2.take(rs));
        let ty3 = ty2.skip(rs);
        assert(ty3[0] == t3[0]);
        let ty4 = ty3.skip(1);
        assert(ty4 =~= y.skip(3 + rs));
        assert forall|j: int| 0 <= j < l - 3 - rs implies !(sep_fn(true))(#[trigger] ty4[j]) by {
            assert(ty4[j] == t4[j]);
        }
        assert(ty4[l - 3 - rs] == z[0]);
        lemma_run_len(ty4, sep_fn(true), l - 3 - rs);
        assert(ty4.take(l - 3 - rs) =~= t4.take(l - 3 - rs));
        assert(ty4.skip(l - 3 - rs) =~= y.skip(l));
    }
}

/// Bytes without a prefix, followed by a separator or not as pushing adds one, and then a single
/// name that does not start like a drive, still have no prefix, unless the bytes are just two
/// separators
proof fn lemma_no_prefix_after_push(current: Seq<u8>, u: Seq<u8>, nm: Seq<u8>)
    requires
        spec_prefix(current) is None,
        u == current || (u == current.push(WINDOWS_SEPARATOR_BYTE) && current.len() > 0
            && !is_sep(current.last(), true)),
        u == current ==> current.len() == 0 || is_sep(current.last(), true),
        single_name(true, nm),
        !(nm.len() >= 2 && is_drive_letter(nm[0]) && nm[1] == COLON_BYTE),
        !(current.len() == 2 && is_sep(current[0], true) && is_sep(current[1], true)),
    ensures
        spec_prefix(u + nm) is None,
{
    let x = u + nm;
    assert(!is_sep(nm[0], true));
    if nm.len() > 1 {
        assert(!is_sep(nm[1], true));
    }
    assert forall|j: int| 0 <= j < current.len() implies #[trigger] x[j] == current[j] by {}
    if current.len() > 0 {
        assert(current.last() == current[current.len() - 1]);
    }
    if current.len() == 0 {
        assert(x =~= nm);
    } else if u == current {
        assert(x[current.len() as int] == nm[0]);
    } else {
        assert(x[current.len() as int] == WINDOWS_SEPARATOR_BYTE);
        assert(x[current.len() + 1int] == nm[0]);
    }
    let both = x.len() >= 2 && is_sep(x[0], true) && is_sep(x[1], true);
    if x.len() < 2 {
        assert(spec_prefix_disk(x) is None);
    } else if both {
        assert(current.len() >= 3) by {
            if current.len() == 1 {
                if u == current {
                    assert(x[1] == nm[0]);
                } else {
                    assert(x[0] == current[0]);
                }
            }
        }
        lemma_run_len_bounds(current.skip(2), sep_fn(true));
        assert(current.skip(2)[0] == current[2]);
        assert(is_sep(current[2], true)) by {
            if !is_sep(current[2], true) {
                assert(run_len(current.skip(2), sep_fn(true)) >= 1);
                assert(spec_prefix_unc(current) is Some);
            }
        }
        lemma_run_len_bounds(x.skip(2), sep_fn(true));
        assert(x.skip(2)[0] == x[2]);
        assert(spec_prefix_unc(x) is None);
        assert(spec_verbatim(x) is None);
        assert(spec_prefix_verbatim_unc(x) is None);
        assert(spec_prefix_verbatim_disk(x) is None);
        assert(spec_prefix_verbatim(x) is None);
        assert(spec_prefix_device_ns(x) is None);
        assert(spec_prefix_disk(x) is None);
    } else {
        assert(spec_verbatim(x) is None);
        assert(spec_prefix_verbatim_unc(x) is None);
        assert(spec_prefix_verbatim_disk(x) is None);
        assert(spec_prefix_verbatim(x) is None);
        assert(spec_prefix_device_ns(x) is None);
        assert(spec_prefix_unc(x) is None);
        assert(spec_prefix_disk(x) is None) by {
            if current.len() >= 2 {
                assert(spec_prefix_disk(current) is None);
            }
        }
    }
}

/// The prefix a Windows path starts with is the prefix read at its beginning
proof fn lemma_prefix_of_start(y: Seq<u8>)
    ensures
        spec_prefix_component(y) matches Some((_, pc)) ==> prefix_of(start_of(y)) == Some(pc),
        spec_prefix_component(y) is None ==> prefix_of(start_of(y)) is None,
{
    reveal(spec_front);
    lemma_front_wf(y, State::AtBeginning, !is_exact_verbatim(y));
}

/// Without a prefix, reading from the beginning goes as reading after a prefix
proof fn lemma_no_prefix_components(y: Seq<u8>, nz: bool, base: int)
    requires
        spec_prefix_component(y) is None,
    ensures
        spec_components(y, State::AtBeginning, nz, base) == spec_components(
            y,
            State::SeenPrefix,
            nz,
            base,
        ),
{
    assert(spec_front(y, State::AtBeginning, nz) == spec_front(y, State::SeenPrefix, nz)) by {
        reveal(spec_front);
    }
}

/// With a prefix, reading from the beginning gives the prefix and then what is read after it
proof fn lemma_prefix_components(y: Seq<u8>, nz: bool, base: int)
    requires
        spec_prefix_component(y) is Some,
    ensures
        spec_prefix_component(y) matches Some((r, pc)) && spec_components(
            y,
            State::AtBeginning,
            nz,
            base,
        ) == seq![(WindowsComponentView::Prefix(pc.0, pc.1), base, base + y.len() - r.len())]
            + spec_components(
            y.skip(y.len() - r.len()),
            State::SeenPrefix,
            nz,
            base + y.len() - r.len(),
        ),
{
    lemma_front_wf(y, State::AtBeginning, nz);
    lemma_front_shape(y, State::AtBeginning, nz);
    assert(spec_front(y, State::AtBeginning, nz) is Some) by {
        reveal(spec_front);
    }
}

/// Bytes whose prefix is neither verbatim nor a UNC prefix without a share do not start with
/// exactly `\\?\`
proof fn lemma_not_exact_verbatim(y: Seq<u8>)
    requires
        !(prefix_of(start_of(y)) matches Some((_, p)) && (p.is_verbatim() || (p matches WindowsPrefixView::UNC(
            _,
            share,
        ) && share.len() == 0))),
    ensures
        !is_exact_verbatim(y),
{
    if is_exact_verbatim(y) {
        lemma_exact_verbatim_prefix(y);
        lemma_prefix_of_start(y);
        if y.len() > 4 {
            lemma_verbatim_family(y);
        } else {
            let t = y.skip(2);
            assert(t[0] == y[2] && t[1] == y[3]);
            lemma_run_len_bounds(t, sep_fn(true));
            assert(run_len(t, sep_fn(true)) == 1) by {
                assert(t.drop_first()[0] == t[1]);
            }
            let u = t.skip(1);
            assert(u[0] == y[3]);
            lemma_run_len_bounds(u.skip(1), sep_fn(true));
            assert(y.skip(4).len() == 0);
            assert(spec_prefix_verbatim_unc(y) is None);
            assert(spec_prefix_verbatim_disk(y) is None);
            assert(spec_prefix_verbatim(y) is None);
            assert(spec_prefix_device_ns(y) is None);
            assert(spec_prefix_unc(y) matches Some((_, WindowsPrefixView::UNC(_, share)))
                && share.len() == 0);
        }
        assert(false);
    }
}

/// A device prefix or a UNC prefix with a share that does not take all of its input is followed by a separator, and one
/// that does ends with a byte that is not a separator
proof fn lemma_prefix_end(y: Seq<u8>)
    requires
        spec_prefix(y) matches Some((_, p)) && (p is DeviceNS || (p matches WindowsPrefixView::UNC(
            _,
            share,
        ) && share.len() > 0)),
    ensures
        spec_prefix(y) matches Some((r, _)) && (r.len() > 0 ==> is_sep(r[0], true)) && (r.len()
            == 0 ==> !is_sep(y.last(), true)),
{
    lemma_prefix_suffix(y);
    let (r, p) = spec_prefix(y).unwrap();
    assert(y.last() == y[y.len() - 1]);
    if p is DeviceNS {
        assert(spec_prefix_device_ns(y) == spec_prefix(y));
        let t = y.skip(4);
        lemma_run_len_bounds(t, sep_fn(true));
        let k = run_len(t, sep_fn(true)) as int;
        assert(r =~= t.skip(k));
        if r.len() == 0 {
            assert(t[k - 1] == y[y.len() - 1]);
        } else {
            assert(r[0] == t[k]);
        }
    } else {
        assert(spec_prefix_unc(y) == spec_prefix(y));
        let t2 = y.skip(2);
        lemma_run_len_bounds(t2, sep_fn(true));
        let rs = run_len(t2, sep_fn(true)) as int;
        let t3 = t2.skip(rs);
        if t3.len() == 0 {
            assert(t3.skip(0) =~= t3);
            assert(run_len(t3, sep_fn(true)) == 0);
            assert(r.len() == 0);
            assert(t2[rs - 1] == y[y.len() - 1]);
        } else {
            assert(t3[0] == t2[rs]);
            let t4 = t3.skip(1);
            lemma_run_len_bounds(t4, sep_fn(true));
            let k = run_len(t4, sep_fn(true)) as int;
            if k == 0 {
                assert(t4.skip(0) =~= t4);
                assert(r == t4);
                if r.len() > 0 {
                    assert(r[0] == t4[0]);
                } else {
                    assert(t3[0] == y[y.len() - 1]);
                }
            } else {
                assert(r == t4.skip(k));
                if r.len() > 0 {
                    assert(r[0] == t4[k]);
                } else {
                    assert(t4[k - 1] == y[y.len() - 1]);
                }
            }
        }
    }
}

/// Pushing a single name onto a Windows path without a verbatim prefix makes that name the file
/// name of the result: the current path is kept in front, a separator is put between them unless
/// the current path is empty, ends with a separator or is only a disk like `C:`, the prefix read
/// at the start stays the same, and the last component is the name, taking the last bytes of the
/// result. This holds unless the name would be read as part of the prefix: after a UNC prefix
/// without a share, or after just two separators
#[verifier::spinoff_prover]
#[verifier::rlimit(100)]
pub proof fn law_push_name_becomes_file_name(current: Seq<u8>, nm: Seq<u8>)
    requires
        single_name(true, nm),
        !(nm.len() >= 2 && is_drive_letter(nm[0]) && nm[1] == COLON_BYTE),
        !(prefix_of(start_of(current)) matches Some((_, p)) && (p.is_verbatim() || (p matches WindowsPrefixView::UNC(
            _,
            share,
        ) && share.len() == 0))),
        !(current.len() == 2 && is_sep(current[0], true) && is_sep(current[1], true)),
    ensures
        ({
            let x = windows_push(current, nm);
            let sep = current.len() > 0 && !is_sep(current.last(), true) && !is_only_disk(current);
            &&& x.take(current.len() as int) == current
            &&& x.len() == current.len() + nm.len() + if sep { 1int } else { 0int }
            &&& sep ==> x[current.len() as int] == WINDOWS_SEPARATOR_BYTE
            &&& prefix_of(start_of(x)) == prefix_of(start_of(current))
            &&& windows_comps(x).len() > 0
            &&& windows_comps(x).last() == (
                WindowsComponentView::Normal(nm),
                x.len() - nm.len(),
                x.len() as int,
            )
            &&& spec_file_name::<WindowsEncoding>(x) == Some(nm)
        }),
{
    let x = windows_push(current, nm);
    let sep = current.len() > 0 && !is_sep(current.last(), true) && !is_only_disk(current);
    lemma_not_exact_verbatim(current);
    // the name has no prefix and no root
    lemma_no_prefix_after_push(Seq::<u8>::empty(), Seq::<u8>::empty(), nm);
    assert(Seq::<u8>::empty() + nm =~= nm);
    assert(!is_exact_verbatim(nm)) by {
        assert(!is_sep(nm[0], true));
    }
    lemma_prefix_of_start(nm);
    lemma_components_of_single_name(nm, State::AtBeginning, true, 0);
    lemma_front_wf(nm, State::AtBeginning, true);
    assert(first_of(start_of(nm)) == Some(WindowsComponentView::Normal(nm))) by {
        let (c, a, b, n, st) = spec_front(nm, State::AtBeginning, true).unwrap();
        assert(spec_components(nm, State::AtBeginning, true, 0)[0] == (c, a, b));
    }
    let u = if sep {
        current.push(WINDOWS_SEPARATOR_BYTE)
    } else {
        current
    };
    assert(x == u + nm);
    assert(x.take(current.len() as int) =~= current);
    if current.len() > 0 {
        assert(current.last() == current[current.len() - 1]);
    }
    let new = (WindowsComponentView::Normal(nm), u.len() as int, (u.len() + nm.len()) as int);
    lemma_prefix_of_start(current);
    lemma_prefix_suffix(current);
    if spec_prefix_component(current) is None {
        assert(!sep ==> current.len() == 0 || is_sep(current.last(), true));
        lemma_no_prefix_after_push(current, u, nm);
        assert(!is_exact_verbatim(x)) by {
            if is_exact_verbatim(x) {
                lemma_exact_verbatim_prefix(x);
            }
        }
        lemma_prefix_of_start(x);
        lemma_no_prefix_components(x, true, 0);
        assert(u.len() == 0 || is_sep(u.last(), true));
        lemma_components_append_name(u, nm, State::SeenPrefix, true, 0);
    } else {
        let (r, pc) = spec_prefix_component(current).unwrap();
        let l = current.len() - r.len();
        let p = pc.1;
        assert(pc.0 == current.take(l));
        lemma_prefix_take(current, l);
        assert(current.take(l).skip(l).len() == 0);
        let z = x.skip(l);
        assert(x =~= current.take(l) + z);
        if !(p is Disk) {
            lemma_prefix_end(current);
            if r.len() > 0 {
                assert(z[0] == current[l]);
                assert(r[0] == current[l]);
            } else {
                assert(sep);
                assert(z[0] == WINDOWS_SEPARATOR_BYTE);
            }
        }
        lemma_prefix_extends(current.take(l), z);
        assert(x.take(l) =~= current.take(l));
        assert(spec_prefix_component(x) == Some((x.skip(l), pc)));
        assert(!is_exact_verbatim(x)) by {
            if is_exact_verbatim(x) {
                if x.len() > 4 {
                    lemma_verbatim_family(x);
                }
                lemma_exact_verbatim_prefix(x);
            }
        }
        lemma_prefix_of_start(x);
        lemma_prefix_components(x, true, 0);
        let ut = u.skip(l);
        assert(x.skip(l) =~= ut + nm);
        assert(ut.len() == 0 || is_sep(ut.last(), true)) by {
            if ut.len() > 0 {
                assert(ut.last() == u.last());
                if !sep && !is_sep(current.last(), true) {
                    assert(is_only_disk(current));
                    lemma_front_wf(current, State::AtBeginning, true);
                    lemma_front_shape(current, State::AtBeginning, true);
                    assert(r == current.skip(l));
                    lemma_front_some(r, State::SeenPrefix, true);
                    assert(second_of(start_of(current)) is Some);
                }
            }
        }
        lemma_components_append_name(ut, nm, State::SeenPrefix, true, l);
        let cs = spec_components(ut, State::SeenPrefix, true, l);
        assert(windows_comps(x) == seq![(WindowsComponentView::Prefix(pc.0, pc.1), 0, l)]
            + cs.push(new));
    }
    let comps = windows_comps(x);
    assert(comps.last() == new);
    let spans = windows_spans(x);
    assert(spans.last() == (ComponentKind::Normal, u.len() as int, x.len() as int));
    assert(x.subrange(u.len() as int, x.len() as int) =~= nm);
}

} // verus!
