//! Laws of setting the extension of a Windows path: what the path reads back afterwards.
use vstd::prelude::*;

use crate::common::components::{end_before_last, file_name_span, ComponentKind};
use crate::common::path::{
    lemma_split_stem_and_extension, lemma_stem_not_empty, lemma_stem_prefix, spec_extension,
    spec_file_name, spec_parent, spec_stem,
};
use crate::common::pathbuf::spec_set_extension;
use crate::constants::DOT_BYTE;
use crate::parser::{lemma_run_len, lemma_run_len_bounds, lemma_run_len_take, run_len};
use crate::windows::component::WindowsComponentView;
use crate::windows::encoding::{
    lemma_components_wf, lemma_windows_comps, windows_comps, windows_spans, WindowsEncoding,
};
use crate::windows::laws::{
    lemma_components_take, lemma_exact_verbatim_prefix, lemma_no_components_after_end, lemma_skip_from_stops,
};
use crate::windows::parser::{
    cur_dir_at, ends_component, is_exact_verbatim, is_sep, lemma_front_wf, lemma_prefix_suffix,
    is_suffix, lemma_share_suffix, spec_separator, lemma_skip_from_bounds, sep_fn, skip_from, spec_normal_bytes, spec_prefix,
    spec_prefix_device_ns, spec_prefix_disk, spec_prefix_unc, spec_prefix_verbatim,
    spec_prefix_verbatim_disk, spec_prefix_verbatim_unc, spec_share,
    spec_components, spec_filename, spec_front, spec_prefix_component, spec_root_or_name, State,
};

verus! {

/// `v` can stand as the bytes of a name: it is not empty and holds no separator
pub open spec fn name_bytes(nz: bool, v: Seq<u8>) -> bool {
    v.len() > 0 && forall|i: int| 0 <= i < v.len() ==> !is_sep(#[trigger] v[i], nz)
}

/// Every offset that skipping passes over holds a separator or, when normalizing, a `.` component
pub(crate) proof fn lemma_skip_from_passes(nz: bool, s: Seq<u8>, i: int)
    requires
        0 <= i <= s.len(),
    ensures
        forall|j: int|
            i <= j < skip_from(nz, s, i) ==> is_sep(#[trigger] s[j], nz) || (nz && cur_dir_at(
                nz,
                s,
                j,
            )),
    decreases s.len() - i,
{
    if 0 <= i < s.len() && (is_sep(s[i], nz) || (nz && cur_dir_at(nz, s, i))) {
        lemma_skip_from_passes(nz, s, i + 1);
    }
}

/// Skipping from `i` reaches `k` when every offset before `k` holds a separator or a skipped `.`
/// component and `k` is the end of the input or holds neither
pub(crate) proof fn lemma_skip_from_reaches(nz: bool, s: Seq<u8>, i: int, k: int)
    requires
        0 <= i <= k <= s.len(),
        forall|j: int|
            i <= j < k ==> is_sep(#[trigger] s[j], nz) || (nz && cur_dir_at(nz, s, j)),
        k == s.len() || !(is_sep(s[k], nz) || (nz && cur_dir_at(nz, s, k))),
    ensures
        skip_from(nz, s, i) == k,
    decreases k - i,
{
    if i < k {
        assert(is_sep(s[i], nz) || (nz && cur_dir_at(nz, s, i)));
        lemma_skip_from_reaches(nz, s, i + 1, k);
    }
}

/// What a parsing step reads when it reads no prefix
pub open spec fn parsed_at(t: Seq<u8>, state: State, nz: bool) -> Option<
    (Seq<u8>, WindowsComponentView),
> {
    if state == State::NotAtBeginning {
        spec_filename(nz, t)
    } else {
        spec_root_or_name(nz, t)
    }
}

/// A parsing step leaves the input past what it read
pub(crate) proof fn lemma_parsed_rest(t: Seq<u8>, state: State, nz: bool)
    ensures
        parsed_at(t, state, nz) matches Some((rest, _)) ==> rest == t.skip(t.len() - rest.len()),
{
    lemma_run_len_bounds(t, sep_fn(nz));
}

/// Two inputs that agree on their first `p` bytes give the same component, as long as what is
/// read lies within those bytes
pub(crate) proof fn lemma_parsed_agree(t: Seq<u8>, tx: Seq<u8>, p: int, state: State, nz: bool)
    requires
        0 < p <= t.len(),
        p <= tx.len(),
        forall|j: int| 0 <= j < p ==> t[j] == tx[j],
        parsed_at(t, state, nz) matches Some((rest, c)) && ({
            let len = t.len() - rest.len();
            &&& (c is RootDir && len <= p) || len < p
            &&& c is RootDir || ends_component(nz, t, len)
        }),
    ensures
        parsed_at(tx, state, nz) matches Some((rx, cx)) && parsed_at(t, state, nz) matches Some(
            (rest, c),
        ) && cx == c && rx == tx.skip(t.len() - rest.len()),
{
    let (rest, c) = parsed_at(t, state, nz).unwrap();
    let len = t.len() - rest.len();
    lemma_run_len_bounds(t, sep_fn(nz));
    assert(t[0] == tx[0]);
    if p > 1 {
        assert(t[1] == tx[1]);
    }
    if p > 2 {
        assert(t[2] == tx[2]);
    }
    if let WindowsComponentView::Normal(v) = c {
        assert(v == t.take(len));
        assert forall|j: int| 0 <= j < len implies !(sep_fn(nz))(#[trigger] tx[j]) by {
            assert(t[j] == tx[j]);
        }
        assert(t[len] == tx[len]);
        lemma_run_len(tx, sep_fn(nz), len);
        assert(tx.take(len) =~= t.take(len)) by {
            assert forall|j: int| 0 <= j < len implies tx.take(len)[j] == t.take(len)[j] by {
                assert(t[j] == tx[j]);
            }
        }
    }
}

/// Two inputs that agree up to offset `m`, where each holds a byte that is not a separator, take
/// the same parsing step when the step reads no prefix and does not read past `m`
pub(crate) proof fn lemma_front_agree(s: Seq<u8>, x: Seq<u8>, m: int, state: State, nz: bool)
    requires
        0 <= m < s.len(),
        m < x.len(),
        s.take(m) == x.take(m),
        !is_sep(s[m], nz),
        !is_sep(x[m], nz),
        spec_front(s, state, nz) matches Some((c, _, _, n, _)) && n <= m && !(c is Prefix) && (n
            == m ==> !(nz && cur_dir_at(nz, s, m)) && !(nz && cur_dir_at(nz, x, m))),
        state == State::AtBeginning ==> spec_prefix_component(x) is None,
    ensures
        spec_front(x, state, nz) == spec_front(s, state, nz),
{
    reveal(spec_front);
    lemma_front_wf(s, state, nz);
    let (c, a, b, n, st) = spec_front(s, state, nz).unwrap();
    assert forall|j: int| 0 <= j < m implies s[j] == x[j] by {
        assert(s.take(m)[j] == s[j]);
        assert(x.take(m)[j] == x[j]);
    }
    assert(state == State::AtBeginning ==> spec_prefix_component(s) is None);
    let (rest, c1) = parsed_at(s, state, nz).unwrap();
    lemma_parsed_rest(s, state, nz);
    lemma_run_len_bounds(s, sep_fn(nz));
    let len = s.len() - rest.len();
    assert(len == b);
    assert(c is RootDir || ends_component(nz, s, len));
    if !(c is RootDir) {
        assert(is_sep(s[len], nz));
    }
    lemma_parsed_agree(s, x, m, state, nz);
    let rx = x.skip(len);
    let k = n - b;
    lemma_skip_from_bounds(nz, rest, 0);
    lemma_skip_from_passes(nz, rest, 0);
    lemma_skip_from_stops(nz, rest, 0);
    assert(k == skip_from(nz, rest, 0));
    assert forall|j: int| 0 <= j < k implies is_sep(#[trigger] rx[j], nz) || (nz && cur_dir_at(
        nz,
        rx,
        j,
    )) by {
        assert(rest[j] == s[len + j]);
        assert(rx[j] == x[len + j]);
        assert(is_sep(rest[j], nz) || (nz && cur_dir_at(nz, rest, j)));
        if len + j + 1 < m {
            assert(rest[j + 1] == s[len + j + 1]);
            assert(rx[j + 1] == x[len + j + 1]);
        } else {
            assert(rest[j + 1] == s[m]);
            assert(rx[j + 1] == x[m]);
        }
    }
    assert(rest[k] == s[n]);
    assert(rx[k] == x[n]);
    if n + 1 < m {
        assert(rest[k + 1] == s[n + 1]);
        assert(rx[k + 1] == x[n + 1]);
    } else if n + 1 == m {
        assert(rest[k + 1] == s[m]);
        assert(rx[k + 1] == x[m]);
    }
    lemma_skip_from_reaches(nz, rx, 0, k);
}

/// A name of at least three bytes read on its own, where no prefix is read, is one name component
proof fn lemma_components_of_name(nm: Seq<u8>, state: State, nz: bool, base: int)
    requires
        name_bytes(nz, nm),
        nm.len() >= 3,
        state == State::AtBeginning ==> spec_prefix_component(nm) is None,
    ensures
        spec_components(nm, state, nz, base) == seq![
            (WindowsComponentView::Normal(nm), base, base + nm.len()),
        ],
{
    reveal(spec_front);
    assert(!is_sep(nm[0], nz) && !is_sep(nm[1], nz) && !is_sep(nm[2], nz));
    assert forall|j: int| 0 <= j < nm.len() implies !(sep_fn(nz))(#[trigger] nm[j]) by {
        assert(!is_sep(nm[j], nz));
    }
    lemma_run_len(nm, sep_fn(nz), nm.len() as int);
    assert(nm.take(nm.len() as int) =~= nm);
    let e = nm.skip(nm.len() as int);
    assert(e =~= Seq::<u8>::empty());
    assert(parsed_at(nm, state, nz) == Some((e, WindowsComponentView::Normal(nm))));
    assert(skip_from(nz, e, 0) == 0);
    assert(spec_front(nm, state, nz) == Some(
        (
            WindowsComponentView::Normal(nm),
            0int,
            nm.len() as int,
            nm.len() as int,
            State::NotAtBeginning,
        ),
    ));
    lemma_no_components_after_end(State::NotAtBeginning, nz, base + nm.len());
    assert(spec_components(nm, state, nz, base) =~= seq![
        (WindowsComponentView::Normal(nm), base, base + nm.len()),
    ]);
}

/// `x` reads the same prefix as `s`, from the same bytes, or neither reads one
pub open spec fn same_prefix(s: Seq<u8>, x: Seq<u8>) -> bool {
    match spec_prefix_component(s) {
        None => spec_prefix_component(x) is None,
        Some((_, pc)) => spec_prefix_component(x) matches Some((_, pcx)) && pcx == pc,
    }
}

/// A parsing step starts its component where it starts reading; it reads a prefix exactly when it
/// is at the beginning and a prefix is there, and then consumes just the prefix
pub(crate) proof fn lemma_front_shape(s: Seq<u8>, state: State, nz: bool)
    ensures
        spec_front(s, state, nz) matches Some((c, a, b, n, st)) ==> a == 0 && (state
            == State::AtBeginning && !(c is Prefix) ==> spec_prefix_component(s) is None) && (
        c is Prefix ==> state == State::AtBeginning && (spec_prefix_component(s) matches Some(
            (r, pc),
        ) && c == WindowsComponentView::Prefix(pc.0, pc.1) && b == s.len() - r.len() && n == b
            && st == State::SeenPrefix && pc.0 == s.take(b))),
{
    reveal(spec_front);
    lemma_front_wf(s, state, nz);
}

/// Two inputs that read the same prefix at their beginning take the same first step
proof fn lemma_prefix_step_agree(s: Seq<u8>, x: Seq<u8>, nz: bool)
    requires
        spec_prefix_component(s) is Some,
        same_prefix(s, x),
    ensures
        spec_front(x, State::AtBeginning, nz) == spec_front(s, State::AtBeginning, nz),
{
    reveal(spec_front);
    lemma_prefix_suffix(s);
    lemma_prefix_suffix(x);
    let (r, pc) = spec_prefix_component(s).unwrap();
    let (rx, pcx) = spec_prefix_component(x).unwrap();
    assert(pc.0.len() == s.len() - r.len());
    assert(pcx.0.len() == x.len() - rx.len());
    assert(pcx == pc);
}

/// Replacing the last component of a Windows path, a name that runs to the end of the input, by
/// another name of at least three bytes changes that component and nothing else, as long as the
/// prefix read at the start stays the same
#[verifier::spinoff_prover]
#[verifier::rlimit(60)]
proof fn lemma_components_replace_last(
    s: Seq<u8>,
    nm: Seq<u8>,
    state: State,
    nz: bool,
    base: int,
    a: int,
)
    requires
        spec_components(s, state, nz, base).len() > 0,
        spec_components(s, state, nz, base).last().0 is Normal,
        spec_components(s, state, nz, base).last().1 == base + a,
        spec_components(s, state, nz, base).last().2 == base + s.len(),
        0 <= a < s.len(),
        name_bytes(nz, s.skip(a)),
        name_bytes(nz, nm),
        nm.len() >= 3,
        state == State::AtBeginning ==> same_prefix(s, s.take(a) + nm),
    ensures
        spec_components(s.take(a) + nm, state, nz, base) == spec_components(
            s,
            state,
            nz,
            base,
        ).drop_last().push((WindowsComponentView::Normal(nm), base + a, base + a + nm.len())),
    decreases s.len(),
{
    lemma_front_wf(s, state, nz);
    lemma_front_shape(s, state, nz);
    let comps = spec_components(s, state, nz, base);
    let (c, a1, b1, n1, st) = spec_front(s, state, nz).unwrap();
    let rest = spec_components(s.skip(n1), st, nz, base + n1);
    assert(comps == seq![(c, base + a1, base + b1)] + rest);
    let x = s.take(a) + nm;
    let new = (WindowsComponentView::Normal(nm), base + a, base + a + nm.len());
    assert(s.skip(a)[0] == s[a]);
    assert(!is_sep(s[a], nz));
    assert(x[a] == nm[0]);
    assert(x[a + 1] == nm[1]);
    assert(!is_sep(nm[0], nz) && !is_sep(nm[1], nz) && !is_sep(nm[2], nz));
    assert(x.take(a) =~= s.take(a));
    if rest.len() == 0 {
        assert(comps.last() == comps[0]);
        assert(a == 0 && b1 == s.len());
        assert(x =~= nm);
        assert(state == State::AtBeginning ==> spec_prefix_component(s) is None);
        lemma_components_of_name(nm, state, nz, base);
        assert(comps.drop_last() =~= Seq::<(WindowsComponentView, int, int)>::empty());
        assert(comps.drop_last().push(new) =~= seq![new]);
    } else {
        lemma_components_wf(s.skip(n1), st, nz, base + n1);
        assert(comps.last() == rest.last());
        assert(rest.last() == rest[rest.len() - 1]);
        assert(n1 <= a);
        if c is Prefix {
            lemma_prefix_step_agree(s, x, nz);
        } else {
            if n1 == a {
                let r1 = s.skip(b1);
                lemma_skip_from_stops(nz, r1, 0);
                assert(r1[a - b1] == s[a]);
                if a + 1 < s.len() {
                    assert(r1[a - b1 + 1] == s[a + 1]);
                }
            }
            lemma_front_agree(s, x, a, state, nz);
        }
        let s2 = s.skip(n1);
        let x2 = x.skip(n1);
        assert(x2 =~= s2.take(a - n1) + nm);
        assert(s2.skip(a - n1) =~= s.skip(a));
        lemma_components_replace_last(s2, nm, st, nz, base + n1, a - n1);
        assert(spec_components(x, state, nz, base) == seq![(c, base + a1, base + b1)]
            + spec_components(x2, st, nz, base + n1));
        assert(comps.drop_last() =~= seq![(c, base + a1, base + b1)] + rest.drop_last());
        assert(spec_components(x, state, nz, base) =~= comps.drop_last().push(new));
    }
}

/// Two inputs that agree on their first `p` bytes scan the same run, as long as one of the runs
/// stops within those bytes
pub(crate) proof fn lemma_run_agree(t: Seq<u8>, tx: Seq<u8>, p: int, f: spec_fn(u8) -> bool)
    requires
        0 <= p <= t.len(),
        p <= tx.len(),
        t.take(p) == tx.take(p),
    ensures
        run_len(t, f) < p ==> run_len(tx, f) == run_len(t, f),
        run_len(tx, f) < p ==> run_len(t, f) == run_len(tx, f),
        (run_len(t, f) >= p) == (run_len(tx, f) >= p),
{
    lemma_run_len_take(t, f, p);
    lemma_run_len_take(tx, f, p);
}

/// Runs of separators scanned from offset `k` of two inputs that agree up to `m`
pub(crate) proof fn lemma_runs_from(s: Seq<u8>, x: Seq<u8>, m: int, k: int)
    requires
        0 <= k <= m,
        m <= s.len(),
        m <= x.len(),
        s.take(m) == x.take(m),
    ensures
        forall|nz: bool|
            #![trigger run_len(s.skip(k), sep_fn(nz))]
            #![trigger run_len(x.skip(k), sep_fn(nz))]
            (run_len(s.skip(k), sep_fn(nz)) < m - k ==> run_len(x.skip(k), sep_fn(nz)) == run_len(
                s.skip(k),
                sep_fn(nz),
            )) && (run_len(x.skip(k), sep_fn(nz)) < m - k ==> run_len(s.skip(k), sep_fn(nz))
                == run_len(x.skip(k), sep_fn(nz))) && ((run_len(s.skip(k), sep_fn(nz)) >= m - k)
                == (run_len(x.skip(k), sep_fn(nz)) >= m - k)),
{
    assert(s.skip(k).take(m - k) =~= x.skip(k).take(m - k)) by {
        assert forall|j: int| 0 <= j < m - k implies #[trigger] s.skip(k).take(m - k)[j]
            == x.skip(k).take(m - k)[j] by {
            assert(s.take(m)[k + j] == x.take(m)[k + j]);
            assert(s.take(m)[k + j] == s[k + j]);
            assert(x.take(m)[k + j] == x[k + j]);
            assert(s.skip(k).take(m - k)[j] == s[k + j]);
            assert(x.skip(k).take(m - k)[j] == x[k + j]);
        }
    }
    assert forall|nz: bool|
        #![trigger run_len(s.skip(k), sep_fn(nz))]
        #![trigger run_len(x.skip(k), sep_fn(nz))]
        (run_len(s.skip(k), sep_fn(nz)) < m - k ==> run_len(x.skip(k), sep_fn(nz)) == run_len(
            s.skip(k),
            sep_fn(nz),
        )) && (run_len(x.skip(k), sep_fn(nz)) < m - k ==> run_len(s.skip(k), sep_fn(nz))
            == run_len(x.skip(k), sep_fn(nz))) && ((run_len(s.skip(k), sep_fn(nz)) >= m - k) == (
        run_len(x.skip(k), sep_fn(nz)) >= m - k)) by {
        lemma_run_agree(s.skip(k), x.skip(k), m - k, sep_fn(nz));
    }
}

/// The name scanned from offset `k` of `y`, the optional share after it, and the offset where the
/// share ends
pub open spec fn share_end(nz: bool, y: Seq<u8>, k: int) -> Option<(Seq<u8>, Seq<u8>, int)> {
    match spec_normal_bytes(nz, y.skip(k)) {
        None => None,
        Some((t, server)) => Some((server, spec_share(nz, t).1, y.len() - spec_share(nz, t).0.len())),
    }
}

/// A name scanned from offset `k` of two inputs that agree up to `m`, and the optional share after
/// it, are read the same when the first input's share ends by `m`
proof fn lemma_shares_agree(s: Seq<u8>, x: Seq<u8>, m: int, k: int, nz: bool)
    requires
        0 <= k <= m,
        m < s.len(),
        m < x.len(),
        s.take(m) == x.take(m),
        !is_sep(s[m], nz),
        !is_sep(x[m], nz),
    ensures
        share_end(nz, s, k) matches Some((_, _, e)) ==> (e <= m ==> share_end(nz, x, k)
            == share_end(nz, s, k)),
        spec_normal_bytes(nz, s.skip(k)) is None ==> spec_normal_bytes(nz, x.skip(k)) is None,
{
    assert forall|j: int| 0 <= j < m implies s[j] == x[j] by {
        assert(s.take(m)[j] == s[j]);
        assert(x.take(m)[j] == x[j]);
    }
    lemma_runs_from(s, x, m, k);
    let t0 = s.skip(k);
    let tx0 = x.skip(k);
    lemma_run_len_bounds(t0, sep_fn(nz));
    lemma_run_len_bounds(tx0, sep_fn(nz));
    let r = run_len(t0, sep_fn(nz)) as int;
    if r == 0 {
        if k < m {
            assert(t0[0] == tx0[0]);
        } else {
            assert(t0[0] == s[m]);
        }
    }
    if let Some((t, server)) = spec_normal_bytes(nz, t0) {
        if s.len() - spec_share(nz, t).0.len() <= m {
            let q = k + r;
            assert(t =~= s.skip(q));
            assert(r < m - k) by {
                if r >= m - k {
                    lemma_share_suffix(nz, t, s);
                    assert(spec_share(nz, t).0.len() <= t.len());
                    if r > m - k {
                        assert(false);
                    } else {
                        assert(t0[m - k] == s[m]);
                        assert(false);
                    }
                }
            }
            let tx = x.skip(q);
            assert(tx0.skip(r) =~= tx);
            assert(server =~= t0.take(r));
            assert(tx0.take(r) =~= t0.take(r)) by {
                assert forall|j: int| 0 <= j < r implies #[trigger] tx0.take(r)[j] == t0.take(r)[j] by {
                    assert(s[k + j] == x[k + j]);
                }
            }
            assert(s[q] == x[q]);
            assert(t[0] == s[q] && tx[0] == x[q]);
            if is_sep(s[q], nz) {
                lemma_runs_from(s, x, m, q + 1);
                assert(t.skip(1) =~= s.skip(q + 1));
                assert(tx.skip(1) =~= x.skip(q + 1));
                let u = s.skip(q + 1);
                let ux = x.skip(q + 1);
                lemma_run_len_bounds(u, sep_fn(nz));
                lemma_run_len_bounds(ux, sep_fn(nz));
                let r2 = run_len(u, sep_fn(nz)) as int;
                assert(r2 < m - q - 1 || (r2 == 0 && q + 1 == m) || u.len() == 0) by {
                    if r2 >= m - q - 1 && r2 > 0 {
                        if q + 1 + r2 > m {
                            assert(u[m - q - 1] == s[m]);
                        }
                    }
                }
                if r2 == 0 && q + 1 < s.len() && q + 1 < m {
                    assert(u[0] == ux[0]);
                }
                if q + 1 == m {
                    assert(u[0] == s[m]);
                    assert(ux[0] == x[m]);
                }
                assert(ux.take(r2) =~= u.take(r2)) by {
                    assert forall|j: int| 0 <= j < r2 implies #[trigger] ux.take(r2)[j] == u.take(r2)[j] by {
                        assert(s[q + 1 + j] == x[q + 1 + j]);
                    }
                }
                assert(u.skip(r2).len() == s.len() - q - 1 - r2);
            } else {
                lemma_runs_from(s, x, m, q);
                let r2 = run_len(t, sep_fn(nz)) as int;
                assert(r2 == 0);
            }
        }
    }
}

/// `s` and `x` agree up to offset `m`, where each holds a byte that is not a separator, and both
/// do or both do not start with exactly `\\?\`
pub open spec fn agree_upto(s: Seq<u8>, x: Seq<u8>, m: int) -> bool {
    &&& 0 <= m < s.len()
    &&& m < x.len()
    &&& s.take(m) == x.take(m)
    &&& is_exact_verbatim(s) == is_exact_verbatim(x)
    &&& !is_sep(s[m], !is_exact_verbatim(s))
    &&& !is_sep(x[m], !is_exact_verbatim(s))
}

/// Bytes before `m` are the same in two inputs that agree up to `m`
proof fn lemma_agree_bytes(s: Seq<u8>, x: Seq<u8>, m: int)
    requires
        agree_upto(s, x, m),
    ensures
        forall|j: int| 0 <= j < m ==> #[trigger] s[j] == x[j],
{
    assert forall|j: int| 0 <= j < m implies #[trigger] s[j] == x[j] by {
        assert(s.take(m)[j] == s[j]);
        assert(x.take(m)[j] == x[j]);
    }
}

/// A verbatim UNC prefix that ends by `m` is read the same from both inputs
proof fn lemma_verbatim_unc_agree(s: Seq<u8>, x: Seq<u8>, m: int)
    requires
        agree_upto(s, x, m),
        spec_prefix_verbatim_unc(s) matches Some((r, _)) && s.len() - r.len() <= m,
    ensures
        spec_prefix_verbatim_unc(x) matches Some((rx, vx)) && spec_prefix_verbatim_unc(s) matches Some(
            (r, v),
        ) && vx == v && x.len() - rx.len() == s.len() - r.len(),
{
    let nz = !is_exact_verbatim(s);
    lemma_agree_bytes(s, x, m);
    let (r, v) = spec_prefix_verbatim_unc(s).unwrap();
    let t = s.skip(4);
    let tx = x.skip(4);
    assert(t.skip(3).skip(1) =~= s.skip(8));
    let t3 = spec_normal_bytes(nz, s.skip(8)).unwrap().0;
    lemma_run_len_bounds(s.skip(8), sep_fn(nz));
    assert(is_suffix(t3, t3)) by {
        assert(t3 =~= t3.skip(0));
    }
    lemma_share_suffix(nz, t3, t3);
    assert(r == spec_share(nz, t3).0);
    assert(s.len() - r.len() >= 9);
    assert(m >= 9);
    assert(tx.skip(3).skip(1) =~= x.skip(8));
    assert(s[0] == x[0] && s[1] == x[1] && s[2] == x[2] && s[3] == x[3]);
    assert(t[0] == s[4] && t[1] == s[5] && t[2] == s[6]);
    assert(tx[0] == x[4] && tx[1] == x[5] && tx[2] == x[6]);
    assert(s[4] == x[4] && s[5] == x[5] && s[6] == x[6] && s[7] == x[7]);
    assert(t.skip(3)[0] == s[7] && tx.skip(3)[0] == x[7]);
    lemma_shares_agree(s, x, m, 8, nz);
    assert(share_end(nz, s, 8) matches Some((_, _, e)) && e == s.len() - r.len());
}

/// Bytes four to seven of an input, as the verbatim prefixes read them
proof fn lemma_verbatim_bytes(s: Seq<u8>)
    requires
        s.len() >= 4,
    ensures
        s.skip(4).len() > 0 ==> s.skip(4)[0] == s[4],
        s.skip(4).len() > 1 ==> s.skip(4)[1] == s[5],
        s.skip(4).len() > 2 ==> s.skip(4)[2] == s[6],
        s.skip(4).len() > 3 ==> s.skip(4).skip(3)[0] == s[7] && s.skip(4).skip(3).skip(1) == s.skip(
            8,
        ),
{
    if s.len() >= 8 {
        assert(s.skip(4).skip(3).skip(1) =~= s.skip(8));
    }
}

/// A verbatim disk prefix that ends by `m` is read the same from both inputs
proof fn lemma_verbatim_disk_agree(s: Seq<u8>, x: Seq<u8>, m: int)
    requires
        agree_upto(s, x, m),
        spec_prefix_verbatim_unc(s) is None,
        spec_prefix_verbatim_disk(s) matches Some((r, _)) && s.len() - r.len() <= m,
    ensures
        spec_prefix_verbatim_unc(x) is None,
        spec_prefix_verbatim_disk(x) matches Some((rx, vx)) && spec_prefix_verbatim_disk(s) matches Some(
            (r, v),
        ) && vx == v && x.len() - rx.len() == s.len() - r.len(),
{
    lemma_agree_bytes(s, x, m);
    lemma_verbatim_bytes(s);
    assert(m >= 6);
    lemma_verbatim_bytes(x);
    assert(s[0] == x[0] && s[1] == x[1] && s[2] == x[2] && s[3] == x[3]);
    assert(s[4] == x[4] && s[5] == x[5]);
}

/// A verbatim prefix that ends by `m`, when the first input has no other verbatim prefix, is read
/// the same from both inputs
proof fn lemma_verbatim_agree(s: Seq<u8>, x: Seq<u8>, m: int)
    requires
        agree_upto(s, x, m),
        spec_prefix_verbatim_unc(s) is None,
        spec_prefix_verbatim_disk(s) is None,
        spec_prefix_verbatim(s) matches Some((r, _)) && s.len() - r.len() <= m,
    ensures
        spec_prefix_verbatim_unc(x) is None,
        spec_prefix_verbatim_disk(x) is None,
        spec_prefix_verbatim(x) matches Some((rx, vx)) && spec_prefix_verbatim(s) matches Some(
            (r, v),
        ) && vx == v && x.len() - rx.len() == s.len() - r.len(),
{
    let nz = !is_exact_verbatim(s);
    lemma_agree_bytes(s, x, m);
    lemma_verbatim_bytes(s);
    let t = s.skip(4);
    lemma_run_len_bounds(t, sep_fn(nz));
    let rv = run_len(t, sep_fn(nz)) as int;
    assert(4 + rv < m) by {
        if rv > 0 {
            if 4 + rv >= m {
                assert(t[m - 4] == s[m]);
            }
        } else {
            assert(t[0] == s[4]);
        }
    }
    lemma_verbatim_bytes(x);
    assert(s[0] == x[0] && s[1] == x[1] && s[2] == x[2] && s[3] == x[3]);
    assert(s[4] == x[4]);
    lemma_runs_from(s, x, m, 4);
    assert(t.take(rv) =~= x.skip(4).take(rv)) by {
        assert forall|j: int| 0 <= j < rv implies #[trigger] t.take(rv)[j] == x.skip(4).take(rv)[j] by {
            assert(s[4 + j] == x[4 + j]);
        }
    }
    if 5 < m {
        assert(s[5] == x[5]);
    }
    if 6 < m {
        assert(s[6] == x[6]);
    }
    if 7 < m {
        assert(s[7] == x[7]);
    }
    if m >= 8 {
        lemma_shares_agree(s, x, m, 8, nz);
    }
}

/// A device namespace prefix that ends by `m`, when the first input has no verbatim prefix, is
/// read the same from both inputs
proof fn lemma_device_agree(s: Seq<u8>, x: Seq<u8>, m: int)
    requires
        agree_upto(s, x, m),
        spec_prefix_verbatim_unc(s) is None,
        spec_prefix_verbatim_disk(s) is None,
        spec_prefix_verbatim(s) is None,
        spec_prefix_device_ns(s) matches Some((r, _)) && s.len() - r.len() <= m,
    ensures
        spec_prefix_verbatim_unc(x) is None,
        spec_prefix_verbatim_disk(x) is None,
        spec_prefix_verbatim(x) is None,
        spec_prefix_device_ns(x) matches Some((rx, vx)) && spec_prefix_device_ns(s) matches Some(
            (r, v),
        ) && vx == v && x.len() - rx.len() == s.len() - r.len(),
{
    lemma_agree_bytes(s, x, m);
    let t = s.skip(4);
    lemma_run_len_bounds(t, sep_fn(true));
    let rd = run_len(t, sep_fn(true)) as int;
    assert(!is_exact_verbatim(s));
    assert(4 + rd < m) by {
        if 4 + rd >= m {
            assert(t[m - 4] == s[m]);
        }
    }
    assert(s[0] == x[0] && s[1] == x[1] && s[2] == x[2] && s[3] == x[3]);
    lemma_runs_from(s, x, m, 4);
    assert(t.take(rd) =~= x.skip(4).take(rd)) by {
        assert forall|j: int| 0 <= j < rd implies #[trigger] t.take(rd)[j] == x.skip(4).take(rd)[j] by {
            assert(s[4 + j] == x[4 + j]);
        }
    }
}

/// A disk prefix is read the same from both inputs
proof fn lemma_disk_agree(s: Seq<u8>, x: Seq<u8>, m: int)
    requires
        agree_upto(s, x, m),
        spec_prefix_disk(s) matches Some((r, _)) && s.len() - r.len() <= m,
    ensures
        spec_prefix_verbatim_unc(x) is None,
        spec_prefix_verbatim_disk(x) is None,
        spec_prefix_verbatim(x) is None,
        spec_prefix_device_ns(x) is None,
        spec_prefix_unc(x) is None,
        spec_prefix_disk(x) matches Some((rx, vx)) && spec_prefix_disk(s) matches Some((r, v))
            && vx == v && x.len() - rx.len() == s.len() - r.len(),
{
    lemma_agree_bytes(s, x, m);
    assert(s[0] == x[0] && s[1] == x[1]);
}

/// A UNC prefix that ends by `m`, when the first input has no other prefix tried before it, is
/// read the same from both inputs
proof fn lemma_unc_agree(s: Seq<u8>, x: Seq<u8>, m: int)
    requires
        agree_upto(s, x, m),
        spec_prefix_verbatim_unc(s) is None,
        spec_prefix_verbatim_disk(s) is None,
        spec_prefix_verbatim(s) is None,
        spec_prefix_device_ns(s) is None,
        spec_prefix_unc(s) matches Some((r, _)) && s.len() - r.len() <= m,
    ensures
        spec_prefix_verbatim_unc(x) is None,
        spec_prefix_verbatim_disk(x) is None,
        spec_prefix_verbatim(x) is None,
        spec_prefix_device_ns(x) is None,
        spec_prefix_unc(x) matches Some((rx, vx)) && spec_prefix_unc(s) matches Some((r, v))
            && vx == v && x.len() - rx.len() == s.len() - r.len(),
{
    lemma_agree_bytes(s, x, m);
    let (r, v) = spec_prefix_unc(s).unwrap();
    let t2 = s.skip(2);
    lemma_run_len_bounds(t2, sep_fn(true));
    let r2 = run_len(t2, sep_fn(true)) as int;
    let t3 = t2.skip(r2);
    assert(is_suffix(t3, t3)) by {
        assert(t3 =~= t3.skip(0));
    }
    lemma_share_suffix(true, t3, t3);
    assert(r == spec_share(true, t3).0);
    assert(s.len() - r.len() >= 4) by {
        assert(t3.len() == s.len() - 2 - r2);
        if r2 + 2 < s.len() {
            assert(t2[r2] == s[2 + r2]);
            assert(t3[0] == t2[r2]);
            assert(spec_separator(true, t3) == Some(t3.skip(1)));
            lemma_run_len_bounds(t3.skip(1), sep_fn(true));
            assert(r.len() <= t3.len() - 1);
        }
    }
    assert(s[0] == x[0] && s[1] == x[1] && s[2] == x[2] && s[3] == x[3]);
    assert(!is_exact_verbatim(s)) by {
        if is_exact_verbatim(s) {
            lemma_verbatim_bytes(s);
            lemma_run_len_bounds(s.skip(4), sep_fn(false));
            assert(s.skip(4)[0] == s[4]);
        }
    }
    if s[2] == 46 && is_sep(s[3], true) && m == 4 {
        lemma_run_len_bounds(s.skip(4), sep_fn(true));
        assert(s.skip(4)[0] == s[4]);
    }
    if m > 4 {
        assert(s[4] == x[4]);
        assert(s.skip(4)[0] == s[4]);
        assert(x.skip(4)[0] == x[4]);
    }
    lemma_shares_agree(s, x, m, 2, true);
    assert(share_end(true, s, 2) matches Some((_, _, e)) && e == s.len() - r.len());
}

/// Input without a prefix gives input without one when the two agree up to `m`, and the first
/// input is a root directory when `m` is 1
proof fn lemma_no_prefix_agree(s: Seq<u8>, x: Seq<u8>, m: int)
    requires
        agree_upto(s, x, m),
        1 <= m,
        spec_prefix(s) is None,
        m == 1 ==> is_sep(s[0], true),
    ensures
        spec_prefix(x) is None,
{
    lemma_agree_bytes(s, x, m);
    assert(!is_exact_verbatim(s)) by {
        if is_exact_verbatim(s) {
            lemma_exact_verbatim_prefix(s);
        }
    }
    assert(s[0] == x[0]);
    if m >= 2 {
        assert(s[1] == x[1]);
        if is_sep(s[0], true) && is_sep(s[1], true) {
            lemma_run_len_bounds(s.skip(2), sep_fn(true));
            assert(s.skip(2)[0] == s[2]);
            assert(m >= 3);
            assert(s[2] == x[2]);
            lemma_shares_agree(s, x, m, 2, true);
        }
    }
}

/// Two inputs that agree up to offset `m`, where each holds a byte that is not a separator, read
/// the same prefix when the prefix of the first ends by `m` (or neither reads one)
proof fn lemma_same_prefix(s: Seq<u8>, x: Seq<u8>, m: int)
    requires
        agree_upto(s, x, m),
        1 <= m,
        spec_prefix(s) matches Some((r, _)) ==> s.len() - r.len() <= m,
        spec_prefix(s) is None && m == 1 ==> is_sep(s[0], true),
    ensures
        same_prefix(s, x),
{
    lemma_prefix_suffix(s);
    lemma_prefix_suffix(x);
    if let Some((r, v)) = spec_prefix(s) {
        let l = s.len() - r.len();
        if spec_prefix_verbatim_unc(s) is Some {
            lemma_verbatim_unc_agree(s, x, m);
        } else if spec_prefix_verbatim_disk(s) is Some {
            lemma_verbatim_disk_agree(s, x, m);
        } else if spec_prefix_verbatim(s) is Some {
            lemma_verbatim_agree(s, x, m);
        } else if spec_prefix_device_ns(s) is Some {
            lemma_device_agree(s, x, m);
        } else if spec_prefix_unc(s) is Some {
            lemma_unc_agree(s, x, m);
        } else {
            lemma_disk_agree(s, x, m);
        }
        let (rx, vx) = spec_prefix(x).unwrap();
        assert(vx == v && x.len() - rx.len() == l);
        lemma_agree_bytes(s, x, m);
        assert(s.take(l) =~= x.take(l));
    } else {
        lemma_no_prefix_agree(s, x, m);
    }
}

/// A name read by a parsing step holds bytes that can stand as a name
proof fn lemma_front_name_bytes(s: Seq<u8>, state: State, nz: bool)
    ensures
        spec_front(s, state, nz) matches Some((c, _, _, _, _)) ==> (c matches WindowsComponentView::Normal(
            v,
        ) ==> name_bytes(nz, v)),
{
    reveal(spec_front);
    lemma_run_len_bounds(s, sep_fn(nz));
    if let Some((c, a, b, n, st)) = spec_front(s, state, nz) {
        if let WindowsComponentView::Normal(v) = c {
            let l = run_len(s, sep_fn(nz)) as int;
            assert(v == s.take(l));
            assert forall|i: int| 0 <= i < v.len() implies !is_sep(#[trigger] v[i], nz) by {
                assert(v[i] == s[i]);
                assert(!(sep_fn(nz))(s[i]));
            }
        }
    }
}

/// Every name among the components of a Windows path holds bytes that can stand as a name
proof fn lemma_components_name_bytes(s: Seq<u8>, state: State, nz: bool, base: int)
    ensures
        forall|i: int|
            0 <= i < spec_components(s, state, nz, base).len() ==> ((#[trigger] spec_components(
                s,
                state,
                nz,
                base,
            )[i]).0 matches WindowsComponentView::Normal(v) ==> name_bytes(nz, v)),
    decreases s.len(),
{
    lemma_front_wf(s, state, nz);
    lemma_front_name_bytes(s, state, nz);
    if let Some((c, a, b, n, st)) = spec_front(s, state, nz) {
        if 0 < n <= s.len() {
            lemma_components_name_bytes(s.skip(n), st, nz, base + n);
            let comps = spec_components(s, state, nz, base);
            let rest = spec_components(s.skip(n), st, nz, base + n);
            assert(comps == seq![(c, base + a, base + b)] + rest);
            assert forall|i: int| 0 <= i < comps.len() implies ((#[trigger] comps[i]).0 matches WindowsComponentView::Normal(
                v,
            ) ==> name_bytes(nz, v)) by {
                if i > 0 {
                    assert(comps[i] == rest[i - 1]);
                }
            }
        }
    }
}

/// A first component that ends at offset 1, followed by a byte that is not a separator, is the
/// root directory
proof fn lemma_first_of_one_byte(s: Seq<u8>, nz: bool)
    requires
        s.len() > 1,
        !is_sep(s[1], nz),
        spec_front(s, State::AtBeginning, nz) matches Some((c, _, b, n, _)) && !(c is Prefix) && n
            <= 1,
    ensures
        is_sep(s[0], nz),
{
    reveal(spec_front);
    lemma_front_wf(s, State::AtBeginning, nz);
    lemma_run_len_bounds(s, sep_fn(nz));
}

/// Replacing the bytes of a path from offset `a` on by a name keeps whether the path starts with
/// exactly `\\?\`, when a path that does has its name no earlier than offset 4
proof fn lemma_same_exactness(p: Seq<u8>, s: Seq<u8>, q: Seq<u8>, a: int, b: int, nm: Seq<u8>)
    requires
        0 <= a < b <= p.len(),
        s == p.take(b),
        q == s.take(a) + nm,
        nm.len() >= 3,
        name_bytes(!is_exact_verbatim(p), nm),
        is_exact_verbatim(p) ==> a >= 4,
    ensures
        is_exact_verbatim(s) == is_exact_verbatim(p),
        is_exact_verbatim(q) == is_exact_verbatim(p),
{
    if a >= 4 {
        assert(s[0] == p[0] && s[1] == p[1] && s[2] == p[2] && s[3] == p[3]);
        assert(q[0] == s[0] && q[1] == s[1] && q[2] == s[2] && q[3] == s[3]);
    } else {
        if b >= 4 {
            assert(s[0] == p[0] && s[1] == p[1] && s[2] == p[2] && s[3] == p[3]);
        }
        if q.len() >= 4 {
            assert(q[3] == nm[3 - a]);
            assert(!is_sep(nm[3 - a], !is_exact_verbatim(p)));
        }
    }
}

/// A name read first, without a prefix, followed by a `.` and an extension in place of what came
/// after its stem, still reads no prefix
proof fn lemma_name_has_no_prefix(s: Seq<u8>, stem: Seq<u8>, nm: Seq<u8>)
    requires
        spec_prefix_component(s) is None,
        s.len() > 0,
        0 < stem.len() <= s.len(),
        stem == s.take(stem.len() as int),
        nm.len() >= 3,
        nm[0] == s[0],
        stem.len() >= 2 ==> nm[1] == s[1],
        stem.len() == 1 ==> nm[1] == DOT_BYTE,
        !is_sep(nm[0], true),
        !is_sep(nm[1], true),
    ensures
        same_prefix(s, nm),
{
    if stem.len() >= 2 {
        assert(s.len() >= 2);
    }
}

/// Setting an extension that is not empty and holds no `.` or separator (`\` or `/`): the result
/// says whether the path had a file name, and a path without one stays as it is; otherwise the
/// new file name has exactly that extension, its stem is the old stem and the parent of the path
/// is unchanged
#[verifier::spinoff_prover]
#[verifier::rlimit(100)]
pub proof fn law_set_extension_reads_back(p: Seq<u8>, ext: Seq<u8>)
    requires
        ext.len() > 0,
        forall|i: int| 0 <= i < ext.len() ==> #[trigger] ext[i] != DOT_BYTE && !is_sep(ext[i], true),
    ensures
        ({
            let (ok, q) = spec_set_extension::<WindowsEncoding>(p, ext);
            &&& ok == (spec_file_name::<WindowsEncoding>(p) is Some)
            &&& !ok ==> q == p
            &&& ok ==> {
                &&& spec_file_name::<WindowsEncoding>(q) is Some
                &&& spec_extension(spec_file_name::<WindowsEncoding>(q).unwrap()) == Some(ext)
                &&& spec_stem(spec_file_name::<WindowsEncoding>(q).unwrap()) == spec_stem(
                    spec_file_name::<WindowsEncoding>(p).unwrap(),
                )
                &&& spec_parent::<WindowsEncoding>(q) == spec_parent::<WindowsEncoding>(p)
            }
        }),
{
    let nz = !is_exact_verbatim(p);
    let comps = windows_comps(p);
    let spans = windows_spans(p);
    if let Some((a, b)) = file_name_span(spans) {
        let k = comps.len() as int;
        assert(spans[k - 1] == (comps[k - 1].0.kind(), comps[k - 1].1, comps[k - 1].2));
        lemma_components_wf(p, State::AtBeginning, nz, 0);
        lemma_components_take(p, State::AtBeginning, nz, 0, k);
        assert(comps.take(k) =~= comps);
        lemma_windows_comps(p);
        lemma_components_name_bytes(p, State::AtBeginning, nz, 0);
        let name = p.subrange(a, b);
        assert(comps[k - 1].0.bytes() == name);
        assert(name_bytes(nz, name));
        lemma_stem_prefix(name);
        lemma_stem_not_empty(name);
        let stem = spec_stem(name).unwrap();
        let nm = stem.push(DOT_BYTE) + ext;
        let s = p.take(b);
        let q = p.take(a + stem.len()).push(DOT_BYTE) + ext;
        assert forall|j: int| 0 <= j < stem.len() implies stem[j] == name[j] by {
            assert(stem[j] == name.take(stem.len() as int)[j]);
        }
        assert(q =~= s.take(a) + nm);
        assert(s.skip(a) =~= name);
        assert forall|i: int| 0 <= i < nm.len() implies !is_sep(#[trigger] nm[i], nz) by {
            if i < stem.len() {
                assert(nm[i] == name[i]);
            } else if i > stem.len() {
                assert(nm[i] == ext[i - stem.len() - 1]);
            }
        }
        assert(name_bytes(nz, nm));
        assert(spec_components(s, State::AtBeginning, nz, 0) == comps);
        lemma_front_wf(s, State::AtBeginning, nz);
        lemma_front_shape(s, State::AtBeginning, nz);
        let (c, a1, b1, n1, st) = spec_front(s, State::AtBeginning, nz).unwrap();
        let rest = spec_components(s.skip(n1), st, nz, n1);
        assert(comps == seq![(c, a1, b1)] + rest);
        lemma_components_wf(s.skip(n1), st, nz, n1);
        if k >= 2 {
            assert(comps[k - 1] == rest[k - 2]);
            assert(n1 <= a);
        }
        assert(s[a] == name[0]);
        assert(q[a] == nm[0]);
        assert(!is_sep(name[0], nz) && !is_sep(nm[0], nz));
        assert(q.take(a) =~= s.take(a));
        if is_exact_verbatim(p) {
            lemma_exact_verbatim_prefix(p);
            lemma_front_shape(p, State::AtBeginning, nz);
            lemma_front_wf(p, State::AtBeginning, nz);
            let (c0, a0, b0, n0, st0) = spec_front(p, State::AtBeginning, nz).unwrap();
            assert(comps == seq![(c0, a0, b0)] + spec_components(p.skip(n0), st0, nz, n0));
            assert(c0 is Prefix);
            assert(comps[0].2 == b0);
            assert(k >= 2);
            assert(comps[0].2 <= comps[k - 1].1);
        }
        lemma_same_exactness(p, s, q, a, b, nm);
        lemma_prefix_suffix(s);
        if a >= 1 {
            assert(k >= 2);
            if spec_prefix_component(s) is Some {
                assert(c is Prefix);
            }
            if a == 1 && spec_prefix(s) is None {
                assert(s[1] == s[a]);
                lemma_first_of_one_byte(s, nz);
            }
            lemma_same_prefix(s, q, a);
        } else {
            assert(k == 1);
            assert(q =~= nm);
            assert(s =~= name);
            assert(!is_sep(nm[1], nz));
            if stem.len() >= 2 {
                assert(nm[1] == stem[1]);
            }
            lemma_name_has_no_prefix(s, stem, nm);
        }
        lemma_components_replace_last(s, nm, State::AtBeginning, nz, 0, a);
        let new = (WindowsComponentView::Normal(nm), a, a + nm.len());
        let cq = comps.drop_last().push(new);
        assert(windows_comps(q) == cq);
        let sq = windows_spans(q);
        assert(sq.len() == k);
        assert(sq[k - 1] == (ComponentKind::Normal, a, a + nm.len()));
        assert(q.subrange(a, a + nm.len()) =~= nm);
        assert(spec_file_name::<WindowsEncoding>(q) == Some(nm));
        lemma_split_stem_and_extension(stem, ext);
        if k >= 2 {
            assert(sq[k - 2] == spans[k - 2]);
            assert(cq[k - 2] == comps[k - 2]);
            assert(comps[k - 2].2 <= comps[k - 1].1);
        }
        let e = end_before_last(spans);
        assert(end_before_last(sq) == e);
        assert(q.take(e) =~= p.take(e));
    }
}

} // verus!
