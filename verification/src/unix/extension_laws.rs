//! Laws of setting the extension of a Unix path: what the path reads back afterwards.
use vstd::prelude::*;

use crate::common::components::{end_before_last, file_name_span, ComponentKind};
use crate::common::path::{
    lemma_split_stem_and_extension, lemma_stem_not_empty, lemma_stem_prefix, spec_extension,
    spec_file_name, spec_parent, spec_stem,
};
use crate::common::pathbuf::spec_set_extension;
use crate::constants::DOT_BYTE;
use crate::parser::{lemma_run_len, lemma_run_len_bounds, run_len};
use crate::unix::encoding::{unix_spans, UnixEncoding};
use crate::unix::hash::lemma_components_bytes;
use crate::unix::laws::{
    lemma_components_take, lemma_no_components_after_end, lemma_skip_from_stops,
};
use crate::unix::component::UnixComponentView;
use crate::unix::encoding::lemma_components_wf;
use crate::unix::parser::{
    cur_dir_at, disallowed_fn, ends_component, is_disallowed, is_sep, lemma_front_wf, not_sep_fn,
    lemma_skip_from_bounds, skip_from, spec_components, spec_first_component, spec_front,
    spec_front_parsed, spec_later_component, State,
};

verus! {

/// `nm` can stand as a name in a Unix path: it is not empty, holds no separator or nul byte, and
/// is neither `.` nor `..`
pub open spec fn valid_name(nm: Seq<u8>) -> bool {
    &&& nm.len() > 0
    &&& forall|i: int| 0 <= i < nm.len() ==> !is_disallowed(#[trigger] nm[i])
    &&& !(nm.len() == 1 && nm[0] == 46)
    &&& !(nm.len() == 2 && nm[0] == 46 && nm[1] == 46)
}

/// A name read by a parsing step is a valid name
proof fn lemma_front_name_valid(s: Seq<u8>, state: State)
    ensures
        spec_front(s, state) matches Some((c, _, _, _)) ==> (c matches UnixComponentView::Normal(
            v,
        ) ==> valid_name(v)),
{
    lemma_front_wf(s, state);
    lemma_skip_from_bounds(s, 0);
    lemma_skip_from_stops(s, 0);
    if let Some((c, a, b, n)) = spec_front(s, state) {
        if let UnixComponentView::Normal(v) = c {
            let t = s.skip(a);
            lemma_run_len_bounds(t, disallowed_fn());
            let l = run_len(t, disallowed_fn()) as int;
            assert(v == t.take(l));
            assert forall|i: int| 0 <= i < v.len() implies !is_disallowed(#[trigger] v[i]) by {
                assert(v[i] == t[i]);
                assert(!(disallowed_fn())(t[i]));
            }
            assert(l == b - a);
            if l == 1 && v[0] == 46 {
                assert(t[0] == 46);
                assert(ends_component(t, 1));
                if state == State::NotAtBeginning {
                    assert(s[a] == t[0]);
                    if a + 1 < s.len() {
                        assert(s[a + 1] == t[1]);
                    }
                    assert(cur_dir_at(s, a));
                }
                assert(false);
            }
            if l == 2 && v[0] == 46 && v[1] == 46 {
                assert(t[0] == 46 && t[1] == 46);
                assert(false);
            }
        }
    }
}

/// Every name among the components of a Unix path is a valid name
pub proof fn lemma_components_names_valid(s: Seq<u8>, state: State, base: int)
    ensures
        forall|i: int|
            0 <= i < spec_components(s, state, base).len() ==> ((#[trigger] spec_components(
                s,
                state,
                base,
            )[i]).0 matches UnixComponentView::Normal(v) ==> valid_name(v)),
    decreases s.len(),
{
    lemma_front_wf(s, state);
    lemma_front_name_valid(s, state);
    if let Some((c, a, b, n)) = spec_front(s, state) {
        if 0 < n <= s.len() {
            lemma_components_names_valid(s.skip(n), State::NotAtBeginning, base + n);
            let comps = spec_components(s, state, base);
            let rest = spec_components(s.skip(n), State::NotAtBeginning, base + n);
            assert(comps == seq![(c, base + a, base + b)] + rest);
            assert forall|i: int| 0 <= i < comps.len() implies ((#[trigger] comps[i]).0 matches UnixComponentView::Normal(
                v,
            ) ==> valid_name(v)) by {
                if i > 0 {
                    assert(comps[i] == rest[i - 1]);
                }
            }
        }
    }
}

/// Every offset that skipping passes over holds a separator or a `.` component
pub(crate) proof fn lemma_skip_from_passes(s: Seq<u8>, i: int)
    requires
        0 <= i <= s.len(),
    ensures
        forall|j: int| i <= j < skip_from(s, i) ==> is_sep(#[trigger] s[j]) || cur_dir_at(s, j),
    decreases s.len() - i,
{
    if 0 <= i < s.len() && (is_sep(s[i]) || cur_dir_at(s, i)) {
        lemma_skip_from_passes(s, i + 1);
    }
}

/// Skipping from `i` reaches `k` when every offset before `k` holds a separator or a `.`
/// component and `k` is the end of the input or holds neither
pub(crate) proof fn lemma_skip_from_reaches(s: Seq<u8>, i: int, k: int)
    requires
        0 <= i <= k <= s.len(),
        forall|j: int| i <= j < k ==> is_sep(#[trigger] s[j]) || cur_dir_at(s, j),
        k == s.len() || !(is_sep(s[k]) || cur_dir_at(s, k)),
    ensures
        skip_from(s, i) == k,
    decreases k - i,
{
    if i < k {
        assert(is_sep(s[i]) || cur_dir_at(s, i));
        lemma_skip_from_reaches(s, i + 1, k);
    }
}

/// What a parsing step reads, at the start of a path or past it
pub open spec fn parsed_at(t: Seq<u8>, state: State) -> Option<(Seq<u8>, UnixComponentView)> {
    if state == State::AtBeginning {
        spec_first_component(t)
    } else {
        spec_later_component(t)
    }
}

/// Two inputs that agree on their first `p` bytes give the same component, as long as what is
/// read lies within those bytes
pub(crate) proof fn lemma_parsed_agree(t: Seq<u8>, tx: Seq<u8>, p: int, state: State)
    requires
        0 < p <= t.len(),
        p <= tx.len(),
        forall|j: int| 0 <= j < p ==> t[j] == tx[j],
        parsed_at(t, state) matches Some((rest, c)) && ({
            let len = t.len() - rest.len();
            &&& (c is RootDir && len <= p) || len < p
            &&& c is RootDir || ends_component(t, len)
        }),
    ensures
        parsed_at(tx, state) matches Some((rx, cx)) && parsed_at(t, state) matches Some((rest, c))
            && cx == c && rx == tx.skip(t.len() - rest.len()),
{
    let (rest, c) = parsed_at(t, state).unwrap();
    let len = t.len() - rest.len();
    lemma_run_len_bounds(t, disallowed_fn());
    assert(t[0] == tx[0]);
    if p > 1 {
        assert(t[1] == tx[1]);
    }
    if p > 2 {
        assert(t[2] == tx[2]);
    }
    if let UnixComponentView::Normal(v) = c {
        assert(v == t.take(len));
        assert forall|j: int| 0 <= j < len implies !(disallowed_fn())(#[trigger] tx[j]) by {
            assert(t[j] == tx[j]);
        }
        assert(t[len] == tx[len]);
        lemma_run_len(tx, disallowed_fn(), len);
        assert(tx.take(len) =~= t.take(len)) by {
            assert forall|j: int| 0 <= j < len implies tx.take(len)[j] == t.take(len)[j] by {
                assert(t[j] == tx[j]);
            }
        }
    }
}

/// A parsing step leaves the input past what it read
pub(crate) proof fn lemma_parsed_rest(t: Seq<u8>, state: State)
    ensures
        parsed_at(t, state) matches Some((rest, _)) ==> rest == t.skip(t.len() - rest.len()),
{
    lemma_run_len_bounds(t, disallowed_fn());
}

/// Two inputs that agree up to offset `m`, where each holds a byte that is not a separator, take
/// the same parsing step when the step does not read past `m`
pub(crate) proof fn lemma_front_agree(s: Seq<u8>, x: Seq<u8>, m: int, state: State)
    requires
        0 <= m < s.len(),
        m < x.len(),
        s.take(m) == x.take(m),
        !is_sep(s[m]),
        !is_sep(x[m]),
        spec_front(s, state) matches Some((_, _, _, n)) && n <= m,
    ensures
        spec_front(x, state) == spec_front(s, state),
{
    lemma_front_wf(s, state);
    let (c, a, b, n) = spec_front(s, state).unwrap();
    assert forall|j: int| 0 <= j < m implies s[j] == x[j] by {
        assert(s.take(m)[j] == s[j]);
        assert(x.take(m)[j] == x[j]);
    }
    lemma_skip_from_bounds(s, 0);
    if state == State::NotAtBeginning {
        lemma_skip_from_passes(s, 0);
        lemma_skip_from_stops(s, 0);
        assert forall|j: int| 0 <= j < a implies is_sep(#[trigger] x[j]) || cur_dir_at(x, j) by {
            assert(s[j] == x[j]);
            assert(is_sep(s[j]) || cur_dir_at(s, j));
            if j + 1 < m {
                assert(s[j + 1] == x[j + 1]);
            }
        }
        assert(s[a] == x[a]);
        if a + 1 < m {
            assert(s[a + 1] == x[a + 1]);
        }
        lemma_skip_from_reaches(x, 0, a);
    }
    let t = s.skip(a);
    let tx = x.skip(a);
    let p = m - a;
    let (rest, c1) = spec_front_parsed(s, state).unwrap();
    let len = t.len() - rest.len();
    assert(len == b - a);
    lemma_parsed_rest(t, state);
    assert(parsed_at(t, state) == spec_front_parsed(s, state));
    if !(c is RootDir) {
        assert(is_sep(t[len]));
        assert(t[len] == s[b]);
    }
    assert forall|j: int| 0 <= j < p implies t[j] == tx[j] by {
        assert(t[j] == s[a + j]);
        assert(tx[j] == x[a + j]);
    }
    lemma_parsed_agree(t, tx, p, state);
    let rx = tx.skip(len);
    lemma_run_len_bounds(rest, not_sep_fn());
    assert forall|j: int| 0 <= j < n - b implies !(not_sep_fn())(#[trigger] rx[j]) by {
        assert(rest[j] == s[b + j]);
        assert(rx[j] == x[b + j]);
        assert(!(not_sep_fn())(rest[j]));
    }
    assert(rx[n - b] == x[n]);
    if n < m {
        assert(rest[n - b] == s[n]);
    }
    lemma_run_len(rx, not_sep_fn(), n - b);
}

/// A valid name read on its own is one name component that takes all of it
proof fn lemma_parse_valid_name(nm: Seq<u8>, state: State)
    requires
        valid_name(nm),
    ensures
        parsed_at(nm, state) == Some((nm.skip(nm.len() as int), UnixComponentView::Normal(nm))),
{
    assert forall|j: int| 0 <= j < nm.len() implies !(disallowed_fn())(#[trigger] nm[j]) by {
        assert(!is_disallowed(nm[j]));
    }
    lemma_run_len(nm, disallowed_fn(), nm.len() as int);
    assert(nm.take(nm.len() as int) =~= nm);
    assert(!is_disallowed(nm[0]));
    if nm.len() > 1 {
        assert(!is_disallowed(nm[1]));
    }
    if nm.len() > 2 {
        assert(!is_disallowed(nm[2]));
    }
}

/// Replacing the last component of a Unix path, a name that runs to the end of the input, by
/// another valid name changes that component and nothing else
#[verifier::spinoff_prover]
#[verifier::rlimit(60)]
proof fn lemma_components_replace_last(s: Seq<u8>, nm: Seq<u8>, state: State, base: int, a: int)
    requires
        spec_components(s, state, base).len() > 0,
        spec_components(s, state, base).last().0 is Normal,
        spec_components(s, state, base).last().1 == base + a,
        spec_components(s, state, base).last().2 == base + s.len(),
        0 <= a <= s.len(),
        valid_name(s.skip(a)),
        valid_name(nm),
    ensures
        spec_components(s.take(a) + nm, state, base) == spec_components(s, state, base).drop_last().push(
            (UnixComponentView::Normal(nm), base + a, base + a + nm.len()),
        ),
    decreases s.len(),
{
    lemma_front_wf(s, state);
    let comps = spec_components(s, state, base);
    let (c, a1, b1, n1) = spec_front(s, state).unwrap();
    let rest = spec_components(s.skip(n1), State::NotAtBeginning, base + n1);
    assert(comps == seq![(c, base + a1, base + b1)] + rest);
    let x = s.take(a) + nm;
    let new = (UnixComponentView::Normal(nm), base + a, base + a + nm.len());
    assert(s.skip(a)[0] == s[a]);
    assert(!is_disallowed(s[a]));
    assert(x[a] == nm[0]);
    assert(!is_disallowed(nm[0]));
    assert(x.take(a) =~= s.take(a));
    if rest.len() == 0 {
        assert(comps.last() == comps[0]);
        assert(a1 == a && b1 == s.len());
        lemma_skip_from_bounds(s, 0);
        if state == State::NotAtBeginning {
            lemma_skip_from_passes(s, 0);
            assert forall|j: int| 0 <= j < a implies is_sep(#[trigger] x[j]) || cur_dir_at(x, j) by {
                assert(x[j] == s[j]);
                assert(is_sep(s[j]) || cur_dir_at(s, j));
                if j + 1 < a {
                    assert(x[j + 1] == s[j + 1]);
                }
            }
            if nm.len() > 1 {
                assert(x[a + 1] == nm[1]);
                assert(!is_disallowed(nm[1]));
            }
            lemma_skip_from_reaches(x, 0, a);
        }
        let tx = x.skip(a);
        assert(tx =~= nm);
        lemma_parse_valid_name(nm, state);
        let e = nm.skip(nm.len() as int);
        assert(e =~= Seq::<u8>::empty());
        assert(run_len(e, not_sep_fn()) == 0);
        assert(spec_front(x, state) == Some((UnixComponentView::Normal(nm), a, a + nm.len(), a + nm.len())));
        assert(x.skip(a + nm.len()) =~= Seq::<u8>::empty());
        lemma_no_components_after_end(base + a + nm.len());
        assert(spec_components(x, state, base) =~= seq![new]);
        assert(comps.drop_last() =~= Seq::<(UnixComponentView, int, int)>::empty());
        assert(comps.drop_last().push(new) =~= seq![new]);
    } else {
        lemma_components_wf(s.skip(n1), State::NotAtBeginning, base + n1);
        assert(comps.last() == rest.last());
        assert(rest.last() == rest[rest.len() - 1]);
        assert(n1 <= a);
        lemma_front_agree(s, x, a, state);
        let s2 = s.skip(n1);
        let x2 = x.skip(n1);
        assert(x2 =~= s2.take(a - n1) + nm);
        assert(s2.skip(a - n1) =~= s.skip(a));
        lemma_components_replace_last(s2, nm, State::NotAtBeginning, base + n1, a - n1);
        assert(spec_components(x, state, base) == seq![(c, base + a1, base + b1)]
            + spec_components(x2, State::NotAtBeginning, base + n1));
        assert(comps.drop_last() =~= seq![(c, base + a1, base + b1)] + rest.drop_last());
        assert(spec_components(x, state, base) =~= comps.drop_last().push(new));
    }
}

/// Setting an extension that is not empty and holds no `.`, separator or nul byte: the result
/// says whether the path had a file name, and a path without one stays as it is; otherwise the
/// new file name has exactly that extension, its stem is the old stem and the parent of the path
/// is unchanged
pub proof fn law_set_extension_reads_back(p: Seq<u8>, ext: Seq<u8>)
    requires
        ext.len() > 0,
        forall|i: int| 0 <= i < ext.len() ==> #[trigger] ext[i] != DOT_BYTE && !is_disallowed(ext[i]),
    ensures
        ({
            let (ok, q) = spec_set_extension::<UnixEncoding>(p, ext);
            &&& ok == (spec_file_name::<UnixEncoding>(p) is Some)
            &&& !ok ==> q == p
            &&& ok ==> {
                &&& spec_file_name::<UnixEncoding>(q) is Some
                &&& spec_extension(spec_file_name::<UnixEncoding>(q).unwrap()) == Some(ext)
                &&& spec_stem(spec_file_name::<UnixEncoding>(q).unwrap()) == spec_stem(
                    spec_file_name::<UnixEncoding>(p).unwrap(),
                )
                &&& spec_parent::<UnixEncoding>(q) == spec_parent::<UnixEncoding>(p)
            }
        }),
{
    let comps = spec_components(p, State::AtBeginning, 0);
    let spans = unix_spans(p);
    if let Some((a, b)) = file_name_span(spans) {
        let k = comps.len() as int;
        assert(spans[k - 1] == (comps[k - 1].0.kind(), comps[k - 1].1, comps[k - 1].2));
        lemma_components_wf(p, State::AtBeginning, 0);
        lemma_components_take(p, State::AtBeginning, 0, k);
        assert(comps.take(k) =~= comps);
        assert(p.skip(0) =~= p);
        lemma_components_bytes(p, State::AtBeginning, 0);
        lemma_components_names_valid(p, State::AtBeginning, 0);
        let name = p.subrange(a, b);
        assert(comps[k - 1].0.bytes() == name);
        assert(valid_name(name));
        lemma_stem_prefix(name);
        lemma_stem_not_empty(name);
        let stem = spec_stem(name).unwrap();
        let nm = stem.push(DOT_BYTE) + ext;
        let s = p.take(b);
        let q = p.take(a + stem.len()).push(DOT_BYTE) + ext;
        assert(q =~= s.take(a) + nm) by {
            assert forall|j: int| 0 <= j < stem.len() implies stem[j] == p[a + j] by {
                assert(stem[j] == name.take(stem.len() as int)[j]);
            }
        }
        assert(s.skip(a) =~= name);
        assert forall|i: int| 0 <= i < nm.len() implies !is_disallowed(#[trigger] nm[i]) by {
            if i < stem.len() {
                assert(nm[i] == name[i]);
            } else if i > stem.len() {
                assert(nm[i] == ext[i - stem.len() - 1]);
            }
        }
        assert(valid_name(nm));
        lemma_components_replace_last(s, nm, State::AtBeginning, 0, a);
        let new = (UnixComponentView::Normal(nm), a, a + nm.len());
        let cq = comps.drop_last().push(new);
        assert(spec_components(q, State::AtBeginning, 0) == cq);
        let sq = unix_spans(q);
        assert(sq.len() == k);
        assert(sq[k - 1] == (ComponentKind::Normal, a, a + nm.len()));
        assert(q.subrange(a, a + nm.len()) =~= nm);
        assert(spec_file_name::<UnixEncoding>(q) == Some(nm));
        lemma_split_stem_and_extension(stem, ext);
        if k >= 2 {
            assert(sq[k - 2] == spans[k - 2]);
            assert(cq[k - 2] == comps[k - 2]);
            assert(comps[k - 2].2 <= comps[k - 1].1);
        }
        let e = end_before_last(spans);
        assert(end_before_last(sq) == e);
        assert(q.take(e) =~= p.take(e));
    }
}

} // verus!
