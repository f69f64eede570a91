//! Laws of normalizing and absolutizing Windows paths whose prefix is not verbatim.
use vstd::prelude::*;

use crate::common::components::ComponentKind;
use crate::common::encoding::Encoding;
use crate::common::normalize::{keep_step, kept, parts, push_all, spec_absolutize, spec_normalize};
use crate::constants::WINDOWS_SEPARATOR_BYTE;
use crate::parser::{lemma_run_len, lemma_run_len_bounds, run_len};
use crate::windows::component::WindowsComponentView;
use crate::windows::components::{prefix_of, spec_has_root, spec_is_absolute};
use crate::windows::encoding::{
    lemma_windows_comps, start_of, windows_comps, windows_push, WindowsEncoding,
};
use crate::windows::parser::{
    is_exact_verbatim, is_sep, lemma_front_wf, sep_fn, spec_components,
    lemma_prefix_suffix, spec_front, spec_prefix, spec_prefix_device_ns, spec_prefix_unc,
    spec_share, spec_verbatim, State,
};
use crate::windows::laws::{lemma_prefix_take, lemma_question_server, lemma_verbatim_family};
use crate::windows::parse_laws::lemma_prefix_min_len;
use crate::windows::prefix::WindowsPrefixView;

verus! {

/// A name with no prefix and no separator at its start has neither a prefix nor a root
proof fn lemma_plain_name(x: Seq<u8>)
    requires
        x.len() > 0,
        spec_prefix(x) is None,
        !is_sep(x[0], true),
    ensures
        !spec_is_absolute(start_of(x)),
        prefix_of(start_of(x)) is None,
        !spec_has_root(start_of(x)),
{
    reveal(spec_front);
    let nz = !is_exact_verbatim(x);
    lemma_run_len_bounds(x, sep_fn(nz));
}

/// Past the root, the components of a path where `.` components are skipped are names, which
/// are not empty and start with no separator, and `..`
proof fn lemma_later_comps_shape(s: Seq<u8>, base: int)
    ensures
        forall|i: int|
            0 <= i < spec_components(s, State::NotAtBeginning, true, base).len() ==> ({
                let c = (#[trigger] spec_components(s, State::NotAtBeginning, true, base)[i]).0;
                c is ParentDir || (c matches WindowsComponentView::Normal(b) && b.len() > 0
                    && !is_sep(b[0], true))
            }),
    decreases s.len(),
{
    reveal(spec_front);
    lemma_front_wf(s, State::NotAtBeginning, true);
    lemma_run_len_bounds(s, sep_fn(true));
    if let Some((c, a, b, n, st)) = spec_front(s, State::NotAtBeginning, true) {
        if 0 < n <= s.len() {
            lemma_later_comps_shape(s.skip(n), base + n);
            let comps = spec_components(s, State::NotAtBeginning, true, base);
            let rest = spec_components(s.skip(n), State::NotAtBeginning, true, base + n);
            assert(comps == seq![(c, base + a, base + b)] + rest);
            assert forall|i: int| 0 <= i < comps.len() implies ({
                let c = (#[trigger] comps[i]).0;
                c is ParentDir || (c matches WindowsComponentView::Normal(b) && b.len() > 0
                    && !is_sep(b[0], true))
            }) by {
                if i > 0 {
                    assert(comps[i] == rest[i - 1]);
                }
            }
        }
    }
}

/// No name that normalizing `p` keeps past its first two parts reads as having a prefix of its own
pub open spec fn kept_names_plain(p: Seq<u8>) -> bool {
    forall|i: int|
        2 <= i < kept(parts::<WindowsEncoding>(p)).len() ==> spec_prefix(
            #[trigger] kept(parts::<WindowsEncoding>(p))[i].1,
        ) is None
}

/// `s` starts with a prefix that is not verbatim (a drive, a UNC server and share, or a device),
/// taking its first `c` bytes, followed by a separator
pub open spec fn prefix_rooted(s: Seq<u8>, c: int, v: WindowsPrefixView) -> bool {
    &&& spec_prefix(s) == Some((s.skip(c), v))
    &&& !v.is_verbatim()
    &&& 0 <= c < s.len()
    &&& is_sep(s[c], true)
}

/// A UNC server and share read from `s`, ending right before a separator at `c`, are read the same
/// from any input that agrees with `s` before `c` and has a separator at `c`
proof fn lemma_unc_swap(s: Seq<u8>, c: int, t: Seq<u8>)
    requires
        spec_prefix_unc(s) matches Some((rest, _)) && rest == s.skip(c),
        0 <= c < s.len(),
        is_sep(s[c], true),
        c < t.len(),
        t.take(c) == s.take(c),
        is_sep(t[c], true),
    ensures
        spec_prefix_unc(t) == Some((t.skip(c), spec_prefix_unc(s).unwrap().1)),
{
    assert forall|i: int| 0 <= i < c implies #[trigger] t[i] == s[i] by {
        assert(t.take(c)[i] == t[i]);
        assert(s.take(c)[i] == s[i]);
        assert(t.take(c)[i] == s.take(c)[i]);
    }
    let x = s.skip(2);
    lemma_run_len_bounds(x, sep_fn(true));
    let k = run_len(x, sep_fn(true)) as int;
    let e = 2 + k;
    let tt = s.skip(e);
    assert(x.skip(k) =~= tt);
    if tt.len() == 0 {
        assert(false);
    }
    assert(tt[0] == x[k]);
    let t2 = tt.skip(1);
    lemma_run_len_bounds(t2, sep_fn(true));
    let k2 = run_len(t2, sep_fn(true)) as int;
    if k2 > 0 {
        assert(spec_share(true, tt).0 =~= t2.skip(k2));
    } else {
        assert(spec_share(true, tt).0 == t2);
    }
    assert(c == e + 1 + k2);
    // the same scans over `t`
    let y = t.skip(2);
    assert forall|i: int| 0 <= i < k implies !is_sep(#[trigger] y[i], true) by {
        assert(y[i] == t[i + 2]);
        assert(x[i] == s[i + 2]);
    }
    assert(y[k] == t[e]);
    assert(t[e] == s[e]);
    lemma_run_len(y, sep_fn(true), k);
    let ty = y.skip(k);
    assert(ty =~= t.skip(e));
    assert(ty[0] == t[e]);
    let u2 = ty.skip(1);
    assert forall|i: int| 0 <= i < k2 implies !is_sep(#[trigger] u2[i], true) by {
        assert(u2[i] == t[e + 1 + i]);
        assert(t2[i] == s[e + 1 + i]);
    }
    assert(u2[k2] == t[c]);
    lemma_run_len(u2, sep_fn(true), k2);
    assert(y.take(k) =~= x.take(k));
    assert(u2.take(k2) =~= t2.take(k2));
    if k2 > 0 {
        assert(spec_share(true, ty).0 =~= u2.skip(k2));
    }
    assert(u2.skip(k2) =~= t.skip(c));
    assert(t2.skip(k2) =~= s.skip(c));
}

/// A device name read from `s`, ending right before a separator at `c`, is read the same from any
/// input that agrees with `s` before `c` and has a separator at `c`; where the name would be empty,
/// there is no device prefix in either
proof fn lemma_device_swap(s: Seq<u8>, c: int, t: Seq<u8>)
    requires
        4 <= c < s.len(),
        is_sep(s[c], true),
        c < t.len(),
        t.take(c) == s.take(c),
        is_sep(t[c], true),
        spec_prefix_device_ns(s) is Some ==> spec_prefix_device_ns(s).unwrap().0 == s.skip(c),
        spec_prefix_device_ns(s) is None ==> (s.len() == 4 || is_sep(s[4], true)) || !(is_sep(s[0], true)
            && is_sep(s[1], true) && s[2] == 46 && is_sep(s[3], true)),
    ensures
        spec_prefix_device_ns(t) == if spec_prefix_device_ns(s) is Some {
            Some((t.skip(c), spec_prefix_device_ns(s).unwrap().1))
        } else {
            None::<(Seq<u8>, WindowsPrefixView)>
        },
{
    assert forall|i: int| 0 <= i < c implies #[trigger] t[i] == s[i] by {
        assert(t.take(c)[i] == t[i]);
        assert(s.take(c)[i] == s[i]);
        assert(t.take(c)[i] == s.take(c)[i]);
    }
    let x = s.skip(4);
    let y = t.skip(4);
    lemma_run_len_bounds(x, sep_fn(true));
    lemma_run_len_bounds(y, sep_fn(true));
    if spec_prefix_device_ns(s) is Some {
        let k = run_len(x, sep_fn(true)) as int;
        assert(x.skip(k) =~= s.skip(4 + k));
        assert(c == 4 + k);
        assert forall|i: int| 0 <= i < k implies !is_sep(#[trigger] y[i], true) by {
            assert(y[i] == t[i + 4]);
            assert(x[i] == s[i + 4]);
        }
        assert(y[k] == t[c]);
        lemma_run_len(y, sep_fn(true), k);
        assert(y.take(k) =~= x.take(k));
        assert(y.skip(k) =~= t.skip(c));
    } else {
        if c > 4 {
            assert(y[0] == t[4]);
        } else {
            assert(y[0] == t[c]);
        }
    }
}

/// A prefix that is not verbatim, followed by a separator, is read the same from any input that
/// agrees with the path before that separator and has a separator there too
proof fn lemma_prefix_rooted_swap(s: Seq<u8>, c: int, v: WindowsPrefixView, t: Seq<u8>)
    requires
        prefix_rooted(s, c, v),
        c < t.len(),
        t.take(c) == s.take(c),
        is_sep(t[c], true),
    ensures
        prefix_rooted(t, c, v),
{
    assert forall|i: int| 0 <= i < c implies #[trigger] t[i] == s[i] by {
        assert(t.take(c)[i] == t[i]);
        assert(s.take(c)[i] == s[i]);
        assert(t.take(c)[i] == s.take(c)[i]);
    }
    lemma_prefix_min_len(s);
    lemma_prefix_suffix(s);
    if spec_verbatim(s) is Some {
        lemma_verbatim_family(s);
    }
    if c >= 4 {
        assert(t[0] == s[0] && t[1] == s[1] && t[2] == s[2] && t[3] == s[3]);
        assert(spec_verbatim(t) == None::<Seq<u8>>);
        lemma_device_swap(s, c, t);
        if spec_prefix_unc(s) is Some && spec_prefix_device_ns(s) is None {
            lemma_unc_swap(s, c, t);
        }
    } else {
        assert(c == 2);
        assert(t[0] == s[0] && t[1] == s[1]);
        assert(t.skip(2) == t.skip(c));
    }
}

/// A path that starts with a prefix that is not verbatim, followed by a separator, is absolute,
/// with that prefix as its first component, the root as its second, and does not start with
/// exactly `\\?\`
proof fn lemma_rooted_absolute(s: Seq<u8>, c: int, v: WindowsPrefixView)
    requires
        prefix_rooted(s, c, v),
    ensures
        WindowsEncoding::spec_is_absolute(s),
        prefix_of(start_of(s)) == Some((s.take(c), v)),
        !is_exact_verbatim(s),
{
    reveal(spec_front);
    lemma_prefix_suffix(s);
    if is_exact_verbatim(s) {
        if s.len() == 4 {
            lemma_question_server(s);
        } else {
            lemma_verbatim_family(s);
        }
    }
    assert(s.take(s.len() - s.skip(c).len()) =~= s.take(c));
    assert(s.skip(c)[0] == s[c]);
}

/// An absolute Windows path whose prefix is not verbatim starts with that prefix and a separator
proof fn lemma_absolute_rooted(p: Seq<u8>) -> (c: int)
    requires
        WindowsEncoding::spec_is_absolute(p),
        prefix_of(start_of(p)) matches Some((_, v)) && !v.is_verbatim(),
    ensures
        prefix_rooted(p, c, prefix_of(start_of(p)).unwrap().1),
        prefix_of(start_of(p)).unwrap().0 == p.take(c),
{
    reveal(spec_front);
    lemma_prefix_suffix(p);
    let (r, v) = spec_prefix(p).unwrap();
    let c = p.len() - r.len();
    assert(p.skip(c)[0] == p[c]);
    c
}

/// A name with no prefix and no separator at its start, pushed onto a path that starts with a
/// prefix that is not verbatim and a separator, leaves it starting with them
proof fn lemma_push_name_rooted(cur: Seq<u8>, c: int, v: WindowsPrefixView, x: Seq<u8>)
    requires
        prefix_rooted(cur, c, v),
        x.len() > 0,
        spec_prefix(x) is None,
        !is_sep(x[0], true),
    ensures
        prefix_rooted(windows_push(cur, x), c, v),
{
    lemma_rooted_absolute(cur, c, v);
    lemma_plain_name(x);
    let r = windows_push(cur, x);
    assert(r.take(c) =~= cur.take(c));
    assert(r[c] == cur[c]);
    lemma_prefix_rooted_swap(cur, c, v, r);
}

/// A path without a prefix pushed onto one that starts with a prefix that is not verbatim and a
/// separator leaves it starting with them
proof fn lemma_push_onto_rooted(cwd: Seq<u8>, c: int, v: WindowsPrefixView, path: Seq<u8>)
    requires
        prefix_rooted(cwd, c, v),
        spec_prefix(path) is None,
    ensures
        prefix_rooted(windows_push(cwd, path), c, v),
{
    reveal(spec_front);
    lemma_rooted_absolute(cwd, c, v);
    let nz = !is_exact_verbatim(path);
    let r = windows_push(cwd, path);
    if path.len() > 0 {
        if spec_has_root(start_of(path)) {
            assert(r =~= cwd.take(c) + path);
            assert(r[c] == path[0]);
        } else {
            assert(r[c] == cwd[c]);
        }
        assert(r.take(c) =~= cwd.take(c));
        lemma_prefix_rooted_swap(cwd, c, v, r);
    }
}

/// The prefix of a path pushed onto an empty path, then the root, gives the prefix and a
/// separator
proof fn lemma_push_prefix_root(p: Seq<u8>, c: int, v: WindowsPrefixView)
    requires
        prefix_rooted(p, c, v),
    ensures
        prefix_rooted(
            windows_push(windows_push(Seq::empty(), p.take(c)), seq![WINDOWS_SEPARATOR_BYTE]),
            c,
            v,
        ),
{
    reveal(spec_front);
    let raw = p.take(c);
    lemma_prefix_take(p, c);
    lemma_prefix_suffix(p);
    assert(raw.skip(c).len() == 0);
    assert(spec_prefix(raw) == Some((raw.skip(c), v)));
    assert(raw.take(raw.len() - raw.skip(c).len()) =~= raw);
    assert(prefix_of(start_of(raw)) == Some((raw, v)));
    assert(windows_push(Seq::empty(), raw) == raw);
    let root = seq![WINDOWS_SEPARATOR_BYTE];
    assert(spec_prefix(root) is None);
    assert(root.skip(1).len() == 0);
    assert(spec_has_root(start_of(root)));
    let r = windows_push(raw, root);
    assert(r =~= raw + root);
    assert(r.take(c) =~= p.take(c));
    lemma_prefix_rooted_swap(p, c, v, r);
}

/// The parts of a path in the shape of a prefix-rooted path: the prefix, the root, then names
/// (not empty, starting with no separator) and `..`
pub open spec fn prefix_root_then_names(cs: Seq<(ComponentKind, Seq<u8>)>, raw: Seq<u8>) -> bool {
    &&& cs.len() >= 2
    &&& cs[0] == (ComponentKind::Prefix, raw)
    &&& cs[1] == (ComponentKind::RootDir, seq![WINDOWS_SEPARATOR_BYTE])
    &&& forall|i: int|
        2 <= i < cs.len() ==> (#[trigger] cs[i]).0 == ComponentKind::ParentDir || (cs[i].0
            == ComponentKind::Normal && cs[i].1.len() > 0 && !is_sep(cs[i].1[0], true))
}

/// A path that starts with a prefix that is not verbatim and a separator has parts of that shape
proof fn lemma_rooted_parts(p: Seq<u8>, c: int, v: WindowsPrefixView)
    requires
        prefix_rooted(p, c, v),
    ensures
        prefix_root_then_names(parts::<WindowsEncoding>(p), p.take(c)),
{
    reveal(spec_front);
    lemma_rooted_absolute(p, c, v);
    lemma_windows_comps(p);
    lemma_prefix_suffix(p);
    let comps = windows_comps(p);
    let s2 = p.skip(c);
    assert(s2[0] == p[c]);
    let (c1, a1, b1, n1, st1) = spec_front(s2, State::SeenPrefix, true).unwrap();
    lemma_front_wf(s2, State::SeenPrefix, true);
    let later = spec_components(s2.skip(n1), State::NotAtBeginning, true, c + n1);
    assert(spec_components(s2, State::SeenPrefix, true, c) == seq![(c1, c + a1, c + b1)] + later);
    assert(p.take(p.len() - s2.len()) =~= p.take(c));
    assert(comps == seq![(WindowsComponentView::Prefix(p.take(c), v), 0, c)] + (seq![
        (c1, c + a1, c + b1),
    ] + later));
    lemma_later_comps_shape(s2.skip(n1), c + n1);
    let ps = parts::<WindowsEncoding>(p);
    assert(ps[0].1 == p.subrange(0, c));
    assert(ps[0].1 =~= p.take(c));
    assert forall|i: int| 2 <= i < ps.len() implies (#[trigger] ps[i]).0 == ComponentKind::ParentDir
        || (ps[i].0 == ComponentKind::Normal && ps[i].1.len() > 0 && !is_sep(ps[i].1[0], true)) by {
        assert(comps[i] == later[i - 2]);
    }
}

/// Normalizing keeps the prefix and the root in front and, after them, only names
proof fn lemma_kept_prefix_root(cs: Seq<(ComponentKind, Seq<u8>)>, raw: Seq<u8>)
    requires
        prefix_root_then_names(cs, raw),
    ensures
        kept(cs).len() >= 2,
        kept(cs)[0] == cs[0],
        kept(cs)[1] == cs[1],
        forall|i: int|
            2 <= i < kept(cs).len() ==> (#[trigger] kept(cs)[i]).0 == ComponentKind::Normal
                && kept(cs)[i].1.len() > 0 && !is_sep(kept(cs)[i].1[0], true),
    decreases cs.len(),
{
    let init = cs.drop_last();
    let stack = kept(init);
    if cs.len() == 2 {
        assert(init.drop_last().len() == 0);
        assert(kept(init.drop_last()) == Seq::<(ComponentKind, Seq<u8>)>::empty());
        assert(kept(init) == seq![cs[0]]);
        assert(kept(cs) == seq![cs[0]].push(cs[1]));
    } else {
        assert forall|i: int| 2 <= i < init.len() implies (#[trigger] init[i]).0
            == ComponentKind::ParentDir || (init[i].0 == ComponentKind::Normal && init[i].1.len() > 0
            && !is_sep(init[i].1[0], true)) by {
            assert(init[i] == cs[i]);
        }
        lemma_kept_prefix_root(init, raw);
        let last = cs[cs.len() - 1];
        assert(kept(cs) == keep_step(stack, last));
        if last.0 == ComponentKind::ParentDir {
            if stack.last().0 == ComponentKind::Normal {
                assert(stack.len() > 2);
                assert forall|i: int| 2 <= i < stack.drop_last().len() implies (#[trigger] stack.drop_last()[i]).0
                    == ComponentKind::Normal && stack.drop_last()[i].1.len() > 0 && !is_sep(stack.drop_last()[i].1[0], true) by {
                    assert(stack.drop_last()[i] == stack[i]);
                }
            }
        } else {
            assert forall|i: int| 2 <= i < stack.push(last).len() implies (#[trigger] stack.push(last)[i]).0
                == ComponentKind::Normal && stack.push(last)[i].1.len() > 0 && !is_sep(stack.push(last)[i].1[0], true) by {
                if i < stack.len() {
                    assert(stack.push(last)[i] == stack[i]);
                }
            }
        }
    }
}

/// Pushing the prefix, the root and then names that have neither a prefix nor a separator at
/// their start, in turn, onto an empty path gives a path that starts with the prefix and a
/// separator
proof fn lemma_push_all_rooted(
    p: Seq<u8>,
    c: int,
    v: WindowsPrefixView,
    ks: Seq<(ComponentKind, Seq<u8>)>,
)
    requires
        prefix_rooted(p, c, v),
        ks.len() >= 2,
        ks[0] == (ComponentKind::Prefix, p.take(c)),
        ks[1] == (ComponentKind::RootDir, seq![WINDOWS_SEPARATOR_BYTE]),
        forall|i: int|
            2 <= i < ks.len() ==> (#[trigger] ks[i]).0 == ComponentKind::Normal && ks[i].1.len() > 0
                && !is_sep(ks[i].1[0], true) && spec_prefix(ks[i].1) is None,
    ensures
        prefix_rooted(push_all::<WindowsEncoding>(Seq::empty(), ks), c, v),
    decreases ks.len(),
{
    let e = Seq::<u8>::empty();
    if ks.len() == 2 {
        let k1 = ks.drop_last();
        assert(k1.drop_last().len() == 0);
        assert(push_all::<WindowsEncoding>(e, k1.drop_last()) == e);
        assert(k1.last() == ks[0]);
        assert(push_all::<WindowsEncoding>(e, k1) == windows_push(e, p.take(c)));
        lemma_push_prefix_root(p, c, v);
    } else {
        let init = ks.drop_last();
        assert forall|i: int| 2 <= i < init.len() implies (#[trigger] init[i]).0
            == ComponentKind::Normal && init[i].1.len() > 0 && !is_sep(init[i].1[0], true)
            && spec_prefix(init[i].1) is None by {
            assert(init[i] == ks[i]);
        }
        lemma_push_all_rooted(p, c, v, init);
        let last = ks[ks.len() - 1];
        lemma_push_name_rooted(push_all::<WindowsEncoding>(e, init), c, v, last.1);
    }
}

/// Normalizing an absolute Windows path whose prefix is not verbatim (a drive, a UNC server and
/// share, or a device) gives an absolute path, where no name it keeps reads as having a prefix of
/// its own (`C:\a\b:c` normalizes to `b:c`, which is not absolute)
pub proof fn law_normalize_keeps_absolute(p: Seq<u8>)
    requires
        WindowsEncoding::spec_is_absolute(p),
        prefix_of(start_of(p)) matches Some((_, v)) && !v.is_verbatim(),
        kept_names_plain(p),
    ensures
        WindowsEncoding::spec_is_absolute(spec_normalize::<WindowsEncoding>(p)),
{
    let c = lemma_absolute_rooted(p);
    let v = prefix_of(start_of(p)).unwrap().1;
    lemma_rooted_parts(p, c, v);
    let cs = parts::<WindowsEncoding>(p);
    lemma_kept_prefix_root(cs, p.take(c));
    let ks = kept(cs);
    assert forall|i: int| 2 <= i < ks.len() implies (#[trigger] ks[i]).0 == ComponentKind::Normal
        && ks[i].1.len() > 0 && !is_sep(ks[i].1[0], true) && spec_prefix(ks[i].1) is None by {
        assert(spec_prefix(kept(parts::<WindowsEncoding>(p))[i].1) is None);
    }
    lemma_push_all_rooted(p, c, v, ks);
    lemma_rooted_absolute(spec_normalize::<WindowsEncoding>(p), c, v);
}

/// Absolutizing a Windows path gives an absolute path where the prefix that it ends up with is not
/// verbatim: the path's own, when it is absolute, or else the current directory's, when the path
/// has no prefix of its own; and where no name kept in normalizing reads as having a prefix
pub proof fn law_absolutize_is_absolute(path: Seq<u8>, cwd: Seq<u8>)
    requires
        spec_absolutize::<WindowsEncoding>(path, cwd) is Some,
        WindowsEncoding::spec_is_absolute(path) ==> (prefix_of(start_of(path)) matches Some((_, v))
            && !v.is_verbatim()) && kept_names_plain(path),
        !WindowsEncoding::spec_is_absolute(path) ==> (prefix_of(start_of(cwd)) matches Some((_, v))
            && !v.is_verbatim()) && spec_prefix(path) is None && kept_names_plain(
            windows_push(cwd, path),
        ),
    ensures
        WindowsEncoding::spec_is_absolute(spec_absolutize::<WindowsEncoding>(path, cwd)->0),
{
    if WindowsEncoding::spec_is_absolute(path) {
        law_normalize_keeps_absolute(path);
    } else {
        let c = lemma_absolute_rooted(cwd);
        let v = prefix_of(start_of(cwd)).unwrap().1;
        lemma_push_onto_rooted(cwd, c, v, path);
        let joined = windows_push(cwd, path);
        lemma_rooted_absolute(joined, c, v);
        lemma_absolute_rooted(joined);
        law_normalize_keeps_absolute(joined);
    }
}

} // verus!
