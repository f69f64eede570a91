//! Laws of Unix paths that relate several operations.
use vstd::prelude::*;

use crate::common::components::end_before_last;
use crate::common::path::spec_parent;
use crate::unix::encoding::UnixEncoding;
use crate::parser::{lemma_run_len_bounds, lemma_run_len_push, lemma_run_len_take, min, run_len};
use crate::common::iter::span_bytes;
use crate::unix::parse_laws::comp_views;
use crate::unix::component::UnixComponentView;
use crate::common::checked::{spec_check, CheckedPathError};
use crate::common::components::ComponentKind;
use crate::common::normalize::{kept, lemma_kept_keeps_first_root, parts, push_all, spec_absolutize, spec_normalize};
use crate::constants::UNIX_SEPARATOR_BYTE;
use crate::unix::encoding::unix_has_root;
use crate::common::encoding::Encoding;
use crate::unix::encoding::{lemma_components_wf, lemma_unix_has_root, unix_push, unix_spans};
use crate::unix::utf8::utf8_unix_push;
use vstd::utf8::{char_u32_cast, encode_scalar, encode_utf8};
use crate::unix::parser::{
    cur_dir_at, disallowed_fn, end_before_last_component, ends_component, is_sep, lemma_front_wf, lemma_skip_from_bounds,
    not_sep_fn, skip_from, spec_components, spec_cur_dir, spec_first_component, spec_front,
    spec_later_component, spec_normal, spec_parent_dir, spec_root_dir, State,
};

verus! {

/// Skipping separators and `.` components in a prefix of `s` stops where it does in `s`, as long
/// as the prefix reaches past the stopping point (and past the byte after it, when that is `.`)
proof fn lemma_skip_from_take(s: Seq<u8>, i: int, m: int)
    requires
        0 <= i <= skip_from(s, i) < m <= s.len(),
        s[skip_from(s, i)] == 46 ==> skip_from(s, i) + 1 < m,
    ensures
        skip_from(s.take(m), i) == skip_from(s, i),
    decreases s.len() - i,
{
    let t = s.take(m);
    if 0 <= i < s.len() && (is_sep(s[i]) || cur_dir_at(s, i)) {
        assert(t[i] == s[i]);
        if i + 1 < m {
            assert(t[i + 1] == s[i + 1]);
        }
        assert(cur_dir_at(t, i) == cur_dir_at(s, i));
        lemma_skip_from_bounds(s, i + 1);
        lemma_skip_from_take(s, i + 1, m);
    } else {
        assert(t[i] == s[i]);
        if i + 1 < m {
            assert(t[i + 1] == s[i + 1]);
        }
    }
}

/// Skipping stops at the end of the input, or at a byte that is neither a separator nor a `.`
/// component
pub(crate) proof fn lemma_skip_from_stops(s: Seq<u8>, i: int)
    requires
        0 <= i <= s.len(),
    ensures
        skip_from(s, i) < s.len() ==> !(is_sep(s[skip_from(s, i)]) || cur_dir_at(
            s,
            skip_from(s, i),
        )),
    decreases s.len() - i,
{
    if 0 <= i < s.len() && (is_sep(s[i]) || cur_dir_at(s, i)) {
        lemma_skip_from_stops(s, i + 1);
    }
}

/// A name read from a prefix of the input that still holds it is the same name
proof fn lemma_normal_take(t: Seq<u8>, p: int)
    requires
        spec_normal(t) matches Some((rest, _)) && t.len() - rest.len() <= p <= t.len(),
    ensures
        spec_normal(t.take(p)) matches Some((rest2, c2)) && spec_normal(t) matches Some((rest, c))
            && c2 == c && rest2 == t.take(p).skip(t.len() - rest.len()),
{
    lemma_run_len_bounds(t, disallowed_fn());
    lemma_run_len_take(t, disallowed_fn(), p);
    let l = run_len(t, disallowed_fn()) as int;
    assert(t.take(p).take(l) =~= t.take(l));
}

/// The component read at a later position is read the same from a prefix of the input that
/// still holds it
proof fn lemma_later_take(t: Seq<u8>, p: int)
    requires
        spec_later_component(t) matches Some((rest, _)) && t.len() - rest.len() <= p <= t.len()
            && ends_component(t, t.len() - rest.len()),
    ensures
        spec_later_component(t.take(p)) matches Some((rest2, c2)) && spec_later_component(t) matches Some(
            (rest, c),
        ) && c2 == c && rest2 == t.take(p).skip(t.len() - rest.len()) && ends_component(
            t.take(p),
            t.len() - rest.len(),
        ),
{
    let u = t.take(p);
    let (rest, c) = spec_later_component(t).unwrap();
    let l = t.len() - rest.len();
    lemma_run_len_bounds(t, disallowed_fn());
    if l < p {
        assert(u[l] == t[l]);
    }
    if p >= 1 {
        assert(u[0] == t[0]);
    }
    if p >= 2 {
        assert(u[1] == t[1]);
    }
    if p >= 3 {
        assert(u[2] == t[2]);
    }
    if spec_parent_dir(t) is Some {
        assert(spec_parent_dir(u) is Some);
    } else {
        lemma_normal_take(t, p);
        if spec_parent_dir(u) is Some {
            assert(t[0] == 46 && t[1] == 46);
            assert(run_len(t, disallowed_fn()) >= 2) by {
                assert(!is_sep(t[0]) && t[0] != 0 && !is_sep(t[1]) && t[1] != 0);
                assert(t.drop_first()[0] == t[1]);
            }
            assert(false);
        }
    }
}

/// The component read at the start is read the same from a prefix of the input that still
/// holds it
proof fn lemma_first_take(t: Seq<u8>, p: int)
    requires
        spec_first_component(t) matches Some((rest, c)) && t.len() - rest.len() <= p <= t.len()
            && (c is RootDir || ends_component(t, t.len() - rest.len())),
    ensures
        spec_first_component(t.take(p)) matches Some((rest2, c2)) && spec_first_component(t) matches Some(
            (rest, c),
        ) && c2 == c && rest2 == t.take(p).skip(t.len() - rest.len()) && (c is RootDir
            || ends_component(t.take(p), t.len() - rest.len())),
{
    let u = t.take(p);
    let (rest, c) = spec_first_component(t).unwrap();
    let l = t.len() - rest.len();
    lemma_run_len_bounds(t, disallowed_fn());
    if l < p {
        assert(u[l] == t[l]);
    }
    if p >= 1 {
        assert(u[0] == t[0]);
    }
    if p >= 2 {
        assert(u[1] == t[1]);
    }
    if p >= 3 {
        assert(u[2] == t[2]);
    }
    if spec_root_dir(t) is Some {
        assert(spec_root_dir(u) is Some);
    } else if spec_parent_dir(t) is Some {
        assert(spec_parent_dir(u) is Some);
    } else if spec_cur_dir(t) is Some {
        assert(spec_cur_dir(u) is Some);
        if spec_parent_dir(u) is Some {
            assert(false);
        }
    } else {
        lemma_normal_take(t, p);
        if spec_parent_dir(u) is Some {
            assert(t[0] == 46 && t[1] == 46);
            assert(run_len(t, disallowed_fn()) >= 2) by {
                assert(!is_sep(t[0]) && t[0] != 0 && !is_sep(t[1]) && t[1] != 0);
                assert(t.drop_first()[0] == t[1]);
            }
            assert(false);
        }
        if spec_cur_dir(u) is Some {
            assert(t[0] == 46);
            assert(run_len(t, disallowed_fn()) >= 2);
            assert(false);
        }
    }
}

/// A parsing step reads the same component from a prefix of the input that still holds it, and
/// consumes as much of the prefix as it can
pub proof fn lemma_front_take(s: Seq<u8>, state: State, m: int)
    requires
        spec_front(s, state) matches Some((_, _, b, _)) && b <= m <= s.len(),
    ensures
        spec_front(s.take(m), state) matches Some((c2, a2, b2, n2)) && spec_front(s, state) matches Some(
            (c, a, b, n),
        ) && c2 == c && a2 == a && b2 == b && n2 == min(n, m),
{
    lemma_front_wf(s, state);
    let (c, a, b, n) = spec_front(s, state).unwrap();
    let u = s.take(m);
    if state == State::NotAtBeginning {
        lemma_skip_from_bounds(s, 0);
        lemma_skip_from_stops(s, 0);
        lemma_run_len_bounds(s.skip(a), disallowed_fn());
        assert(s.skip(a)[0] == s[a]);
        if s[a] == 46 {
            assert(s.skip(a)[1] == s[a + 1]) by {
                if a + 1 >= m {
                    assert(b == a + 1);
                    assert(false);
                }
            }
        }
        lemma_skip_from_take(s, 0, m);
    }
    let t = s.skip(a);
    assert(u.skip(a) =~= t.take(m - a));
    if state == State::AtBeginning {
        lemma_first_take(t, m - a);
    } else {
        lemma_later_take(t, m - a);
    }
    let rest = t.skip(b - a);
    assert(u.skip(a).skip(b - a) =~= rest.take(m - b));
    lemma_run_len_take(rest, not_sep_fn(), m - b);
    let parsed = if state == State::AtBeginning {
        spec_first_component(t)
    } else {
        spec_later_component(t)
    };
    let tu = u.skip(a);
    let parsed_u = if state == State::AtBeginning {
        spec_first_component(tu)
    } else {
        spec_later_component(tu)
    };
    lemma_run_len_bounds(t, disallowed_fn());
    assert(parsed matches Some((r, c1)) && r == rest && c1 == c);
    assert(parsed_u matches Some((r, c1)) && r == tu.skip(b - a) && c1 == c);
    assert(tu.len() - tu.skip(b - a).len() == b - a);
    assert(n == b + run_len(rest, not_sep_fn()));
}

/// No component is read from an empty input past its start
pub(crate) proof fn lemma_no_components_after_end(base: int)
    ensures
        spec_components(Seq::<u8>::empty(), State::NotAtBeginning, base) == Seq::<
            (UnixComponentView, int, int),
        >::empty(),
{
    let e = Seq::<u8>::empty();
    assert(e.skip(0) =~= e);
    assert(run_len(e, disallowed_fn()) == 0);
}

/// The prefix of a path that ends where its `k`-th component ends has exactly its first `k`
/// components
pub proof fn lemma_components_take(s: Seq<u8>, state: State, base: int, k: int)
    requires
        1 <= k <= spec_components(s, state, base).len(),
    ensures
        spec_components(s.take(spec_components(s, state, base)[k - 1].2 - base), state, base)
            == spec_components(s, state, base).take(k),
    decreases s.len(),
{
    lemma_front_wf(s, state);
    let (c, a, b, n) = spec_front(s, state).unwrap();
    let comps = spec_components(s, state, base);
    let first = seq![(c, base + a, base + b)];
    let rest = spec_components(s.skip(n), State::NotAtBeginning, base + n);
    assert(comps == first + rest);
    if k == 1 {
        assert(comps[0] == (c, base + a, base + b));
        lemma_front_take(s, state, b);
        let u = s.take(b);
        assert(u.skip(b) =~= Seq::<u8>::empty());
        lemma_no_components_after_end(base + b);
        assert(spec_components(u, state, base) == first + spec_components(
            u.skip(b),
            State::NotAtBeginning,
            base + b,
        ));
        assert(comps.take(1) =~= first);
        assert(first + Seq::<(UnixComponentView, int, int)>::empty() =~= first);
    } else {
        lemma_components_wf(s.skip(n), State::NotAtBeginning, base + n);
        assert(comps[k - 1] == rest[k - 2]);
        let m = comps[k - 1].2 - base;
        assert(n <= m <= s.len());
        lemma_front_take(s, state, m);
        let u = s.take(m);
        assert(u.skip(n) =~= s.skip(n).take(m - n));
        lemma_components_take(s.skip(n), State::NotAtBeginning, base + n, k - 1);
        assert(spec_components(u, state, base) == first + spec_components(
            u.skip(n),
            State::NotAtBeginning,
            base + n,
        ));
        assert(comps.take(k) =~= first + rest.take(k - 1));
    }
}

/// Dropping everything after the component before the last one leaves exactly the components of
/// a Unix path but its last one: what remains when the last component is taken off the back
pub proof fn lemma_components_drop_last(s: Seq<u8>)
    requires
        unix_spans(s).len() > 0,
    ensures
        unix_spans(s.take(end_before_last(unix_spans(s)))) == unix_spans(s).drop_last(),
{
    let comps = spec_components(s, State::AtBeginning, 0);
    let f = |t: (UnixComponentView, int, int)| (t.0.kind(), t.1, t.2);
    let spans = unix_spans(s);
    if comps.len() >= 2 {
        lemma_components_take(s, State::AtBeginning, 0, comps.len() - 1);
        assert(spans[spans.len() - 2] == f(comps[comps.len() - 2]));
        assert(comps.take(comps.len() - 1).map_values(f) =~= spans.drop_last());
    } else {
        let e = s.take(0);
        assert(e =~= Seq::<u8>::empty());
        assert(e.skip(0) =~= e);
        assert(run_len(e, disallowed_fn()) == 0);
        assert(spec_components(e, State::AtBeginning, 0) =~= Seq::<(UnixComponentView, int, int)>::empty());
        assert(unix_spans(e) =~= spans.drop_last());
    }
}

/// Iterating from both ends agrees: once the last component is taken off the back of a Unix
/// path, what is left has exactly the components before it, as read from the front
pub proof fn law_next_back_leaves_earlier_components(s: Seq<u8>)
    requires
        spec_components(s, State::AtBeginning, 0).len() > 0,
    ensures
        ({
            let comps = spec_components(s, State::AtBeginning, 0);
            spec_components(s.take(end_before_last_component(comps)), State::AtBeginning, 0)
                == comps.drop_last()
        }),
{
    let comps = spec_components(s, State::AtBeginning, 0);
    if comps.len() >= 2 {
        lemma_components_take(s, State::AtBeginning, 0, comps.len() - 1);
        assert(comps.take(comps.len() - 1) =~= comps.drop_last());
    } else {
        let e = s.take(0);
        assert(e =~= Seq::<u8>::empty());
        assert(e.skip(0) =~= e);
        assert(run_len(e, disallowed_fn()) == 0);
        assert(spec_components(e, State::AtBeginning, 0) =~= comps.drop_last());
    }
}

/// The parent of a Unix path has exactly the components of the path but its last one
pub proof fn law_parent_drops_last_component(p: Seq<u8>)
    requires
        spec_parent::<UnixEncoding>(p) is Some,
    ensures
        unix_spans(spec_parent::<UnixEncoding>(p).unwrap()) == unix_spans(p).drop_last(),
{
    lemma_components_drop_last(p);
}

/// On Unix a path is absolute exactly when it has a root
pub proof fn law_absolute_iff_root(p: Seq<u8>)
    ensures
        UnixEncoding::spec_is_absolute(p) == UnixEncoding::spec_has_root(p),
{
}

/// Pushing an absolute Unix path replaces the current one
pub proof fn law_push_absolute_replaces(current: Seq<u8>, path: Seq<u8>)
    requires
        path.len() > 0,
        UnixEncoding::spec_is_absolute(path),
    ensures
        UnixEncoding::spec_push(current, path) == path,
{
}

/// Pushing a relative Unix path keeps the current one in front of it
pub proof fn law_push_relative_extends(current: Seq<u8>, path: Seq<u8>)
    requires
        !UnixEncoding::spec_is_absolute(path),
    ensures
        unix_push(current, path).take(current.len() as int) == current,
        unix_push(current, path).skip(unix_push(current, path).len() - path.len()) == path,
{
    let r = unix_push(current, path);
    assert(r.take(current.len() as int) =~= current);
    assert(r.skip(r.len() - path.len()) =~= path);
}

/// The UTF-8 encoding of a character starts with `/` and ends with `/` exactly when the
/// character is `/`
proof fn lemma_scalar_slash(v: u32)
    ensures
        encode_scalar(v).len() >= 1,
        (encode_scalar(v)[0] == 47) == (v == 47),
        (encode_scalar(v).last() == 47) == (v == 47),
{
    assert(v <= 0x7f ==> ((v & 0x7f) as u8 == v)) by (bit_vector);
    assert((0xC0u8 | ((v >> 6u32) & 0x1Fu32) as u8) != 47u8) by (bit_vector);
    assert((0xE0u8 | ((v >> 12u32) & 0x0Fu32) as u8) != 47u8) by (bit_vector);
    assert((0xF0u8 | ((v >> 18u32) & 0x7u32) as u8) != 47u8) by (bit_vector);
    assert((0x80u8 | (v & 0x3Fu32) as u8) != 47u8) by (bit_vector);
}

/// Encoding a concatenation concatenates the encodings
proof fn lemma_encode_concat(x: Seq<char>, y: Seq<char>)
    ensures
        encode_utf8(x + y) == encode_utf8(x) + encode_utf8(y),
    decreases x.len(),
{
    if x.len() == 0 {
        assert(x + y =~= y);
        assert(encode_utf8(x) =~= Seq::<u8>::empty());
        assert(encode_utf8(x) + encode_utf8(y) =~= encode_utf8(y));
    } else {
        assert((x + y).drop_first() =~= x.drop_first() + y);
        assert((x + y)[0] == x[0]);
        lemma_encode_concat(x.drop_first(), y);
        assert(encode_utf8(x + y) =~= encode_utf8(x) + encode_utf8(y));
    }
}

/// The encoding of a single character is the encoding of its scalar value
proof fn lemma_encode_single(c: char)
    ensures
        encode_utf8(seq![c]) == encode_scalar(c as u32),
{
    let e = Seq::<char>::empty();
    assert(seq![c].drop_first() =~= e);
    assert(seq![c][0] == c);
    assert(encode_utf8(e) =~= Seq::<u8>::empty());
    assert(encode_scalar(c as u32) + Seq::<u8>::empty() =~= encode_scalar(c as u32));
}

/// Pushing onto a UTF-8 Unix path gives the string whose encoding is what pushing the encodings
/// as byte paths gives
pub proof fn law_utf8_push_matches_bytes(current: Seq<char>, path: Seq<char>)
    ensures
        encode_utf8(utf8_unix_push(current, path)) == unix_push(
            encode_utf8(current),
            encode_utf8(path),
        ),
{
    let ec = encode_utf8(current);
    let ep = encode_utf8(path);
    lemma_unix_has_root(ep);
    assert(('/' as u32) == 47);
    if path.len() == 0 {
        assert(ep =~= Seq::<u8>::empty());
        assert(path =~= Seq::<char>::empty());
    } else {
        lemma_scalar_slash(path[0] as u32);
        assert(path =~= seq![path[0]] + path.drop_first());
        lemma_encode_concat(seq![path[0]], path.drop_first());
        lemma_encode_single(path[0]);
        assert(ep[0] == encode_scalar(path[0] as u32)[0]);
        assert(ep.len() > 0);
        if path[0] == '/' {
            assert(unix_push(ec, ep) == ep);
        } else {
            char_u32_cast(path[0], path[0] as u32);
            char_u32_cast('/', 47u32);
            assert((path[0] as u32) != 47);
            assert(!(ep[0] == 47));
            if current.len() > 0 {
                let last = current.last();
                assert(current =~= current.drop_last() + seq![last]);
                lemma_encode_concat(current.drop_last(), seq![last]);
                lemma_encode_single(last);
                lemma_scalar_slash(last as u32);
                char_u32_cast(last, last as u32);
                char_u32_cast('/', 47u32);
                assert(ec.len() > 0);
                assert(ec.last() == encode_scalar(last as u32).last());
            } else {
                assert(ec =~= Seq::<u8>::empty());
            }
            if current.len() > 0 && current.last() != '/' {
                lemma_encode_concat(current, seq!['/']);
                lemma_encode_concat(current.push('/'), path);
                lemma_encode_single('/');
                assert(current.push('/') =~= current + seq!['/']);
                assert(encode_scalar(47u32) =~= seq![47u8]) by {
                    assert((47u32 & 0x7fu32) as u8 == 47u8) by (bit_vector);
                }
                assert(ec.push(47) =~= ec + seq![47u8]);
                assert(unix_push(ec, ep) == ec.push(47) + ep);
            } else {
                lemma_encode_concat(current, path);
                assert(unix_push(ec, ep) == ec + ep);
            }
        }
    }
}

/// A path that the checked push takes has no root, so pushing it keeps the current path in
/// front of it
pub proof fn law_push_checked_keeps_current(current: Seq<u8>, path: Seq<u8>)
    requires
        spec_check::<UnixEncoding>(path) is None,
    ensures
        ({
            let r = UnixEncoding::spec_push(current, path);
            r.take(current.len() as int) == current && r.skip(r.len() - path.len()) == path
        }),
{
    lemma_front_wf(path, State::AtBeginning);
    if UnixEncoding::spec_is_absolute(path) {
        let comps = spec_components(path, State::AtBeginning, 0);
        assert(comps[0].0 is RootDir);
        assert(unix_spans(path)[0].0 == ComponentKind::RootDir);
        assert(spec_check::<UnixEncoding>(path) == Some(CheckedPathError::UnexpectedRoot));
    }
    law_push_relative_extends(current, path);
}

/// The parts of a Unix path that starts with a separator start with its root
proof fn lemma_parts_start_with_root(p: Seq<u8>)
    requires
        unix_has_root(p),
    ensures
        parts::<UnixEncoding>(p).len() > 0,
        parts::<UnixEncoding>(p)[0] == (ComponentKind::RootDir, seq![UNIX_SEPARATOR_BYTE]),
{
    lemma_front_wf(p, State::AtBeginning);
    let comps = spec_components(p, State::AtBeginning, 0);
    assert(comps[0].0 is RootDir);
    assert(unix_spans(p)[0].0 == ComponentKind::RootDir);
}

/// Pushing parts onto a path keeps it rooted once the first of them is the root
proof fn lemma_push_all_rooted(buf: Seq<u8>, ks: Seq<(ComponentKind, Seq<u8>)>)
    requires
        ks.len() > 0,
        ks[0].1 == seq![UNIX_SEPARATOR_BYTE],
    ensures
        unix_has_root(push_all::<UnixEncoding>(buf, ks)),
    decreases ks.len(),
{
    let init = ks.drop_last();
    let x = ks.last().1;
    let before = push_all::<UnixEncoding>(buf, init);
    lemma_unix_has_root(x);
    lemma_unix_has_root(before);
    if ks.len() > 1 {
        lemma_push_all_rooted(buf, init);
        let r = unix_push(before, x);
        lemma_unix_has_root(r);
        if x.len() > 0 && !unix_has_root(x) {
            if before.len() > 0 && !is_sep(before.last()) {
                assert(r[0] == before[0]);
            } else {
                assert(r[0] == before[0]);
            }
        }
    } else {
        assert(x == seq![UNIX_SEPARATOR_BYTE]);
    }
}

/// Normalizing a Unix path that starts with a separator gives one that does too
pub proof fn law_normalize_keeps_absolute(p: Seq<u8>)
    requires
        UnixEncoding::spec_is_absolute(p),
    ensures
        UnixEncoding::spec_is_absolute(spec_normalize::<UnixEncoding>(p)),
{
    lemma_parts_start_with_root(p);
    let cs = parts::<UnixEncoding>(p);
    lemma_kept_keeps_first_root(cs);
    lemma_push_all_rooted(Seq::empty(), kept(cs));
}

/// Absolutizing a Unix path, where it succeeds, gives an absolute path
pub proof fn law_absolutize_is_absolute(path: Seq<u8>, cwd: Seq<u8>)
    requires
        spec_absolutize::<UnixEncoding>(path, cwd) is Some,
    ensures
        UnixEncoding::spec_is_absolute(spec_absolutize::<UnixEncoding>(path, cwd)->0),
{
    if UnixEncoding::spec_is_absolute(path) {
        law_normalize_keeps_absolute(path);
    } else {
        let joined = unix_push(cwd, path);
        lemma_unix_has_root(cwd);
        lemma_unix_has_root(joined);
        if path.len() > 0 {
            assert(joined[0] == cwd[0]);
        }
        law_normalize_keeps_absolute(joined);
    }
}

/// What a component parser reads from `t` and from `t` with a separator added at its end agree:
/// the same component, with that separator still to come after it
spec fn agrees_after_sep(
    parsed: Option<(Seq<u8>, UnixComponentView)>,
    parsed_sep: Option<(Seq<u8>, UnixComponentView)>,
) -> bool {
    match parsed {
        None => parsed_sep is None,
        Some((rest, c)) => parsed_sep == Some((rest.push(UNIX_SEPARATOR_BYTE), c)),
    }
}

/// A separator added at the end of `t` changes nothing about where a component may end
proof fn lemma_ends_push_sep(t: Seq<u8>, n: int)
    requires
        0 <= n <= t.len(),
    ensures
        ends_component(t.push(UNIX_SEPARATOR_BYTE), n) == ends_component(t, n),
{
    let tt = t.push(UNIX_SEPARATOR_BYTE);
    assert(tt[n] == if n < t.len() { t[n] } else { UNIX_SEPARATOR_BYTE });
}

/// A name, `.` or `..` is read the same before and after a separator is added at the end
proof fn lemma_names_push_sep(t: Seq<u8>)
    ensures
        agrees_after_sep(spec_normal(t), spec_normal(t.push(UNIX_SEPARATOR_BYTE))),
        agrees_after_sep(spec_parent_dir(t), spec_parent_dir(t.push(UNIX_SEPARATOR_BYTE))),
        agrees_after_sep(spec_cur_dir(t), spec_cur_dir(t.push(UNIX_SEPARATOR_BYTE))),
{
    let tt = t.push(UNIX_SEPARATOR_BYTE);
    lemma_run_len_push(t, disallowed_fn(), UNIX_SEPARATOR_BYTE);
    lemma_run_len_bounds(t, disallowed_fn());
    let n = run_len(t, disallowed_fn()) as int;
    assert(tt.skip(n) =~= t.skip(n).push(UNIX_SEPARATOR_BYTE));
    assert(tt.take(n) =~= t.take(n));
    if t.len() >= 1 {
        assert(tt[0] == t[0]);
        lemma_ends_push_sep(t, 1);
        assert(tt.skip(1) =~= t.skip(1).push(UNIX_SEPARATOR_BYTE));
    }
    if t.len() >= 2 {
        assert(tt[1] == t[1]);
        lemma_ends_push_sep(t, 2);
        assert(tt.skip(2) =~= t.skip(2).push(UNIX_SEPARATOR_BYTE));
    } else if t.len() == 1 {
        assert(tt[1] == UNIX_SEPARATOR_BYTE);
    }
}

/// A component past the start is read the same before and after a separator is added at the end
proof fn lemma_later_push_sep(t: Seq<u8>)
    ensures
        agrees_after_sep(spec_later_component(t), spec_later_component(t.push(UNIX_SEPARATOR_BYTE))),
{
    lemma_names_push_sep(t);
}

/// The first component of a non-empty input is read the same before and after a separator is
/// added at the end
proof fn lemma_first_push_sep(t: Seq<u8>)
    requires
        t.len() > 0,
    ensures
        agrees_after_sep(spec_first_component(t), spec_first_component(t.push(UNIX_SEPARATOR_BYTE))),
{
    let tt = t.push(UNIX_SEPARATOR_BYTE);
    lemma_names_push_sep(t);
    assert(tt[0] == t[0]);
    assert(tt.skip(1) =~= t.skip(1).push(UNIX_SEPARATOR_BYTE));
}

/// Skipping separators and `.` components stops at the same place once a separator is added at
/// the end, unless it ran to the end: then it runs past the added separator too
proof fn lemma_skip_push_sep(s: Seq<u8>, i: int)
    requires
        0 <= i <= s.len(),
    ensures
        skip_from(s.push(UNIX_SEPARATOR_BYTE), i) == if skip_from(s, i) < s.len() {
            skip_from(s, i)
        } else {
            s.len() + 1int
        },
    decreases s.len() - i,
{
    let ss = s.push(UNIX_SEPARATOR_BYTE);
    lemma_skip_from_bounds(s, i);
    if i < s.len() {
        assert(ss[i] == s[i]);
        if i + 1 < s.len() {
            assert(ss[i + 1] == s[i + 1]);
        } else {
            assert(ss[i + 1] == UNIX_SEPARATOR_BYTE);
        }
        assert(cur_dir_at(ss, i) == cur_dir_at(s, i));
        if is_sep(s[i]) || cur_dir_at(s, i) {
            lemma_skip_push_sep(s, i + 1);
        }
    } else {
        assert(ss[i] == UNIX_SEPARATOR_BYTE);
        assert(skip_from(ss, i + 1) == i + 1);
    }
}

/// A parsing step reads the same component once a separator is added at the end of a non-empty
/// input (or of any input past the start); it consumes the same bytes, or the added separator
/// too when it consumed the whole input
proof fn lemma_front_push_sep(s: Seq<u8>, state: State)
    requires
        state == State::NotAtBeginning || s.len() > 0,
    ensures
        match spec_front(s, state) {
            None => spec_front(s.push(UNIX_SEPARATOR_BYTE), state) is None,
            Some((c, a, b, n)) => spec_front(s.push(UNIX_SEPARATOR_BYTE), state) == Some(
                (c, a, b, if n < s.len() { n } else { n + 1 }),
            ),
        },
{
    let ss = s.push(UNIX_SEPARATOR_BYTE);
    lemma_front_wf(s, state);
    let k = if state == State::AtBeginning {
        0
    } else {
        skip_from(s, 0)
    };
    lemma_skip_from_bounds(s, 0);
    if state == State::NotAtBeginning {
        lemma_skip_push_sep(s, 0);
    }
    let t = s.skip(k);
    if k < s.len() {
        let tt = ss.skip(k);
        assert(tt =~= t.push(UNIX_SEPARATOR_BYTE));
        if state == State::AtBeginning {
            assert(s.skip(0) =~= s);
            assert(ss.skip(0) =~= ss);
            lemma_first_push_sep(t);
        } else {
            lemma_later_push_sep(t);
        }
        let parsed = if state == State::AtBeginning {
            spec_first_component(t)
        } else {
            spec_later_component(t)
        };
        lemma_run_len_bounds(t, disallowed_fn());
        if let Some((rest, c)) = parsed {
            let len = t.len() - rest.len();
            lemma_ends_push_sep(t, len);
            lemma_run_len_push(rest, not_sep_fn(), UNIX_SEPARATOR_BYTE);
            lemma_run_len_bounds(rest, not_sep_fn());
        }
    } else {
        assert(t.len() == 0);
        assert(ss.skip(s.len() + 1int) =~= Seq::<u8>::empty());
        assert(run_len(t, disallowed_fn()) == 0);
    }
}

/// The components of a non-empty input (or of any input past the start) are the same once a
/// separator is added at its end
proof fn lemma_components_push_sep(s: Seq<u8>, state: State, base: int)
    requires
        state == State::NotAtBeginning || s.len() > 0,
    ensures
        spec_components(s.push(UNIX_SEPARATOR_BYTE), state, base) == spec_components(s, state, base),
    decreases s.len(),
{
    let ss = s.push(UNIX_SEPARATOR_BYTE);
    lemma_front_push_sep(s, state);
    lemma_front_wf(s, state);
    if let Some((c, a, b, n)) = spec_front(s, state) {
        if n < s.len() {
            assert(ss.skip(n) =~= s.skip(n).push(UNIX_SEPARATOR_BYTE));
            lemma_components_push_sep(s.skip(n), State::NotAtBeginning, base + n);
        } else {
            assert(ss.skip(n + 1) =~= Seq::<u8>::empty());
            assert(s.skip(n) =~= Seq::<u8>::empty());
            lemma_no_components_after_end(base + n);
            lemma_no_components_after_end(base + n + 1);
        }
    }
}

/// A trailing separator is ignored: a non-empty Unix path has the same components, at the same
/// places, whether or not a separator is added at its end
pub proof fn law_trailing_separator_ignored(p: Seq<u8>)
    requires
        p.len() > 0,
    ensures
        UnixEncoding::spec_spans(p.push(UNIX_SEPARATOR_BYTE)) == UnixEncoding::spec_spans(p),
        parts::<UnixEncoding>(p.push(UNIX_SEPARATOR_BYTE)) == parts::<UnixEncoding>(p),
{
    let pp = p.push(UNIX_SEPARATOR_BYTE);
    lemma_components_push_sep(p, State::AtBeginning, 0);
    lemma_components_wf(p, State::AtBeginning, 0);
    let spans = unix_spans(p);
    assert forall|i: int| 0 <= i < spans.len() implies #[trigger] span_bytes::<UnixEncoding>(pp, spans[i])
        == span_bytes::<UnixEncoding>(p, spans[i]) by {
        assert(pp.subrange(spans[i].1, spans[i].2) =~= p.subrange(spans[i].1, spans[i].2));
    }
    assert(parts::<UnixEncoding>(pp) =~= parts::<UnixEncoding>(p));
}

/// What is left of a Unix path after `k` steps that each take the last component off its back
pub open spec fn back_rest(s: Seq<u8>, k: nat) -> Seq<u8>
    decreases k,
{
    if k == 0 {
        s
    } else {
        let r = back_rest(s, (k - 1) as nat);
        let comps = spec_components(r, State::AtBeginning, 0);
        if comps.len() == 0 {
            r
        } else {
            r.take(end_before_last_component(comps))
        }
    }
}

/// The components that `k` steps from the back of a Unix path yield, in the order they come
pub open spec fn back_views(s: Seq<u8>, k: nat) -> Seq<UnixComponentView>
    decreases k,
{
    if k == 0 {
        Seq::empty()
    } else {
        let r = back_rest(s, (k - 1) as nat);
        let comps = spec_components(r, State::AtBeginning, 0);
        back_views(s, (k - 1) as nat) + if comps.len() == 0 {
            Seq::<UnixComponentView>::empty()
        } else {
            seq![comps.last().0]
        }
    }
}

/// After `k` steps from the back, what is left has the first components read from the front,
/// and the steps yielded the others, last first
proof fn lemma_back_steps(s: Seq<u8>, k: nat)
    requires
        k <= spec_components(s, State::AtBeginning, 0).len(),
    ensures
        ({
            let comps = spec_components(s, State::AtBeginning, 0);
            let n = comps.len();
            &&& spec_components(back_rest(s, k), State::AtBeginning, 0) == comps.take(n - k)
            &&& back_views(s, k) == comp_views(comps.skip(n - k)).reverse()
        }),
    decreases k,
{
    let comps = spec_components(s, State::AtBeginning, 0);
    let n = comps.len();
    if k == 0 {
        assert(comps.take(n as int) =~= comps);
        assert(comp_views(comps.skip(n as int)).reverse() =~= Seq::<UnixComponentView>::empty());
    } else {
        lemma_back_steps(s, (k - 1) as nat);
        let r = back_rest(s, (k - 1) as nat);
        let rc = spec_components(r, State::AtBeginning, 0);
        assert(rc == comps.take(n - k + 1));
        law_next_back_leaves_earlier_components(r);
        assert(rc.drop_last() =~= comps.take(n - k));
        assert(rc.last() == comps[n - k]);
        let before = comp_views(comps.skip(n - k + 1));
        let now = comp_views(comps.skip(n - k));
        assert(now =~= seq![comps[n - k].0] + before);
        assert(now.reverse() =~= before.reverse() + seq![comps[n - k].0]);
    }
}

/// Iterating from the back gives the components read from the front, in reverse: once as many
/// steps as there are components have been taken off the back of a Unix path, they are its
/// components last first, and nothing is left to read
pub proof fn law_back_iteration_reverses_front(s: Seq<u8>)
    ensures
        ({
            let comps = spec_components(s, State::AtBeginning, 0);
            &&& back_views(s, comps.len()) == comp_views(comps).reverse()
            &&& spec_components(back_rest(s, comps.len()), State::AtBeginning, 0).len() == 0
        }),
{
    let comps = spec_components(s, State::AtBeginning, 0);
    lemma_back_steps(s, comps.len());
    assert(comps.skip(0) =~= comps);
}

} // verus!
