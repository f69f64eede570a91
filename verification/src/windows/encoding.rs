//! The Windows encoding of paths.
use vstd::prelude::*;

use crate::common::components::{
    ascii_delimited, ascii_edge, lemma_ascii_edge_shift, span_of, spans_wf, ComponentKind, Span,
};
use crate::parser::lemma_run_len_bounds;
use crate::common::encoding::Encoding;
use crate::common::path::Path;
use crate::common::pathbuf::PathBuf;
use crate::common::reencode::spec_path_with_encoding;
use crate::common::utf8::str_eq;
use crate::constants::{windows_separator_bytes, WINDOWS_SEPARATOR_BYTE};
use crate::windows::component::{
    all_allowed, is_disallowed_filename_byte, WindowsComponent, WindowsComponentView,
};
use crate::windows::components::{
    prefix_of, second_of, spec_has_root, spec_is_absolute, WindowsComponents,
};
use crate::windows::parser::{
    cur_dir_at, is_exact_verbatim, is_sep, is_separator, lemma_front_wf, lemma_prefix_suffix,
    lemma_skip_from_bounds, prefix, sep_fn, skip_from, spec_components, spec_filename, spec_front,
    spec_normal_bytes, spec_prefix, spec_prefix_component, spec_root_or_name, spec_separator, spec_share,
    Parser, State,
};
use crate::windows::prefix::{bytes_eq, WindowsPrefixView};

verus! {

/// Represents a Windows-specific [`Encoding`]
#[derive(Copy, Clone, Debug)]
pub struct WindowsEncoding;

/// The state in which the components of `path` are read from its beginning
pub open spec fn start_of(path: Seq<u8>) -> (Seq<u8>, State, bool) {
    (path, State::AtBeginning, !is_exact_verbatim(path))
}

/// Components of a Windows path, with the offsets where each starts and ends
pub open spec fn windows_comps(path: Seq<u8>) -> Seq<(WindowsComponentView, int, int)> {
    spec_components(path, State::AtBeginning, !is_exact_verbatim(path), 0)
}

/// Components of a Windows path, by kind and offsets
pub open spec fn windows_spans(path: Seq<u8>) -> Seq<Span> {
    windows_comps(path).map_values(|t: (WindowsComponentView, int, int)| (t.0.kind(), t.1, t.2))
}

/// Components of a Windows path
pub open spec fn windows_views(path: Seq<u8>) -> Seq<WindowsComponentView> {
    windows_comps(path).map_values(|t: (WindowsComponentView, int, int)| t.0)
}

/// Values of a sequence of components
pub open spec fn views(cs: Seq<WindowsComponent>) -> Seq<WindowsComponentView> {
    cs.map_values(|c: WindowsComponent| c@)
}

/// Adds one component onto a list of components of a path with a verbatim prefix: the root keeps
/// only the prefix, `.` is dropped and `..` removes a preceding name
pub open spec fn verbatim_step(buf: Seq<WindowsComponentView>, c: WindowsComponentView) -> Seq<
    WindowsComponentView,
> {
    match c {
        WindowsComponentView::RootDir => if buf.len() > 1 {
            buf.take(1).push(c)
        } else {
            buf.push(c)
        },
        WindowsComponentView::CurDir => buf,
        WindowsComponentView::ParentDir => if buf.len() > 0 && buf.last() is Normal {
            buf.drop_last()
        } else {
            buf
        },
        _ => buf.push(c),
    }
}

/// Adds every component of `cs`, in order, onto `buf`
pub open spec fn verbatim_fold(buf: Seq<WindowsComponentView>, cs: Seq<WindowsComponentView>) -> Seq<
    WindowsComponentView,
>
    decreases cs.len(),
{
    if cs.len() == 0 {
        buf
    } else {
        verbatim_step(verbatim_fold(buf, cs.drop_last()), cs.last())
    }
}

/// A separator is written after this component when another one follows (unless that is the root)
pub open spec fn sep_after(c: WindowsComponentView) -> bool {
    match c {
        WindowsComponentView::RootDir => false,
        WindowsComponentView::Prefix(_, p) => !(p is Disk),
        _ => true,
    }
}

/// Bytes of a path made of the components `cs`
pub open spec fn join_views(cs: Seq<WindowsComponentView>) -> Seq<u8>
    decreases cs.len(),
{
    if cs.len() == 0 {
        Seq::empty()
    } else {
        let sep = if cs.len() > 1 && sep_after(cs[cs.len() - 2]) && !(cs.last() is RootDir) {
            seq![WINDOWS_SEPARATOR_BYTE]
        } else {
            Seq::<u8>::empty()
        };
        join_views(cs.drop_last()) + sep + cs.last().bytes()
    }
}

/// Length of the prefix of `path`, or 0 if it has none
pub open spec fn prefix_len_of(path: Seq<u8>) -> int {
    match prefix_of(start_of(path)) {
        Some((raw, _)) => raw.len() as int,
        None => 0,
    }
}

/// `path` is just a disk prefix, e.g. `C:`
pub open spec fn is_only_disk(path: Seq<u8>) -> bool {
    (prefix_of(start_of(path)) matches Some((_, p)) && p is Disk) && second_of(start_of(path)) is None
}

/// Two components are the same when they are of the same kind and, for names, hold the same
/// bytes; prefixes are compared by what they parse as, so that a UNC prefix written with `\` and
/// one written with `/` are the same, and any two root separators are the same
pub open spec fn windows_same_component(ka: ComponentKind, a: Seq<u8>, kb: ComponentKind, b: Seq<u8>) -> bool {
    ka == kb && match ka {
        ComponentKind::Normal => a == b,
        ComponentKind::Prefix => match (spec_prefix(a), spec_prefix(b)) {
            (Some(x), Some(y)) => x.1 == y.1,
            _ => a == b,
        },
        _ => true,
    }
}

/// The root separator is a root, and so is every prefix but a drive like `C:`, as such a prefix
/// stands for the root of its volume
pub open spec fn windows_is_root(k: ComponentKind, c: Seq<u8>) -> bool {
    k == ComponentKind::RootDir || (k == ComponentKind::Prefix && !(spec_prefix(c) matches Some(
        (_, p),
    ) && p is Disk))
}

/// Pushing onto a Windows path:
/// * an empty path changes nothing;
/// * an absolute path, or one with a prefix, replaces the current path;
/// * when the current path has a verbatim prefix, the components are combined with `.` and `..`
///   resolved;
/// * a path with a root but no prefix replaces everything but the current path's prefix;
/// * otherwise the path is appended, with a separator between them unless the current path is
///   empty, already ends with a separator or is only a disk like `C:`
pub open spec fn windows_push(current: Seq<u8>, path: Seq<u8>) -> Seq<u8> {
    if path.len() == 0 {
        current
    } else if spec_is_absolute(start_of(path)) || prefix_of(start_of(path)) is Some {
        path
    } else if prefix_of(start_of(current)) matches Some((_, p)) && p.is_verbatim() {
        join_views(verbatim_fold(windows_views(current), windows_views(path)))
    } else if spec_has_root(start_of(path)) {
        current.take(prefix_len_of(current)) + path
    } else if current.len() > 0 && !is_sep(current.last(), true) && !is_only_disk(current) {
        current.push(WINDOWS_SEPARATOR_BYTE) + path
    } else {
        current + path
    }
}

/// Offsets of the components found from `base` lie within the input and in order
pub proof fn lemma_components_wf(s: Seq<u8>, state: State, normalize: bool, base: int)
    ensures
        ({
            let comps = spec_components(s, state, normalize, base);
            &&& forall|i: int|
                0 <= i < comps.len() ==> base <= (#[trigger] comps[i]).1 <= comps[i].2 <= base
                    + s.len()
            &&& forall|i: int, j: int|
                0 <= i < j < comps.len() ==> (#[trigger] comps[i]).2 <= (#[trigger] comps[j]).1
        }),
    decreases s.len(),
{
    lemma_front_wf(s, state, normalize);
    if let Some((c, a, b, n, next)) = spec_front(s, state, normalize) {
        if 0 < n <= s.len() {
            lemma_components_wf(s.skip(n), next, normalize, base + n);
            let comps = spec_components(s, state, normalize, base);
            let rest = spec_components(s.skip(n), next, normalize, base + n);
            assert(comps == seq![(c, base + a, base + b)] + rest);
            assert forall|i: int| 0 <= i < comps.len() implies base <= (#[trigger] comps[i]).1
                <= comps[i].2 <= base + s.len() by {
                if i > 0 {
                    assert(comps[i] == rest[i - 1]);
                }
            }
            assert forall|i: int, j: int| 0 <= i < j < comps.len() implies (
            #[trigger] comps[i]).2 <= (#[trigger] comps[j]).1 by {
                assert(comps[j] == rest[j - 1]);
                if i > 0 {
                    assert(comps[i] == rest[i - 1]);
                }
            }
        }
    }
}

/// A name read up to a separator is followed by the end of the input or a separator, and when
/// there is no name, the input is empty or starts with a separator
proof fn lemma_normal_edge(normalize: bool, t: Seq<u8>)
    ensures
        match spec_normal_bytes(normalize, t) {
            Some((rest, _)) => rest.len() == 0 || rest[0] < 128,
            None => t.len() == 0 || t[0] < 128,
        },
{
    lemma_run_len_bounds(t, sep_fn(normalize));
    if let Some((rest, _)) = spec_normal_bytes(normalize, t) {
        if rest.len() > 0 {
            assert(rest[0] == t[run_len_of(normalize, t)]);
        }
    }
}

/// Length of the name at the start of `t`
spec fn run_len_of(normalize: bool, t: Seq<u8>) -> int {
    crate::parser::run_len(t, sep_fn(normalize)) as int
}

/// What an optional share leaves is empty or starts with a separator
proof fn lemma_share_edge(normalize: bool, t: Seq<u8>)
    ensures
        spec_share(normalize, t).0.len() == 0 || spec_share(normalize, t).0[0] < 128,
{
    let u = match spec_separator(normalize, t) {
        Some(u) => u,
        None => t,
    };
    lemma_normal_edge(normalize, u);
}

/// A prefix ends at an ASCII edge: what follows it is empty or starts with a separator, or it
/// ends with `:`
proof fn lemma_prefix_edge(s: Seq<u8>)
    ensures
        spec_prefix(s) matches Some((rest, _)) ==> rest.len() < s.len() && ascii_edge(
            s,
            s.len() - rest.len(),
        ),
{
    lemma_prefix_suffix(s);
    let nz = !is_exact_verbatim(s);
    if s.len() >= 2 {
        lemma_normal_edge(true, s.skip(2));
        if let Some((t, _)) = spec_normal_bytes(true, s.skip(2)) {
            lemma_share_edge(true, t);
        }
    }
    if s.len() >= 4 {
        lemma_normal_edge(true, s.skip(4));
        lemma_normal_edge(nz, s.skip(4));
    }
    if s.len() >= 8 {
        assert(s.skip(4).skip(3).skip(1) =~= s.skip(8));
        if let Some((t3, _)) = spec_normal_bytes(nz, s.skip(8)) {
            lemma_share_edge(nz, t3);
        }
    }
    if let Some((rest, _)) = spec_prefix(s) {
        let len = s.len() - rest.len();
        if rest.len() > 0 {
            assert(rest[0] == s[len]);
        }
    }
}

/// When skipping moves, the byte it stops after is a separator or a `.`
proof fn lemma_skip_from_ascii(normalize: bool, s: Seq<u8>, i: int)
    requires
        0 <= i <= s.len(),
    ensures
        skip_from(normalize, s, i) > i ==> s[skip_from(normalize, s, i) - 1] < 128,
    decreases s.len() - i,
{
    if 0 <= i < s.len() && (is_sep(s[i], normalize) || (normalize && cur_dir_at(normalize, s, i))) {
        lemma_skip_from_ascii(normalize, s, i + 1);
    }
}

/// A parsing step starts its component, ends it and stops at ASCII edges of its input
proof fn lemma_front_edges(s: Seq<u8>, state: State, normalize: bool)
    ensures
        spec_front(s, state, normalize) matches Some((c, a, b, n, st)) ==> ascii_edge(s, a)
            && ascii_edge(s, b) && ascii_edge(s, n),
{
    reveal(spec_front);
    lemma_front_wf(s, state, normalize);
    lemma_prefix_edge(s);
    lemma_normal_edge(normalize, s);
    let parsed = if state == State::NotAtBeginning {
        spec_filename(normalize, s)
    } else {
        spec_root_or_name(normalize, s)
    };
    if let Some((rest, c)) = parsed {
        lemma_skip_from_bounds(normalize, rest, 0);
        lemma_skip_from_ascii(normalize, rest, 0);
    }
    if let Some((c, a, b, n, st)) = spec_front(s, state, normalize) {
        if !(c is Prefix) {
            let rest = parsed.unwrap().0;
            let len = s.len() - rest.len();
            assert(rest =~= s.skip(len)) by {
                lemma_run_len_bounds(s, sep_fn(normalize));
            }
            if n > b {
                assert(s[n - 1] == rest[n - b - 1]);
            }
        }
    }
}

/// The components found from `base` start and end at ASCII edges of `p`
proof fn lemma_components_edges(p: Seq<u8>, state: State, normalize: bool, base: int)
    requires
        0 <= base <= p.len(),
        ascii_edge(p, base),
    ensures
        ({
            let comps = spec_components(p.skip(base), state, normalize, base);
            forall|i: int|
                0 <= i < comps.len() ==> ascii_edge(p, (#[trigger] comps[i]).1) && ascii_edge(
                    p,
                    comps[i].2,
                )
        }),
    decreases p.len() - base,
{
    let s = p.skip(base);
    lemma_front_wf(s, state, normalize);
    lemma_front_edges(s, state, normalize);
    if let Some((c, a, b, n, next)) = spec_front(s, state, normalize) {
        if 0 < n <= s.len() {
            lemma_ascii_edge_shift(p, base, a);
            lemma_ascii_edge_shift(p, base, b);
            lemma_ascii_edge_shift(p, base, n);
            assert(s.skip(n) =~= p.skip(base + n));
            lemma_components_edges(p, next, normalize, base + n);
            let comps = spec_components(s, state, normalize, base);
            let rest = spec_components(s.skip(n), next, normalize, base + n);
            assert(comps == seq![(c, base + a, base + b)] + rest);
            assert forall|i: int| 0 <= i < comps.len() implies ascii_edge(p, (#[trigger] comps[i]).1)
                && ascii_edge(p, comps[i].2) by {
                if i > 0 {
                    assert(comps[i] == rest[i - 1]);
                }
            }
        }
    }
}

/// A parsing step finds a component at the start of its input; unless it is the root directory,
/// the component stands for the bytes it covers
proof fn lemma_front_bytes(s: Seq<u8>, state: State, normalize: bool)
    ensures
        spec_front(s, state, normalize) matches Some((c, a, b, n, st)) ==> a == 0 && (c is RootDir
            || c.bytes() == s.subrange(0, b)),
{
    reveal(spec_front);
    lemma_front_wf(s, state, normalize);
    lemma_run_len_bounds(s, sep_fn(normalize));
    if let Some((c, a, b, n, st)) = spec_front(s, state, normalize) {
        if !(c is Prefix) && !(c is RootDir) {
            if c is CurDir {
                assert(s.subrange(0, b) =~= seq![s[0]]);
            } else if c is ParentDir {
                assert(s.subrange(0, b) =~= seq![s[0], s[1]]);
            } else {
                assert(c.bytes() =~= s.subrange(0, b));
            }
        }
    }
}

/// Every component found from `base` on, but the root directory, stands for the bytes of `p`
/// that it covers
pub proof fn lemma_components_bytes(p: Seq<u8>, state: State, normalize: bool, base: int)
    requires
        0 <= base <= p.len(),
    ensures
        ({
            let comps = spec_components(p.skip(base), state, normalize, base);
            forall|i: int|
                0 <= i < comps.len() ==> (#[trigger] comps[i]).0 is RootDir || comps[i].0.bytes()
                    == p.subrange(comps[i].1, comps[i].2)
        }),
    decreases p.len() - base,
{
    let s = p.skip(base);
    lemma_front_wf(s, state, normalize);
    lemma_front_bytes(s, state, normalize);
    if let Some((c, a, b, n, next)) = spec_front(s, state, normalize) {
        if 0 < n <= s.len() {
            assert(s.skip(n) =~= p.skip(base + n));
            assert(s.subrange(0, b) =~= p.subrange(base, base + b));
            lemma_components_bytes(p, next, normalize, base + n);
            let comps = spec_components(s, state, normalize, base);
            let rest = spec_components(s.skip(n), next, normalize, base + n);
            assert(comps == seq![(c, base + a, base + b)] + rest);
            assert forall|i: int| 0 <= i < comps.len() implies (#[trigger] comps[i]).0 is RootDir
                || comps[i].0.bytes() == p.subrange(comps[i].1, comps[i].2) by {
                if i > 0 {
                    assert(comps[i] == rest[i - 1]);
                }
            }
        }
    }
}

/// The components of a Windows path, with their offsets, start and end at ASCII edges of it, and
/// each but the root directory stands for the bytes it covers
pub proof fn lemma_windows_comps(path: Seq<u8>)
    ensures
        ({
            let comps = windows_comps(path);
            forall|i: int|
                0 <= i < comps.len() ==> 0 <= (#[trigger] comps[i]).1 <= comps[i].2 <= path.len()
                    && ascii_edge(path, comps[i].1) && ascii_edge(path, comps[i].2) && (
                comps[i].0 is RootDir || comps[i].0.bytes() == path.subrange(comps[i].1, comps[i].2))
        }),
{
    let nz = !is_exact_verbatim(path);
    assert(path.skip(0) =~= path);
    lemma_components_bytes(path, State::AtBeginning, nz, 0);
    lemma_components_edges(path, State::AtBeginning, nz, 0);
    lemma_components_wf(path, State::AtBeginning, nz, 0);
}

/// Mapping distributes over concatenation
proof fn lemma_map_add<A, B>(x: Seq<A>, y: Seq<A>, f: spec_fn(A) -> B)
    ensures
        (x + y).map_values(f) == x.map_values(f) + y.map_values(f),
{
    assert((x + y).map_values(f) =~= x.map_values(f) + y.map_values(f));
}

/// Every component of `path`, in order
fn collect_components<'a>(path: &'a [u8]) -> (res: Vec<WindowsComponent<'a>>)
    ensures
        views(res@) == windows_views(path@),
{
    let mut comps = WindowsComponents::new(path);
    let mut out: Vec<WindowsComponent<'a>> = Vec::new();
    let ghost nz = !is_exact_verbatim(path@);
    let ghost f = |t: (WindowsComponentView, int, int)| t.0;
    let ghost mut offset: int = 0;
    loop
        invariant_except_break
            comps@.2 == nz,
            f == (|t: (WindowsComponentView, int, int)| t.0),
            windows_views(path@) == views(out@) + spec_components(
                comps@.0,
                comps@.1,
                nz,
                offset,
            ).map_values(f),
        ensures
            views(out@) == windows_views(path@),
        decreases comps@.0.len(),
    {
        let ghost before = comps@;
        proof {
            lemma_front_wf(before.0, before.1, nz);
        }
        match comps.next() {
            Some(c) => {
                proof {
                    let (c0, a, b, n, st) = spec_front(before.0, before.1, nz).unwrap();
                    let rest = spec_components(before.0.skip(n), st, nz, offset + n);
                    assert(spec_components(before.0, before.1, nz, offset) == seq![
                        (c0, offset + a, offset + b),
                    ] + rest);
                    lemma_map_add(seq![(c0, offset + a, offset + b)], rest, f);
                    assert(seq![(c0, offset + a, offset + b)].map_values(f) =~= seq![c@]);
                    assert(views(out@.push(c)) =~= views(out@) + seq![c@]);
                    offset = offset + n;
                }
                out.push(c);
            },
            None => {
                proof {
                    assert(spec_components(before.0, before.1, nz, offset).map_values(f)
                        =~= Seq::<WindowsComponentView>::empty());
                    assert(views(out@) =~= views(out@) + Seq::<WindowsComponentView>::empty());
                }
                break ;
            },
        }
    }
    out
}

/// Adds one component onto the components of a path with a verbatim prefix
fn verbatim_push<'a>(buf: &mut Vec<WindowsComponent<'a>>, c: WindowsComponent<'a>)
    ensures
        views(final(buf)@) == verbatim_step(views(old(buf)@), c@),
{
    let ghost old_views = views(buf@);
    match c {
        WindowsComponent::RootDir => {
            if buf.len() > 1 {
                buf.truncate(1);
                proof {
                    assert(views(buf@) =~= old_views.take(1));
                }
            }
            buf.push(c);
            proof {
                assert(views(buf@) =~= views(buf@.drop_last()).push(c@));
            }
        },
        WindowsComponent::CurDir => {},
        WindowsComponent::ParentDir => {
            if buf.len() > 0 {
                let is_normal = match buf[buf.len() - 1] {
                    WindowsComponent::Normal(_) => true,
                    _ => false,
                };
                if is_normal {
                    buf.pop();
                    proof {
                        assert(views(buf@) =~= old_views.drop_last());
                    }
                }
            }
        },
        _ => {
            buf.push(c);
            proof {
                assert(views(buf@) =~= old_views.push(c@));
            }
        },
    }
}

/// Bytes of the path made of the components `buf`
fn join_components(buf: &Vec<WindowsComponent>) -> (res: Vec<u8>)
    ensures
        res@ == join_views(views(buf@)),
{
    let ghost vs = views(buf@);
    let mut res: Vec<u8> = Vec::new();
    let mut need_sep = false;
    let mut i: usize = 0;
    proof {
        assert(vs.take(0) =~= Seq::<WindowsComponentView>::empty());
    }
    while i < buf.len()
        invariant
            vs == views(buf@),
            i <= buf@.len(),
            res@ == join_views(vs.take(i as int)),
            need_sep == (i > 0 && sep_after(vs[i - 1])),
        decreases buf@.len() - i,
    {
        let c = buf[i];
        let is_root = match c {
            WindowsComponent::RootDir => true,
            _ => false,
        };
        if need_sep && !is_root {
            res.push(WINDOWS_SEPARATOR_BYTE);
        }
        let ghost mid = res@;
        res.extend_from_slice(c.as_bytes());
        need_sep = match c {
            WindowsComponent::RootDir => false,
            WindowsComponent::Prefix(p) => !p.kind().is_drive(),
            _ => true,
        };
        proof {
            let t = vs.take(i + 1);
            assert(t.drop_last() =~= vs.take(i as int));
            assert(t.last() == c@);
            assert(res@ =~= mid + c@.bytes());
            if i > 0 {
                assert(t[t.len() - 2] == vs[i - 1]);
            }
        }
        i = i + 1;
    }
    proof {
        assert(vs.take(i as int) =~= vs);
    }
    res
}

impl Encoding for WindowsEncoding {
    open spec fn spec_spans(path: Seq<u8>) -> Seq<Span> {
        windows_spans(path)
    }

    open spec fn spec_has_root(path: Seq<u8>) -> bool {
        spec_has_root(start_of(path))
    }

    open spec fn spec_is_absolute(path: Seq<u8>) -> bool {
        spec_is_absolute(start_of(path))
    }

    open spec fn spec_push(current: Seq<u8>, path: Seq<u8>) -> Seq<u8> {
        windows_push(current, path)
    }

    proof fn lemma_spans_wf(path: Seq<u8>) {
        lemma_components_wf(path, State::AtBeginning, !is_exact_verbatim(path), 0);
    }

    open spec fn spec_root_bytes() -> Seq<u8> {
        seq![WINDOWS_SEPARATOR_BYTE]
    }

    proof fn lemma_spans_ascii_delimited(path: Seq<u8>) {
        assert(path.skip(0) =~= path);
        lemma_components_edges(path, State::AtBeginning, !is_exact_verbatim(path), 0);
        let comps = windows_comps(path);
        let spans = windows_spans(path);
        assert forall|i: int| 0 <= i < spans.len() implies ascii_edge(path, (#[trigger] spans[i]).1)
            && ascii_edge(path, spans[i].2) by {
            assert(spans[i].1 == comps[i].1 && spans[i].2 == comps[i].2);
        }
    }

    fn root_bytes() -> (res: &'static [u8]) {
        windows_separator_bytes()
    }

    open spec fn spec_same_component(ka: ComponentKind, a: Seq<u8>, kb: ComponentKind, b: Seq<u8>) -> bool {
        windows_same_component(ka, a, kb, b)
    }

    open spec fn spec_is_root(k: ComponentKind, c: Seq<u8>) -> bool {
        windows_is_root(k, c)
    }

    fn is_root(k: ComponentKind, c: &[u8]) -> (res: bool) {
        match k {
            ComponentKind::RootDir => true,
            ComponentKind::Prefix => match prefix(c) {
                Ok((_, p)) => !p.is_drive(),
                Err(_) => true,
            },
            _ => false,
        }
    }

    open spec fn spec_valid_name(name: Seq<u8>) -> bool {
        forall|i: int| 0 <= i < name.len() ==> !is_disallowed_filename_byte(#[trigger] name[i])
    }

    fn is_valid_name(name: &[u8]) -> (res: bool) {
        all_allowed(name)
    }

    proof fn lemma_same_component_refl(k: ComponentKind, a: Seq<u8>) {
    }

    proof fn lemma_same_component_sym(ka: ComponentKind, a: Seq<u8>, kb: ComponentKind, b: Seq<u8>) {
    }

    proof fn lemma_same_component_trans(
        ka: ComponentKind,
        a: Seq<u8>,
        kb: ComponentKind,
        b: Seq<u8>,
        kc: ComponentKind,
        c: Seq<u8>,
    ) {
    }

    fn same_component(ka: ComponentKind, a: &[u8], kb: ComponentKind, b: &[u8]) -> (res: bool) {
        match (ka, kb) {
            (ComponentKind::RootDir, ComponentKind::RootDir)
            | (ComponentKind::CurDir, ComponentKind::CurDir)
            | (ComponentKind::ParentDir, ComponentKind::ParentDir) => true,
            (ComponentKind::Normal, ComponentKind::Normal) => bytes_eq(a, b),
            (ComponentKind::Prefix, ComponentKind::Prefix) => match (prefix(a), prefix(b)) {
                (Ok((_, x)), Ok((_, y))) => x.same_as(&y),
                _ => bytes_eq(a, b),
            },
            _ => false,
        }
    }

    open spec fn spec_label() -> Seq<char> {
        seq!['w', 'i', 'n', 'd', 'o', 'w', 's']
    }

    fn label() -> (res: &'static str) {
        let r = "windows";
        proof {
            reveal_strlit("windows");
        }
        r
    }

    fn push(current_path: &mut Vec<u8>, path: &[u8]) {
        if path.len() == 0 {
            return;
        }
        let comps = WindowsComponents::new(path);
        if comps.is_absolute() || comps.has_prefix() {
            current_path.clear();
            let ghost before = current_path@;
            current_path.extend_from_slice(path);
            proof {
                assert(current_path@ =~= path@);
            }
            return;
        }
        let (verbatim, prefix_len, only_disk) = {
            let cur = WindowsComponents::new(current_path.as_slice());
            (cur.has_any_verbatim_prefix(), cur.prefix_len(), cur.is_only_disk())
        };
        if verbatim {
            let res = {
                let mut buf = collect_components(current_path.as_slice());
                let extra = collect_components(path);
                let ghost base = views(buf@);
                let ghost all = views(extra@);
                let mut i: usize = 0;
                proof {
                    assert(all.take(0) =~= Seq::<WindowsComponentView>::empty());
                }
                while i < extra.len()
                    invariant
                        all == views(extra@),
                        i <= extra@.len(),
                        views(buf@) == verbatim_fold(base, all.take(i as int)),
                    decreases extra@.len() - i,
                {
                    verbatim_push(&mut buf, extra[i]);
                    proof {
                        assert(all.take(i + 1).drop_last() =~= all.take(i as int));
                    }
                    i = i + 1;
                }
                proof {
                    assert(all.take(i as int) =~= all);
                }
                join_components(&buf)
            };
            *current_path = res;
            return;
        }
        if comps.has_root() {
            proof {
                lemma_front_wf(current_path@, State::AtBeginning, !is_exact_verbatim(current_path@));
            }
            current_path.truncate(prefix_len);
            let ghost before = current_path@;
            current_path.extend_from_slice(path);
            proof {
                assert(current_path@ =~= before + path@);
            }
            return;
        }
        if current_path.len() > 0 && !is_separator(current_path[current_path.len() - 1], true)
            && !only_disk {
            current_path.push(WINDOWS_SEPARATOR_BYTE);
        }
        let ghost before = current_path@;
        current_path.extend_from_slice(path);
        proof {
            assert(current_path@ =~= before + path@);
        }
    }

    fn has_root(path: &[u8]) -> (res: bool) {
        WindowsComponents::new(path).has_root()
    }

    fn is_absolute(path: &[u8]) -> (res: bool) {
        WindowsComponents::new(path).is_absolute()
    }

    fn component_spans(path: &[u8]) -> (res: Vec<(ComponentKind, usize, usize)>) {
        let mut parser = Parser::new(path);
        let ghost nz = !is_exact_verbatim(path@);
        let mut out: Vec<(ComponentKind, usize, usize)> = Vec::new();
        let mut offset: usize = 0;
        let total: usize = path.len();
        let ghost f = |t: (WindowsComponentView, int, int)| (t.0.kind(), t.1, t.2);
        let ghost g = |t: (ComponentKind, usize, usize)| span_of(t);
        proof {
            assert(path@.skip(0) =~= path@);
        }
        loop
            invariant_except_break
                f == (|t: (WindowsComponentView, int, int)| (t.0.kind(), t.1, t.2)),
                g == (|t: (ComponentKind, usize, usize)| span_of(t)),
                total == path@.len(),
                offset <= path@.len(),
                parser@.0 == path@.skip(offset as int),
                parser@.2 == nz,
                windows_spans(path@) == out@.map_values(g) + spec_components(
                    parser@.0,
                    parser@.1,
                    nz,
                    offset as int,
                ).map_values(f),
            ensures
                out@.map_values(g) == windows_spans(path@),
            decreases parser@.0.len(),
        {
            let ghost before = parser@;
            proof {
                lemma_front_wf(before.0, before.1, nz);
            }
            match parser.step_front() {
                Ok((c, a, b, n, st)) => {
                    let item = (c.kind(), offset + a, offset + b);
                    proof {
                        let rest = spec_components(before.0.skip(n as int), st, nz, offset + n);
                        let head = seq![(c@, offset + a, offset + b)];
                        assert(spec_components(before.0, before.1, nz, offset as int) == head
                            + rest);
                        assert((head + rest).map_values(f) =~= head.map_values(f)
                            + rest.map_values(f));
                        assert(out@.push(item).map_values(g) =~= out@.map_values(g)
                            + head.map_values(f));
                    }
                    out.push(item);
                    let _ = parser.next_front();
                    offset = offset + n;
                    proof {
                        assert(parser@.0 =~= path@.skip(offset as int));
                    }
                },
                Err(_) => {
                    proof {
                        assert(spec_components(before.0, before.1, nz, offset as int).map_values(f)
                            =~= Seq::<Span>::empty());
                        assert(out@.map_values(g) =~= out@.map_values(g) + Seq::<Span>::empty());
                    }
                    break ;
                },
            }
        }
        out
    }

    fn last_component(path: &[u8]) -> (res: Option<(ComponentKind, usize, usize, usize)>) {
        match Parser::new(path).last_component() {
            None => None,
            Some((c, a, b, e)) => {
                proof {
                    let comps = windows_comps(path@);
                    assert(windows_spans(path@).last() == (comps.last().0.kind(), comps.last().1, comps.last().2));
                    if comps.len() >= 2 {
                        assert(windows_spans(path@)[comps.len() - 2].2 == comps[comps.len() - 2].2);
                    }
                }
                Some((c.kind(), a, b, e))
            },
        }
    }
}

impl WindowsEncoding {
    /// Produces an iterator over the components of `path`
    pub fn components<'a>(path: &'a [u8]) -> (res: WindowsComponents<'a>)
        ensures
            res@ == start_of(path@),
    {
        WindowsComponents::new(path)
    }
}

impl<'a, T: Encoding> Path<'a, T> {
    /// Returns true if the encoding of the path is the Windows one
    pub fn has_windows_encoding(&self) -> (res: bool)
        ensures
            res == (T::spec_label() == WindowsEncoding::spec_label()),
    {
        str_eq(T::label(), WindowsEncoding::label())
    }

    /// Creates an owned path like `self` but in the Windows encoding; see [`Path::with_encoding`]
    pub fn with_windows_encoding(&self) -> (res: PathBuf<WindowsEncoding>)
        ensures
            res@ == spec_path_with_encoding::<T, WindowsEncoding>(self@),
    {
        self.with_encoding::<WindowsEncoding>()
    }
}

} // verus!
