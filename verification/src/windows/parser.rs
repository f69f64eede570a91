//! Parser of Windows path components.
//!
//! When parsing the path, there is a small amount of normalization:
//!
//! Repeated separators are ignored, so a\\b and a\\\\b both have a and b as components.
//!
//! Occurrences of '.' are normalized away, except if they are at the beginning of the path (or
//! right after a prefix). For example, a\\.\\b, a\\b\\, a\\b\\. and a\\b all have a and b as
//! components, but .\\a\\b starts with an additional CurDir component.
//!
//! A trailing slash is normalized away, \\a\\b and \\a\\b\\ are equivalent.
//!
//! Note that no other normalization takes place; in particular, a\c and a\b\..\c are distinct, to
//! account for the possibility that b is a symbolic link (so its parent isn't a).
//!
//! When the path starts with exactly `\\?\`, normalization is skipped: '.' is not normalized away
//! and '/' is not used as a separator. Repeat separators are still removed and trailing
//! separators are still not included.
use vstd::prelude::*;
use vstd::slice::slice_subrange;

use crate::constants::{
    COLON_BYTE, DOT_BYTE, QUESTION_BYTE, WINDOWS_ALT_SEPARATOR_BYTE, WINDOWS_SEPARATOR_BYTE,
};
use crate::parser::{agrees, lemma_run_len, lemma_run_len_bounds, run_len, ParseError, ParseResult};
use crate::windows::component::{WindowsComponent, WindowsComponentView};
use crate::windows::prefix::{WindowsPrefix, WindowsPrefixComponent, WindowsPrefixView};

verus! {

/// `b` separates components: `\` always, and `/` too when normalizing
pub open spec fn is_sep(b: u8, normalize: bool) -> bool {
    b == WINDOWS_SEPARATOR_BYTE || (normalize && b == WINDOWS_ALT_SEPARATOR_BYTE)
}

/// Predicate that stops a scan at a separator
pub open spec fn sep_fn(normalize: bool) -> spec_fn(u8) -> bool {
    |b: u8| is_sep(b, normalize)
}

/// `s` starts with exactly `\\?\`, which turns normalization off
pub open spec fn is_exact_verbatim(s: Seq<u8>) -> bool {
    s.len() >= 4 && s[0] == WINDOWS_SEPARATOR_BYTE && s[1] == WINDOWS_SEPARATOR_BYTE && s[2]
        == QUESTION_BYTE && s[3] == WINDOWS_SEPARATOR_BYTE
}

/// A single separator
pub open spec fn spec_separator(normalize: bool, s: Seq<u8>) -> Option<Seq<u8>> {
    if s.len() >= 1 && is_sep(s[0], normalize) {
        Some(s.skip(1))
    } else {
        None
    }
}

/// The bytes up to the next separator, of which there must be at least one
pub open spec fn spec_normal_bytes(normalize: bool, s: Seq<u8>) -> Option<(Seq<u8>, Seq<u8>)> {
    let n = run_len(s, sep_fn(normalize));
    if n == 0 {
        None
    } else {
        Some((s.skip(n as int), s.take(n as int)))
    }
}

/// `\\?\` where each backslash may also be a forward slash
pub open spec fn spec_verbatim(s: Seq<u8>) -> Option<Seq<u8>> {
    if s.len() >= 4 && is_sep(s[0], true) && is_sep(s[1], true) && s[2] == QUESTION_BYTE
        && is_sep(s[3], true) {
        Some(s.skip(4))
    } else {
        None
    }
}

/// `b` is an ASCII letter
pub open spec fn is_drive_letter(b: u8) -> bool {
    (65 <= b <= 90) || (97 <= b <= 122)
}

/// A drive letter followed by `:`
pub open spec fn spec_disk_byte(s: Seq<u8>) -> Option<(Seq<u8>, u8)> {
    if s.len() >= 2 && is_drive_letter(s[0]) && s[1] == COLON_BYTE {
        Some((s.skip(2), s[0]))
    } else {
        None
    }
}

/// `s` starts with `UNC`
pub open spec fn starts_with_unc(s: Seq<u8>) -> bool {
    s.len() >= 3 && s[0] == 85 && s[1] == 78 && s[2] == 67
}

/// An optional share after a server: an optional separator, then optionally the share's bytes
pub open spec fn spec_share(normalize: bool, s: Seq<u8>) -> (Seq<u8>, Seq<u8>) {
    let t = match spec_separator(normalize, s) {
        Some(t) => t,
        None => s,
    };
    match spec_normal_bytes(normalize, t) {
        Some((rest, share)) => (rest, share),
        None => (t, Seq::<u8>::empty()),
    }
}

/// Format is `\\?\UNC\SERVER\SHARE`; backslashes after `UNC` may be forward slashes unless the
/// input starts with exactly `\\?\`
pub open spec fn spec_prefix_verbatim_unc(s: Seq<u8>) -> Option<(Seq<u8>, WindowsPrefixView)> {
    let normalize = !is_exact_verbatim(s);
    match spec_verbatim(s) {
        None => None,
        Some(t) => if !starts_with_unc(t) {
            None
        } else {
            match spec_separator(normalize, t.skip(3)) {
                None => None,
                Some(t2) => match spec_normal_bytes(normalize, t2) {
                    None => None,
                    Some((t3, server)) => {
                        let (rest, share) = spec_share(normalize, t3);
                        Some((rest, WindowsPrefixView::VerbatimUNC(server, share)))
                    },
                },
            }
        },
    }
}

/// Format is `\\?\C:`
pub open spec fn spec_prefix_verbatim_disk(s: Seq<u8>) -> Option<(Seq<u8>, WindowsPrefixView)> {
    match spec_verbatim(s) {
        None => None,
        Some(t) => match spec_disk_byte(t) {
            None => None,
            Some((rest, d)) => Some((rest, WindowsPrefixView::VerbatimDisk(d))),
        },
    }
}

/// Format is `\\?\PICTURES`, when it is neither a verbatim disk nor a verbatim UNC prefix; the
/// name may be empty if a separator follows `\\?\`
pub open spec fn spec_prefix_verbatim(s: Seq<u8>) -> Option<(Seq<u8>, WindowsPrefixView)> {
    if spec_prefix_verbatim_disk(s) is Some || spec_prefix_verbatim_unc(s) is Some {
        None
    } else {
        let normalize = !is_exact_verbatim(s);
        match spec_verbatim(s) {
            None => None,
            Some(t) => match spec_normal_bytes(normalize, t) {
                Some((rest, v)) => Some((rest, WindowsPrefixView::Verbatim(v))),
                None => if spec_separator(normalize, t) is Some {
                    Some((t, WindowsPrefixView::Verbatim(Seq::<u8>::empty())))
                } else {
                    None
                },
            },
        }
    }
}

/// Format is `\\.\DEVICE`
pub open spec fn spec_prefix_device_ns(s: Seq<u8>) -> Option<(Seq<u8>, WindowsPrefixView)> {
    if s.len() >= 4 && is_sep(s[0], true) && is_sep(s[1], true) && s[2] == DOT_BYTE && is_sep(
        s[3],
        true,
    ) {
        match spec_normal_bytes(true, s.skip(4)) {
            None => None,
            Some((rest, v)) => Some((rest, WindowsPrefixView::DeviceNS(v))),
        }
    } else {
        None
    }
}

/// Format is `\\SERVER\SHARE`, where the share is optional
pub open spec fn spec_prefix_unc(s: Seq<u8>) -> Option<(Seq<u8>, WindowsPrefixView)> {
    if s.len() >= 2 && is_sep(s[0], true) && is_sep(s[1], true) {
        match spec_normal_bytes(true, s.skip(2)) {
            None => None,
            Some((t, server)) => {
                let (rest, share) = spec_share(true, t);
                Some((rest, WindowsPrefixView::UNC(server, share)))
            },
        }
    } else {
        None
    }
}

/// Format is `C:`
pub open spec fn spec_prefix_disk(s: Seq<u8>) -> Option<(Seq<u8>, WindowsPrefixView)> {
    match spec_disk_byte(s) {
        None => None,
        Some((rest, d)) => Some((rest, WindowsPrefixView::Disk(d))),
    }
}

/// Any prefix, tried as verbatim UNC, verbatim disk, verbatim, device namespace, UNC and disk
pub open spec fn spec_prefix(s: Seq<u8>) -> Option<(Seq<u8>, WindowsPrefixView)> {
    if spec_prefix_verbatim_unc(s) is Some {
        spec_prefix_verbatim_unc(s)
    } else if spec_prefix_verbatim_disk(s) is Some {
        spec_prefix_verbatim_disk(s)
    } else if spec_prefix_verbatim(s) is Some {
        spec_prefix_verbatim(s)
    } else if spec_prefix_device_ns(s) is Some {
        spec_prefix_device_ns(s)
    } else if spec_prefix_unc(s) is Some {
        spec_prefix_unc(s)
    } else {
        spec_prefix_disk(s)
    }
}

/// A prefix, with the bytes it was parsed from
pub open spec fn spec_prefix_component(s: Seq<u8>) -> Option<
    (Seq<u8>, (Seq<u8>, WindowsPrefixView)),
> {
    match spec_prefix(s) {
        None => None,
        Some((rest, p)) => Some((rest, (s.take(s.len() - rest.len()), p))),
    }
}

/// A separator standing for the root directory
pub open spec fn spec_root_dir(normalize: bool, s: Seq<u8>) -> Option<
    (Seq<u8>, WindowsComponentView),
> {
    if s.len() >= 1 && is_sep(s[0], normalize) {
        Some((s.skip(1), WindowsComponentView::RootDir))
    } else {
        None
    }
}

/// A component that ends at offset `n` of `s` is followed by the end of `s` or a separator
pub open spec fn ends_component(normalize: bool, s: Seq<u8>, n: int) -> bool {
    n == s.len() || (0 <= n < s.len() && is_sep(s[n], normalize))
}

/// `.` followed by the end of the input or a separator
pub open spec fn spec_cur_dir(normalize: bool, s: Seq<u8>) -> Option<
    (Seq<u8>, WindowsComponentView),
> {
    if s.len() >= 1 && s[0] == DOT_BYTE && ends_component(normalize, s, 1) {
        Some((s.skip(1), WindowsComponentView::CurDir))
    } else {
        None
    }
}

/// `..` followed by the end of the input or a separator
pub open spec fn spec_parent_dir(normalize: bool, s: Seq<u8>) -> Option<
    (Seq<u8>, WindowsComponentView),
> {
    if s.len() >= 2 && s[0] == DOT_BYTE && s[1] == DOT_BYTE && ends_component(normalize, s, 2) {
        Some((s.skip(2), WindowsComponentView::ParentDir))
    } else {
        None
    }
}

/// The bytes up to the next separator as a name
pub open spec fn spec_normal(normalize: bool, s: Seq<u8>) -> Option<
    (Seq<u8>, WindowsComponentView),
> {
    match spec_normal_bytes(normalize, s) {
        None => None,
        Some((rest, v)) => Some((rest, WindowsComponentView::Normal(v))),
    }
}

/// A file name: `..`, then `.` (only when not normalizing), then a name
pub open spec fn spec_filename(normalize: bool, s: Seq<u8>) -> Option<
    (Seq<u8>, WindowsComponentView),
> {
    if spec_parent_dir(normalize, s) is Some {
        spec_parent_dir(normalize, s)
    } else if !normalize && spec_cur_dir(normalize, s) is Some {
        spec_cur_dir(normalize, s)
    } else {
        spec_normal(normalize, s)
    }
}

/// Root directory, `.` or a file name
pub open spec fn spec_root_or_name(normalize: bool, s: Seq<u8>) -> Option<
    (Seq<u8>, WindowsComponentView),
> {
    if spec_root_dir(normalize, s) is Some {
        spec_root_dir(normalize, s)
    } else if spec_cur_dir(normalize, s) is Some {
        spec_cur_dir(normalize, s)
    } else {
        spec_filename(normalize, s)
    }
}

/// At offset `i` of `s` stands a `.` component
pub open spec fn cur_dir_at(normalize: bool, s: Seq<u8>, i: int) -> bool {
    0 <= i < s.len() && s[i] == DOT_BYTE && ends_component(normalize, s, i + 1)
}

/// Offset reached from `i` by skipping separators and, when normalizing, `.` components
pub open spec fn skip_from(normalize: bool, s: Seq<u8>, i: int) -> int
    decreases s.len() - i,
{
    if 0 <= i < s.len() && (is_sep(s[i], normalize) || (normalize && cur_dir_at(normalize, s, i))) {
        skip_from(normalize, s, i + 1)
    } else {
        i
    }
}

/// `skip_from` moves forward and stays within the input
pub proof fn lemma_skip_from_bounds(normalize: bool, s: Seq<u8>, i: int)
    requires
        0 <= i <= s.len(),
    ensures
        i <= skip_from(normalize, s, i) <= s.len(),
    decreases s.len() - i,
{
    if 0 <= i < s.len() && (is_sep(s[i], normalize) || (normalize && cur_dir_at(normalize, s, i))) {
        lemma_skip_from_bounds(normalize, s, i + 1);
    }
}

/// State of the parser
#[derive(Copy, Clone, Debug, PartialEq, Eq)]
pub enum State {
    /// Input is still at the beginning, meaning we could see a prefix or root
    AtBeginning,
    /// Input is no longer at the beginning and we saw a prefix, meaning we could see a root
    SeenPrefix,
    /// Input has moved passed the beginning to the point where we will see neither a prefix nor a
    /// root
    NotAtBeginning,
}

impl State {
    /// Returns true if input is still at the beginning
    pub fn is_at_beginning(self) -> (res: bool)
        ensures
            res == (self == State::AtBeginning),
    {
        matches!(self, State::AtBeginning)
    }
}

/// After a component, skip the separators (and, when normalizing, `.` components) that follow
pub open spec fn spec_after(
    parsed: Option<(Seq<u8>, WindowsComponentView)>,
    s: Seq<u8>,
    normalize: bool,
) -> Option<(WindowsComponentView, int, int, int, State)> {
    match parsed {
        None => None,
        Some((rest, c)) => {
            let len = s.len() - rest.len();
            Some((c, 0, len, len + skip_from(normalize, rest, 0), State::NotAtBeginning))
        },
    }
}

/// One step of the parser from the front: the next component, the offsets where its bytes start
/// and end, the number of bytes consumed and the next state
#[verifier::opaque]
pub open spec fn spec_front(s: Seq<u8>, state: State, normalize: bool) -> Option<
    (WindowsComponentView, int, int, int, State),
> {
    match state {
        State::AtBeginning => match spec_prefix_component(s) {
            Some((rest, (raw, p))) => {
                let len = s.len() - rest.len();
                Some((WindowsComponentView::Prefix(raw, p), 0, len, len, State::SeenPrefix))
            },
            None => spec_after(spec_root_or_name(normalize, s), s, normalize),
        },
        State::SeenPrefix => spec_after(spec_root_or_name(normalize, s), s, normalize),
        State::NotAtBeginning => spec_after(spec_filename(normalize, s), s, normalize),
    }
}

/// Components found by parsing `s` from the front until the parser fails, with the offsets where
/// each starts and ends, counted from `base`
pub open spec fn spec_components(s: Seq<u8>, state: State, normalize: bool, base: int) -> Seq<
    (WindowsComponentView, int, int),
>
    decreases s.len(),
{
    match spec_front(s, state, normalize) {
        None => seq![],
        Some((c, a, b, n, next)) => if 0 < n <= s.len() {
            seq![(c, base + a, base + b)] + spec_components(s.skip(n), next, normalize, base + n)
        } else {
            seq![]
        },
    }
}

/// Bytes that parsing from the front consumes: every component, and the separators (and, when
/// normalizing, `.` components) that follow the last one
pub open spec fn spec_consumed(s: Seq<u8>, state: State, normalize: bool) -> int
    decreases s.len(),
{
    match spec_front(s, state, normalize) {
        None => if state == State::AtBeginning {
            0
        } else {
            skip_from(normalize, s, 0)
        },
        Some((c, a, b, n, next)) => if 0 < n <= s.len() {
            n + spec_consumed(s.skip(n), next, normalize)
        } else {
            0
        },
    }
}

/// Offset where the component before the last one ends, or 0 when there is at most one
pub open spec fn end_before_last_component(comps: Seq<(WindowsComponentView, int, int)>) -> int {
    if comps.len() >= 2 {
        comps[comps.len() - 2].2
    } else {
        0
    }
}

/// `t` is what is left of `s` after dropping some of its first bytes
pub open spec fn is_suffix(t: Seq<u8>, s: Seq<u8>) -> bool {
    t.len() <= s.len() && t == s.skip(s.len() - t.len())
}

/// Dropping the first bytes of a suffix gives a suffix
pub proof fn lemma_skip_suffix(t: Seq<u8>, s: Seq<u8>, k: int)
    requires
        is_suffix(t, s),
        0 <= k <= t.len(),
    ensures
        is_suffix(t.skip(k), s),
{
    assert(t.skip(k) =~= s.skip(s.len() - t.skip(k).len()));
}

/// The bytes up to a separator leave a suffix of their input
pub proof fn lemma_normal_suffix(normalize: bool, t: Seq<u8>, s: Seq<u8>)
    requires
        is_suffix(t, s),
    ensures
        spec_normal_bytes(normalize, t) matches Some((rest, _)) ==> is_suffix(rest, s) && rest.len()
            < t.len(),
{
    lemma_run_len_bounds(t, sep_fn(normalize));
    if let Some((rest, _)) = spec_normal_bytes(normalize, t) {
        lemma_skip_suffix(t, s, run_len(t, sep_fn(normalize)) as int);
    }
}

/// The optional share leaves a suffix of its input
pub proof fn lemma_share_suffix(normalize: bool, t: Seq<u8>, s: Seq<u8>)
    requires
        is_suffix(t, s),
    ensures
        is_suffix(spec_share(normalize, t).0, s),
        spec_share(normalize, t).0.len() <= t.len(),
{
    let u = match spec_separator(normalize, t) {
        Some(u) => u,
        None => t,
    };
    if spec_separator(normalize, t) is Some {
        lemma_skip_suffix(t, s, 1);
    }
    lemma_normal_suffix(normalize, u, s);
}

/// Every parsed prefix leaves a suffix of its input
pub proof fn lemma_prefix_suffix(s: Seq<u8>)
    ensures
        spec_prefix(s) matches Some((rest, _)) ==> rest.len() < s.len() && rest == s.skip(
            s.len() - rest.len(),
        ),
{
    let nz = !is_exact_verbatim(s);
    assert(is_suffix(s, s)) by {
        assert(s =~= s.skip(0));
    }
    if s.len() >= 2 {
        lemma_skip_suffix(s, s, 2);
        if let Some((t, _)) = spec_normal_bytes(true, s.skip(2)) {
            lemma_normal_suffix(true, s.skip(2), s);
            lemma_share_suffix(true, t, s);
        }
    }
    if s.len() >= 4 {
        lemma_skip_suffix(s, s, 4);
        lemma_normal_suffix(true, s.skip(4), s);
        lemma_normal_suffix(nz, s.skip(4), s);
    }
    if s.len() >= 8 {
        lemma_skip_suffix(s, s, 8);
        assert(s.skip(4).skip(3).skip(1) =~= s.skip(8));
        if let Some((t3, _)) = spec_normal_bytes(nz, s.skip(8)) {
            lemma_normal_suffix(nz, s.skip(8), s);
            lemma_share_suffix(nz, t3, s);
        }
    }
}

/// The parsing steps are well formed: each consumes at least one byte and no more than it was
/// given, and the component lies within what it consumed
pub proof fn lemma_front_wf(s: Seq<u8>, state: State, normalize: bool)
    ensures
        spec_front(s, state, normalize) matches Some((c, a, b, n, st)) ==> 0 <= a < b <= n
            <= s.len() && st != State::AtBeginning && ((st == State::SeenPrefix) == (c is Prefix))
            && (state != State::AtBeginning ==> !(c is Prefix))
            && (c matches WindowsComponentView::Prefix(raw, _) ==> raw == s.take(b) && n == b) && (
            !(c is Prefix) ==> n == b + skip_from(normalize, s.skip(b), 0)),
{
    reveal(spec_front);
    lemma_prefix_suffix(s);
    lemma_run_len_bounds(s, sep_fn(normalize));
    let parsed = if state == State::NotAtBeginning {
        spec_filename(normalize, s)
    } else {
        spec_root_or_name(normalize, s)
    };
    if let Some((rest, c)) = parsed {
        lemma_skip_from_bounds(normalize, rest, 0);
    }
}

/// A single separator
pub fn separator<'a>(normalize: bool, input: &'a [u8]) -> (res: ParseResult<'a, ()>)
    ensures
        match res {
            Ok((rest, _)) => spec_separator(normalize, input@) == Some(rest@),
            Err(_) => spec_separator(normalize, input@) is None,
        },
{
    if input.len() > 0 && (input[0] == WINDOWS_SEPARATOR_BYTE || (normalize && input[0]
        == WINDOWS_ALT_SEPARATOR_BYTE)) {
        Ok((slice_subrange(input, 1, input.len()), ()))
    } else {
        Err("not a separator")
    }
}

/// Whether `b` separates components
pub fn is_separator(b: u8, normalize: bool) -> (res: bool)
    ensures
        res == is_sep(b, normalize),
{
    b == WINDOWS_SEPARATOR_BYTE || (normalize && b == WINDOWS_ALT_SEPARATOR_BYTE)
}

/// Parse normal bytes: everything up to the next separator, of which there must be at least one
pub fn normal_bytes<'a>(normalize: bool, input: &'a [u8]) -> (res: ParseResult<'a, &'a [u8]>)
    ensures
        match res {
            Ok((rest, v)) => spec_normal_bytes(normalize, input@) == Some((rest@, v@)),
            Err(_) => spec_normal_bytes(normalize, input@) is None,
        },
{
    let mut i: usize = 0;
    while i < input.len() && !is_separator(input[i], normalize)
        invariant
            i <= input@.len(),
            forall|j: int| 0 <= j < i ==> !is_sep(#[trigger] input@[j], normalize),
        decreases input@.len() - i,
    {
        i = i + 1;
    }
    proof {
        assert forall|j: int| 0 <= j < i implies !(sep_fn(normalize))(#[trigger] input@[j]) by {
            assert(!is_sep(input@[j], normalize));
        }
        lemma_run_len(input@, sep_fn(normalize), i as int);
    }
    if i == 0 {
        return Err("no normal bytes");
    }
    Ok((slice_subrange(input, i, input.len()), slice_subrange(input, 0, i)))
}

/// Whether `input` starts with exactly `\\?\`
fn starts_with_exact_verbatim(input: &[u8]) -> (res: bool)
    ensures
        res == is_exact_verbatim(input@),
{
    input.len() >= 4 && input[0] == WINDOWS_SEPARATOR_BYTE && input[1] == WINDOWS_SEPARATOR_BYTE
        && input[2] == QUESTION_BYTE && input[3] == WINDOWS_SEPARATOR_BYTE
}

/// Matches `\\?\` where the backslash is interchangeable with a forward slash
pub fn verbatim<'a>(input: &'a [u8]) -> (res: ParseResult<'a, ()>)
    ensures
        match res {
            Ok((rest, _)) => spec_verbatim(input@) == Some(rest@),
            Err(_) => spec_verbatim(input@) is None,
        },
{
    if input.len() >= 4 && is_separator(input[0], true) && is_separator(input[1], true) && input[2]
        == QUESTION_BYTE && is_separator(input[3], true) {
        Ok((slice_subrange(input, 4, input.len()), ()))
    } else {
        Err("not verbatim")
    }
}

/// `"C:" -> "C"`, where the drive letter must be an ASCII letter
pub fn disk_byte<'a>(input: &'a [u8]) -> (res: ParseResult<'a, u8>)
    ensures
        agrees(res, spec_disk_byte(input@)),
{
    if input.len() >= 2 && ((65 <= input[0] && input[0] <= 90) || (97 <= input[0] && input[0]
        <= 122)) && input[1] == COLON_BYTE {
        Ok((slice_subrange(input, 2, input.len()), input[0]))
    } else {
        Err("not a drive")
    }
}

/// An optional separator followed by an optional share
fn share<'a>(normalize: bool, input: &'a [u8]) -> (res: (&'a [u8], &'a [u8]))
    ensures
        (res.0@, res.1@) == spec_share(normalize, input@),
{
    let t = match separator(normalize, input) {
        Ok((t, _)) => t,
        Err(_) => input,
    };
    match normal_bytes(normalize, t) {
        Ok((rest, v)) => (rest, v),
        Err(_) => (t, slice_subrange(t, 0, 0)),
    }
}

/// Format is `\\?\UNC\SERVER\SHARE` where the backslash is interchangeable with a forward slash,
/// unless the input starts with exactly `\\?\`
pub fn prefix_verbatim_unc<'a>(input: &'a [u8]) -> (res: ParseResult<'a, WindowsPrefix<'a>>)
    ensures
        agrees(res, spec_prefix_verbatim_unc(input@)),
{
    let normalize = !starts_with_exact_verbatim(input);
    let (t, _) = verbatim(input)?;
    if !(t.len() >= 3 && t[0] == 85 && t[1] == 78 && t[2] == 67) {
        return Err("not UNC");
    }
    let t1 = slice_subrange(t, 3, t.len());
    proof {
        assert(t1@ == t@.skip(3));
    }
    let (t2, _) = separator(normalize, t1)?;
    let (t3, server) = normal_bytes(normalize, t2)?;
    let (rest, share) = share(normalize, t3);
    Ok((rest, WindowsPrefix::VerbatimUNC(server, share)))
}

/// Format is `\\?\C:` where the backslash is interchangeable with a forward slash
pub fn prefix_verbatim_disk<'a>(input: &'a [u8]) -> (res: ParseResult<'a, WindowsPrefix<'a>>)
    ensures
        agrees(res, spec_prefix_verbatim_disk(input@)),
{
    let (t, _) = verbatim(input)?;
    let (rest, d) = disk_byte(t)?;
    Ok((rest, WindowsPrefix::VerbatimDisk(d)))
}

/// Format is `\\?\PICTURES` where the backslash is interchangeable with a forward slash
pub fn prefix_verbatim<'a>(input: &'a [u8]) -> (res: ParseResult<'a, WindowsPrefix<'a>>)
    ensures
        agrees(res, spec_prefix_verbatim(input@)),
{
    if prefix_verbatim_disk(input).is_ok() {
        return Err("is a verbatim disk");
    }
    if prefix_verbatim_unc(input).is_ok() {
        return Err("is a verbatim UNC");
    }
    let normalize = !starts_with_exact_verbatim(input);
    let (t, _) = verbatim(input)?;
    match normal_bytes(normalize, t) {
        Ok((rest, v)) => Ok((rest, WindowsPrefix::Verbatim(v))),
        Err(_) => {
            if separator(normalize, t).is_ok() {
                let empty = slice_subrange(t, 0, 0);
                proof {
                    assert(empty@ =~= Seq::<u8>::empty());
                }
                Ok((t, WindowsPrefix::Verbatim(empty)))
            } else {
                Err("not verbatim")
            }
        },
    }
}

/// Format is `\\.\DEVICE` where the backslash is interchangeable with a forward slash
pub fn prefix_device_ns<'a>(input: &'a [u8]) -> (res: ParseResult<'a, WindowsPrefix<'a>>)
    ensures
        agrees(res, spec_prefix_device_ns(input@)),
{
    if !(input.len() >= 4 && is_separator(input[0], true) && is_separator(input[1], true)
        && input[2] == DOT_BYTE && is_separator(input[3], true)) {
        return Err("not a device namespace");
    }
    let t = slice_subrange(input, 4, input.len());
    let (rest, v) = normal_bytes(true, t)?;
    Ok((rest, WindowsPrefix::DeviceNS(v)))
}

/// Format is `\\SERVER\SHARE` where the backslash is interchangeable with a forward slash
pub fn prefix_unc<'a>(input: &'a [u8]) -> (res: ParseResult<'a, WindowsPrefix<'a>>)
    ensures
        agrees(res, spec_prefix_unc(input@)),
{
    if !(input.len() >= 2 && is_separator(input[0], true) && is_separator(input[1], true)) {
        return Err("not UNC");
    }
    let t = slice_subrange(input, 2, input.len());
    let (t1, server) = normal_bytes(true, t)?;
    let (rest, share) = share(true, t1);
    Ok((rest, WindowsPrefix::UNC(server, share)))
}

/// Format is `C:`
pub fn prefix_disk<'a>(input: &'a [u8]) -> (res: ParseResult<'a, WindowsPrefix<'a>>)
    ensures
        agrees(res, spec_prefix_disk(input@)),
{
    let (rest, d) = disk_byte(input)?;
    Ok((rest, WindowsPrefix::Disk(d)))
}

/// Any prefix
pub fn prefix<'a>(input: &'a [u8]) -> (res: ParseResult<'a, WindowsPrefix<'a>>)
    ensures
        agrees(res, spec_prefix(input@)),
{
    if let Ok(x) = prefix_verbatim_unc(input) {
        return Ok(x);
    }
    if let Ok(x) = prefix_verbatim_disk(input) {
        return Ok(x);
    }
    if let Ok(x) = prefix_verbatim(input) {
        return Ok(x);
    }
    if let Ok(x) = prefix_device_ns(input) {
        return Ok(x);
    }
    if let Ok(x) = prefix_unc(input) {
        return Ok(x);
    }
    prefix_disk(input)
}

/// A prefix, with the bytes of the input it was parsed from
pub fn prefix_component<'a>(input: &'a [u8]) -> (res: ParseResult<'a, WindowsPrefixComponent<'a>>)
    ensures
        agrees(res, spec_prefix_component(input@)),
{
    let (rest, parsed) = prefix(input)?;
    proof {
        lemma_prefix_suffix(input@);
    }
    let raw = slice_subrange(input, 0, input.len() - rest.len());
    Ok((rest, WindowsPrefixComponent::new(raw, parsed)))
}

/// A separator standing for the root directory
pub fn root_dir<'a>(normalize: bool, input: &'a [u8]) -> (res: ParseResult<'a, WindowsComponent<'a>>)
    ensures
        agrees(res, spec_root_dir(normalize, input@)),
{
    if input.len() == 0 {
        Err("empty input")
    } else if !is_separator(input[0], normalize) {
        Err("not root dir")
    } else {
        Ok((slice_subrange(input, 1, input.len()), WindowsComponent::RootDir))
    }
}

/// Current directory, `.`, which must be followed by a separator or the end of the input
pub fn cur_dir<'a>(normalize: bool, input: &'a [u8]) -> (res: ParseResult<'a, WindowsComponent<'a>>)
    ensures
        agrees(res, spec_cur_dir(normalize, input@)),
{
    if input.len() >= 1 && input[0] == DOT_BYTE && (input.len() == 1 || is_separator(
        input[1],
        normalize,
    )) {
        Ok((slice_subrange(input, 1, input.len()), WindowsComponent::CurDir))
    } else {
        Err("not the current directory")
    }
}

/// Parent directory, `..`, which must be followed by a separator or the end of the input
pub fn parent_dir<'a>(normalize: bool, input: &'a [u8]) -> (res: ParseResult<
    'a,
    WindowsComponent<'a>,
>)
    ensures
        agrees(res, spec_parent_dir(normalize, input@)),
{
    if input.len() >= 2 && input[0] == DOT_BYTE && input[1] == DOT_BYTE && (input.len() == 2
        || is_separator(input[2], normalize)) {
        Ok((slice_subrange(input, 2, input.len()), WindowsComponent::ParentDir))
    } else {
        Err("not the parent directory")
    }
}

/// Name of a file or directory: everything up to the next separator
pub fn normal<'a>(normalize: bool, input: &'a [u8]) -> (res: ParseResult<'a, WindowsComponent<'a>>)
    ensures
        agrees(res, spec_normal(normalize, input@)),
{
    let (rest, v) = normal_bytes(normalize, input)?;
    Ok((rest, WindowsComponent::Normal(v)))
}

/// A file name, which will not include the current directory if normalizing
pub fn filename<'a>(normalize: bool, input: &'a [u8]) -> (res: ParseResult<
    'a,
    WindowsComponent<'a>,
>)
    ensures
        agrees(res, spec_filename(normalize, input@)),
{
    if let Ok(x) = parent_dir(normalize, input) {
        return Ok(x);
    }
    if !normalize {
        if let Ok(x) = cur_dir(normalize, input) {
            return Ok(x);
        }
    }
    normal(normalize, input)
}

/// Skip the separators and, if normalizing, the current directories at the start of `input`;
/// returns how many bytes were skipped
pub fn move_to_next(normalize: bool, input: &[u8]) -> (res: usize)
    ensures
        res == skip_from(normalize, input@, 0),
        res <= input@.len(),
{
    let mut i: usize = 0;
    while i < input.len() && (is_separator(input[i], normalize) || (normalize && input[i]
        == DOT_BYTE && (i + 1 == input.len() || is_separator(input[i + 1], normalize))))
        invariant
            i <= input@.len(),
            skip_from(normalize, input@, 0) == skip_from(normalize, input@, i as int),
        decreases input@.len() - i,
    {
        i = i + 1;
    }
    proof {
        lemma_skip_from_bounds(normalize, input@, i as int);
    }
    i
}

/// Parser to get [`WindowsComponent`]s
#[derive(Copy, Clone, Debug, PartialEq, Eq)]
pub struct Parser<'a> {
    input: &'a [u8],
    state: State,
    /// Whether or not to normalize while parsing
    normalize: bool,
}

impl<'a> View for Parser<'a> {
    type V = (Seq<u8>, State, bool);

    closed spec fn view(&self) -> (Seq<u8>, State, bool) {
        (self.input@, self.state, self.normalize)
    }
}

impl<'a> Parser<'a> {
    /// Create a new parser for the given `input`; it normalizes unless the input starts with
    /// exactly `\\?\`
    pub fn new(input: &'a [u8]) -> (res: Self)
        ensures
            res@ == (input@, State::AtBeginning, !is_exact_verbatim(input@)),
    {
        let normalize = !starts_with_exact_verbatim(input);
        Parser { input, state: State::AtBeginning, normalize }
    }

    /// Returns the input remaining for the parser
    pub fn remaining(&self) -> (res: &'a [u8])
        ensures
            res@ == self@.0,
    {
        self.input
    }

    /// Whether the parser normalizes separators and `.` components
    pub fn normalizes(&self) -> (res: bool)
        ensures
            res == self@.2,
    {
        self.normalize
    }

    /// Returns true if the parser has more to parse
    pub fn has_more(&self) -> (res: bool)
        ensures
            res == (self@.0.len() > 0),
    {
        self.input.len() > 0
    }

    /// One parsing step from the front, without advancing: the component, the offsets where its
    /// bytes start and end, the number of bytes consumed and the next state
    pub fn step_front(&self) -> (res: Result<(WindowsComponent<'a>, usize, usize, usize, State), ParseError>)
        ensures
            match res {
                Ok((c, a, b, n, st)) => spec_front(self@.0, self@.1, self@.2) == Some(
                    (c@, a as int, b as int, n as int, st),
                ),
                Err(_) => spec_front(self@.0, self@.1, self@.2) is None,
            },
    {
        let input = self.input;
        let normalize = self.normalize;
        proof {
            reveal(spec_front);
            lemma_front_wf(input@, self.state, normalize);
            lemma_prefix_suffix(input@);
        }
        if self.state.is_at_beginning() {
            if let Ok((rest, p)) = prefix_component(input) {
                let len: usize = input.len() - rest.len();
                return Ok((WindowsComponent::Prefix(p), 0, len, len, State::SeenPrefix));
            }
        }
        let parsed = match self.state {
            State::NotAtBeginning => filename(normalize, input),
            _ => {
                if let Ok(x) = root_dir(normalize, input) {
                    Ok(x)
                } else if let Ok(x) = cur_dir(normalize, input) {
                    Ok(x)
                } else {
                    filename(normalize, input)
                }
            },
        };
        match parsed {
            Err(e) => Err(e),
            Ok((rest, c)) => {
                let len: usize = input.len() - rest.len();
                let skip = move_to_next(normalize, rest);
                Ok((c, 0, len, len + skip, State::NotAtBeginning))
            },
        }
    }

    /// Parses next component, advancing an internal input pointer past the component
    pub fn next_front(&mut self) -> (res: Result<WindowsComponent<'a>, ParseError>)
        ensures
            match spec_front(old(self)@.0, old(self)@.1, old(self)@.2) {
                Some((c, _, _, n, st)) => (res matches Ok(r) && r@ == c && final(self)@ == (
                    old(self)@.0.skip(n),
                    st,
                    old(self)@.2,
                )),
                None => res is Err && final(self)@ == old(self)@,
            },
    {
        match self.step_front() {
            Ok((c, _, _, n, st)) => {
                proof {
                    lemma_front_wf(self.input@, self.state, self.normalize);
                }
                self.input = slice_subrange(self.input, n, self.input.len());
                self.state = st;
                Ok(c)
            },
            Err(e) => Err(e),
        }
    }

    /// Parses next component without advancing internal input pointer or adjusting state
    pub fn peek_front(&self) -> (res: Result<WindowsComponent<'a>, ParseError>)
        ensures
            match res {
                Ok(c) => (spec_front(self@.0, self@.1, self@.2) matches Some((c2, _, _, _, _))
                    && c@ == c2),
                Err(_) => spec_front(self@.0, self@.1, self@.2) is None,
            },
    {
        match self.step_front() {
            Ok((c, _, _, _, _)) => Ok(c),
            Err(e) => Err(e),
        }
    }

    /// The last component that parsing from the front finds, with the offsets where it starts and
    /// ends and the offset where the component before it ends (0 if there is none)
    #[verifier::rlimit(100)]
    pub fn last_component(&self) -> (res: Option<(WindowsComponent<'a>, usize, usize, usize)>)
        ensures
            ({
                let comps = spec_components(self@.0, self@.1, self@.2, 0);
                match res {
                    None => comps.len() == 0,
                    Some((c, a, b, e)) => {
                        &&& comps.len() > 0
                        &&& c@ == comps.last().0
                        &&& a == comps.last().1
                        &&& b == comps.last().2
                        &&& e == end_before_last_component(comps)
                        &&& e <= self@.0.len()
                    },
                }
            }),
    {
        let ghost comps = spec_components(self.input@, self.state, self.normalize, 0);
        let mut scratch = *self;
        let total: usize = self.input.len();
        let mut offset: usize = 0;
        let mut last: Option<(WindowsComponent<'a>, usize, usize)> = None;
        let mut prev_end: usize = 0;
        let ghost mut seen: Seq<(WindowsComponentView, int, int)> = seq![];
        loop
            invariant_except_break
                comps == spec_components(self.input@, self.state, self.normalize, 0),
                comps == seen + spec_components(
                    scratch.input@,
                    scratch.state,
                    self.normalize,
                    offset as int,
                ),
                scratch.normalize == self.normalize,
                total == self.input@.len(),
                offset <= self.input@.len(),
                scratch.input@ == self.input@.skip(offset as int),
                seen.len() == 0 ==> last is None && offset == 0 && scratch.state == self.state
                    && prev_end == 0,
                seen.len() > 0 ==> (last matches Some((l, la, lb)) && l@ == seen.last().0 && la
                    == seen.last().1 && lb == seen.last().2 && prev_end
                    == end_before_last_component(seen)),
                forall|i: int| 0 <= i < seen.len() ==> 0 <= #[trigger] seen[i].2 <= offset,
            ensures
                comps == seen,
                seen.len() == 0 ==> last is None,
                seen.len() > 0 ==> (last matches Some((l, la, lb)) && l@ == seen.last().0 && la
                    == seen.last().1 && lb == seen.last().2 && prev_end
                    == end_before_last_component(seen)),
                forall|i: int|
                    0 <= i < seen.len() ==> 0 <= #[trigger] seen[i].2 <= self.input@.len(),
            decreases scratch.input@.len(),
        {
            match scratch.step_front() {
                Ok((c, a, b, n, st)) => {
                    proof {
                        lemma_front_wf(scratch.input@, scratch.state, scratch.normalize);
                        assert(scratch.input@.len() == self.input@.len() - offset);
                        assert(spec_components(
                            scratch.input@,
                            scratch.state,
                            self.normalize,
                            offset as int,
                        ) == seq![(c@, offset + a, offset + b)] + spec_components(
                            scratch.input@.skip(n as int),
                            st,
                            self.normalize,
                            offset + n,
                        ));
                        seen = seen.push((c@, offset + a, offset + b));
                    }
                    if let Some((_, _, lb)) = last {
                        prev_end = lb;
                    }
                    last = Some((c, offset + a, offset + b));
                    scratch.input = slice_subrange(scratch.input, n, scratch.input.len());
                    scratch.state = st;
                    offset = offset + n;
                    proof {
                        assert(scratch.input@ == self.input@.skip(offset as int));
                        assert(comps == seen + spec_components(
                            scratch.input@,
                            scratch.state,
                            self.normalize,
                            offset as int,
                        ));
                    }
                },
                Err(_) => {
                    proof {
                        assert(spec_components(
                            scratch.input@,
                            scratch.state,
                            self.normalize,
                            offset as int,
                        ) == Seq::<(WindowsComponentView, int, int)>::empty());
                        assert(comps == seen);
                    }
                    break ;
                },
            }
        }
        match last {
            None => None,
            Some((c, a, b)) => Some((c, a, b, prev_end)),
        }
    }

    /// Parses next component, advancing an internal input pointer past the component, but from the
    /// back of the input instead of the front: the component is the last one that parsing from
    /// the front finds, and the input left ends where the component before it ends
    pub fn next_back(&mut self) -> (res: Result<WindowsComponent<'a>, ParseError>)
        ensures
            ({
                let comps = spec_components(old(self)@.0, old(self)@.1, old(self)@.2, 0);
                if comps.len() == 0 {
                    res is Err && final(self)@ == old(self)@
                } else {
                    &&& (res matches Ok(r) && r@ == comps.last().0)
                    &&& final(self)@ == (
                        old(self)@.0.take(end_before_last_component(comps)),
                        old(self)@.1,
                        old(self)@.2,
                    )
                }
            }),
    {
        match self.last_component() {
            None => Err("no component left"),
            Some((c, _, _, e)) => {
                self.input = slice_subrange(self.input, 0, e);
                Ok(c)
            },
        }
    }
}

} // verus!
