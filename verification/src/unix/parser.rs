//! Parser of Unix path components.
//!
//! When parsing the path, there is a small amount of normalization:
//!
//! Repeated separators are ignored, so a/b and a//b both have a and b as components.
//!
//! Occurrences of . are normalized away, except if they are at the beginning of the path. For
//! example, a/./b, a/b/, a/b/. and a/b all have a and b as components, but ./a/b starts with an
//! additional CurDir component.
//!
//! A trailing slash is normalized away, /a/b and /a/b/ are equivalent.
//!
//! Note that no other normalization takes place; in particular, a/c and a/b/../c are distinct, to
//! account for the possibility that b is a symbolic link (so its parent isn't a).
use vstd::prelude::*;
use vstd::slice::slice_subrange;

use crate::constants::{DOT_BYTE, NUL_BYTE, UNIX_SEPARATOR_BYTE};
use crate::parser::{agrees, lemma_run_len, lemma_run_len_bounds, run_len, ParseError, ParseResult};
use crate::unix::component::{UnixComponent, UnixComponentView};

verus! {

/// `b` separates Unix path components
pub open spec fn is_sep(b: u8) -> bool {
    b == UNIX_SEPARATOR_BYTE
}

/// `b` may not appear in a Unix file or directory name
pub open spec fn is_disallowed(b: u8) -> bool {
    b == UNIX_SEPARATOR_BYTE || b == NUL_BYTE
}

/// Predicate that stops a scan at a byte a name may not hold
pub open spec fn disallowed_fn() -> spec_fn(u8) -> bool {
    |b: u8| is_disallowed(b)
}

/// Predicate that stops a scan at the first byte that is not a separator
pub open spec fn not_sep_fn() -> spec_fn(u8) -> bool {
    |b: u8| !is_sep(b)
}

/// A component that ends at offset `n` of `s` is followed by the end of `s` or a separator
pub open spec fn ends_component(s: Seq<u8>, n: int) -> bool {
    n == s.len() || (0 <= n < s.len() && is_sep(s[n]))
}

/// `.` followed by the end of the input or a separator
pub open spec fn spec_cur_dir(s: Seq<u8>) -> Option<(Seq<u8>, UnixComponentView)> {
    if s.len() >= 1 && s[0] == DOT_BYTE && ends_component(s, 1) {
        Some((s.skip(1), UnixComponentView::CurDir))
    } else {
        None
    }
}

/// `..` followed by the end of the input or a separator
pub open spec fn spec_parent_dir(s: Seq<u8>) -> Option<(Seq<u8>, UnixComponentView)> {
    if s.len() >= 2 && s[0] == DOT_BYTE && s[1] == DOT_BYTE && ends_component(s, 2) {
        Some((s.skip(2), UnixComponentView::ParentDir))
    } else {
        None
    }
}

/// A separator standing for the root directory
pub open spec fn spec_root_dir(s: Seq<u8>) -> Option<(Seq<u8>, UnixComponentView)> {
    if s.len() >= 1 && is_sep(s[0]) {
        Some((s.skip(1), UnixComponentView::RootDir))
    } else {
        None
    }
}

/// The bytes up to the first separator or nul byte, of which there must be at least one
pub open spec fn spec_normal(s: Seq<u8>) -> Option<(Seq<u8>, UnixComponentView)> {
    let n = run_len(s, disallowed_fn());
    if n == 0 {
        None
    } else {
        Some((s.skip(n as int), UnixComponentView::Normal(s.take(n as int))))
    }
}

/// A single separator
pub open spec fn spec_separator(s: Seq<u8>) -> Option<Seq<u8>> {
    if s.len() >= 1 && is_sep(s[0]) {
        Some(s.skip(1))
    } else {
        None
    }
}

/// Parent directory, current directory or name, tried in that order
pub open spec fn spec_file_or_dir_name(s: Seq<u8>) -> Option<(Seq<u8>, UnixComponentView)> {
    if spec_parent_dir(s) is Some {
        spec_parent_dir(s)
    } else if spec_cur_dir(s) is Some {
        spec_cur_dir(s)
    } else {
        spec_normal(s)
    }
}

/// A component that may only start a path: root directory, parent directory, current directory
/// or name, tried in that order
pub open spec fn spec_first_component(s: Seq<u8>) -> Option<(Seq<u8>, UnixComponentView)> {
    if spec_root_dir(s) is Some {
        spec_root_dir(s)
    } else {
        spec_file_or_dir_name(s)
    }
}

/// A component past the start of a path: parent directory or name
pub open spec fn spec_later_component(s: Seq<u8>) -> Option<(Seq<u8>, UnixComponentView)> {
    if spec_parent_dir(s) is Some {
        spec_parent_dir(s)
    } else {
        spec_normal(s)
    }
}

/// At offset `i` of `s` stands a `.` component
pub open spec fn cur_dir_at(s: Seq<u8>, i: int) -> bool {
    0 <= i < s.len() && s[i] == DOT_BYTE && ends_component(s, i + 1)
}

/// Offset reached from `i` by skipping separators and `.` components
pub open spec fn skip_from(s: Seq<u8>, i: int) -> int
    decreases s.len() - i,
{
    if 0 <= i < s.len() && (is_sep(s[i]) || cur_dir_at(s, i)) {
        skip_from(s, i + 1)
    } else {
        i
    }
}

/// State of the parser
#[derive(Copy, Clone, Debug, PartialEq, Eq)]
pub enum State {
    /// Input is still at the beginning
    AtBeginning,
    /// Input has moved passed the beginning
    NotAtBeginning,
}

impl State {
    /// Returns true if input is still at the beginning
    pub fn is_at_beginning(self) -> (res: bool)
        ensures
            res == (self == State::AtBeginning),
    {
        matches!(self, State::AtBeginning)
    }
}

/// One step of the parser from the front: the next component, the offsets where its bytes start
/// and end, and the number of bytes consumed, which takes in the separators that follow it
pub open spec fn spec_front(s: Seq<u8>, state: State) -> Option<(UnixComponentView, int, int, int)> {
    let skip = if state == State::AtBeginning {
        0
    } else {
        skip_from(s, 0)
    };
    let t = s.skip(skip);
    let parsed = if state == State::AtBeginning {
        spec_first_component(t)
    } else {
        spec_later_component(t)
    };
    match parsed {
        None => None,
        Some((rest, c)) => {
            let len = t.len() - rest.len();
            if !(c is RootDir) && !ends_component(t, len) {
                None
            } else {
                let seps = run_len(rest, not_sep_fn()) as int;
                Some((c, skip, skip + len, skip + len + seps))
            }
        },
    }
}

/// Components found by parsing `s` from the front until the parser fails, with the offsets where
/// each starts and ends, counted from `base`
pub open spec fn spec_components(s: Seq<u8>, state: State, base: int) -> Seq<
    (UnixComponentView, int, int),
>
    decreases s.len(),
{
    match spec_front(s, state) {
        None => seq![],
        Some((c, a, b, n)) => if 0 < n <= s.len() {
            seq![(c, base + a, base + b)] + spec_components(
                s.skip(n),
                State::NotAtBeginning,
                base + n,
            )
        } else {
            seq![]
        },
    }
}

/// Bytes that parsing from the front consumes: every component, and the separators and `.`
/// components that follow the last one
pub open spec fn spec_consumed(s: Seq<u8>, state: State) -> int
    decreases s.len(),
{
    match spec_front(s, state) {
        None => if state == State::AtBeginning {
            0
        } else {
            skip_from(s, 0)
        },
        Some((c, a, b, n)) => if 0 < n <= s.len() {
            n + spec_consumed(s.skip(n), State::NotAtBeginning)
        } else {
            0
        },
    }
}

/// A single separator
pub fn separator<'a>(input: &'a [u8]) -> (res: ParseResult<'a, ()>)
    ensures
        match res {
            Ok((rest, _)) => spec_separator(input@) == Some(rest@),
            Err(_) => spec_separator(input@) is None,
        },
{
    if input.len() > 0 && input[0] == UNIX_SEPARATOR_BYTE {
        Ok((slice_subrange(input, 1, input.len()), ()))
    } else {
        Err("Wrong byte")
    }
}

/// Separator at the start of a path, standing for the root directory
pub fn root_dir<'a>(input: &'a [u8]) -> (res: ParseResult<'a, UnixComponent<'a>>)
    ensures
        agrees(res, spec_root_dir(input@)),
{
    match separator(input) {
        Ok((rest, _)) => Ok((rest, UnixComponent::RootDir)),
        Err(e) => Err(e),
    }
}

/// Current directory, `.`, which must be followed by a separator or the end of the input
pub fn cur_dir<'a>(input: &'a [u8]) -> (res: ParseResult<'a, UnixComponent<'a>>)
    ensures
        agrees(res, spec_cur_dir(input@)),
{
    if input.len() >= 1 && input[0] == DOT_BYTE && (input.len() == 1 || input[1]
        == UNIX_SEPARATOR_BYTE) {
        Ok((slice_subrange(input, 1, input.len()), UnixComponent::CurDir))
    } else {
        Err("not the current directory")
    }
}

/// Parent directory, `..`, which must be followed by a separator or the end of the input
pub fn parent_dir<'a>(input: &'a [u8]) -> (res: ParseResult<'a, UnixComponent<'a>>)
    ensures
        agrees(res, spec_parent_dir(input@)),
{
    if input.len() >= 2 && input[0] == DOT_BYTE && input[1] == DOT_BYTE && (input.len() == 2
        || input[2] == UNIX_SEPARATOR_BYTE) {
        Ok((slice_subrange(input, 2, input.len()), UnixComponent::ParentDir))
    } else {
        Err("not the parent directory")
    }
}

/// Name of a file or directory: the bytes up to the first separator or nul byte
pub fn normal<'a>(input: &'a [u8]) -> (res: ParseResult<'a, UnixComponent<'a>>)
    ensures
        agrees(res, spec_normal(input@)),
{
    let mut i: usize = 0;
    while i < input.len() && input[i] != UNIX_SEPARATOR_BYTE && input[i] != NUL_BYTE
        invariant
            i <= input@.len(),
            forall|j: int| 0 <= j < i ==> !is_disallowed(#[trigger] input@[j]),
        decreases input@.len() - i,
    {
        i = i + 1;
    }
    proof {
        assert forall|j: int| 0 <= j < i implies !(disallowed_fn())(#[trigger] input@[j]) by {
            assert(!is_disallowed(input@[j]));
        }
        lemma_run_len(input@, disallowed_fn(), i as int);
    }
    if i == 0 {
        return Err("Predicate immediately returned true");
    }
    Ok((slice_subrange(input, i, input.len()), UnixComponent::Normal(slice_subrange(input, 0, i))))
}

/// Next file or directory name: `..`, `.` or a name, tried in that order
pub fn file_or_dir_name<'a>(input: &'a [u8]) -> (res: ParseResult<'a, UnixComponent<'a>>)
    ensures
        agrees(res, spec_file_or_dir_name(input@)),
{
    if let Ok(x) = parent_dir(input) {
        return Ok(x);
    }
    if let Ok(x) = cur_dir(input) {
        return Ok(x);
    }
    normal(input)
}

/// Number of separators at the start of `input`
fn count_separators(input: &[u8]) -> (res: usize)
    ensures
        res == run_len(input@, not_sep_fn()),
{
    let mut i: usize = 0;
    while i < input.len() && input[i] == UNIX_SEPARATOR_BYTE
        invariant
            i <= input@.len(),
            forall|j: int| 0 <= j < i ==> is_sep(#[trigger] input@[j]),
        decreases input@.len() - i,
    {
        i = i + 1;
    }
    proof {
        assert forall|j: int| 0 <= j < i implies !(not_sep_fn())(#[trigger] input@[j]) by {
            assert(is_sep(input@[j]));
        }
        lemma_run_len(input@, not_sep_fn(), i as int);
    }
    i
}

/// Offset reached from the start of `input` by skipping separators and `.` components
fn skip_separators_and_cur_dirs(input: &[u8]) -> (res: usize)
    ensures
        res == skip_from(input@, 0),
        res <= input@.len(),
{
    let mut i: usize = 0;
    while i < input.len() && (input[i] == UNIX_SEPARATOR_BYTE || (input[i] == DOT_BYTE && (i + 1
        == input.len() || input[i + 1] == UNIX_SEPARATOR_BYTE)))
        invariant
            i <= input@.len(),
            skip_from(input@, 0) == skip_from(input@, i as int),
        decreases input@.len() - i,
    {
        i = i + 1;
    }
    i
}

/// The parsing steps are well formed: each consumes at least one byte and no more than it was
/// given, and the component lies within what it consumed
pub proof fn lemma_front_wf(s: Seq<u8>, state: State)
    ensures
        spec_front(s, state) matches Some((c, a, b, n)) ==> 0 <= a < b <= n <= s.len(),
{
    let skip = if state == State::AtBeginning {
        0
    } else {
        skip_from(s, 0)
    };
    lemma_skip_from_bounds(s, 0);
    let t = s.skip(skip);
    lemma_run_len_bounds(t, disallowed_fn());
    if let Some((rest, c)) = spec_front_parsed(s, state) {
        lemma_run_len_bounds(rest, not_sep_fn());
    }
}

/// The component that a parsing step finds, with the input it leaves
pub open spec fn spec_front_parsed(s: Seq<u8>, state: State) -> Option<(Seq<u8>, UnixComponentView)> {
    let skip = if state == State::AtBeginning {
        0
    } else {
        skip_from(s, 0)
    };
    let t = s.skip(skip);
    if state == State::AtBeginning {
        spec_first_component(t)
    } else {
        spec_later_component(t)
    }
}

/// `skip_from` moves forward and stays within the input
pub proof fn lemma_skip_from_bounds(s: Seq<u8>, i: int)
    requires
        0 <= i <= s.len(),
    ensures
        i <= skip_from(s, i) <= s.len(),
    decreases s.len() - i,
{
    if 0 <= i < s.len() && (is_sep(s[i]) || cur_dir_at(s, i)) {
        lemma_skip_from_bounds(s, i + 1);
    }
}

/// Parser to get [`UnixComponent`]s
#[derive(Copy, Clone, Debug, PartialEq, Eq)]
pub struct Parser<'a> {
    input: &'a [u8],
    state: State,
}

impl<'a> View for Parser<'a> {
    type V = (Seq<u8>, State);

    closed spec fn view(&self) -> (Seq<u8>, State) {
        (self.input@, self.state)
    }
}

impl<'a> Parser<'a> {
    /// Create a new parser for the given `input`
    pub fn new(input: &'a [u8]) -> (res: Self)
        ensures
            res@ == (input@, State::AtBeginning),
    {
        Parser { input, state: State::AtBeginning }
    }

    /// Returns true if the parser has more to parse
    pub fn has_more(&self) -> (res: bool)
        ensures
            res == (self@.0.len() > 0),
    {
        self.input.len() > 0
    }

    /// Returns the input remaining for the parser
    pub fn remaining(&self) -> (res: &'a [u8])
        ensures
            res@ == self@.0,
    {
        self.input
    }

    /// The state of the parser
    pub fn state(&self) -> (res: State)
        ensures
            res == self@.1,
    {
        self.state
    }

    /// One parsing step from the front, without advancing: the component, the offsets where its
    /// bytes start and end, and the number of bytes consumed
    pub fn step_front(&self) -> (res: Result<(UnixComponent<'a>, usize, usize, usize), ParseError>)
        ensures
            match res {
                Ok((c, a, b, n)) => spec_front(self@.0, self@.1) == Some(
                    (c@, a as int, b as int, n as int),
                ),
                Err(_) => spec_front(self@.0, self@.1) is None,
            },
    {
        let input = self.input;
        let skip: usize = if self.state.is_at_beginning() {
            0
        } else {
            skip_separators_and_cur_dirs(input)
        };
        let t = slice_subrange(input, skip, input.len());
        let parsed = if self.state.is_at_beginning() {
            match root_dir(t) {
                Ok(x) => Ok(x),
                Err(_) => file_or_dir_name(t),
            }
        } else {
            match parent_dir(t) {
                Ok(x) => Ok(x),
                Err(_) => normal(t),
            }
        };
        proof {
            assert(t@ == input@.skip(skip as int));
        }
        match parsed {
            Err(e) => Err(e),
            Ok((rest, c)) => {
                proof {
                    lemma_front_wf(input@, self.state);
                    lemma_run_len_bounds(t@, disallowed_fn());
                }
                let len: usize = t.len() - rest.len();
                if !c.is_root() && !(len == t.len() || t[len] == UNIX_SEPARATOR_BYTE) {
                    return Err("component is not followed by a separator");
                }
                let seps = count_separators(rest);
                proof {
                    lemma_run_len_bounds(rest@, not_sep_fn());
                }
                Ok((c, skip, skip + len, skip + len + seps))
            },
        }
    }

    /// Parses next component without advancing internal input pointer or adjusting state
    pub fn peek_front(&self) -> (res: Result<UnixComponent<'a>, ParseError>)
        ensures
            match res {
                Ok(c) => (spec_front(self@.0, self@.1) matches Some((c2, _, _, _)) && c@ == c2),
                Err(_) => spec_front(self@.0, self@.1) is None,
            },
    {
        match self.step_front() {
            Ok((c, _, _, _)) => Ok(c),
            Err(e) => Err(e),
        }
    }

    /// Parses next component, advancing an internal input pointer past the component
    pub fn next_front(&mut self) -> (res: Result<UnixComponent<'a>, ParseError>)
        ensures
            match spec_front(old(self)@.0, old(self)@.1) {
                Some((c, _, _, n)) => (res matches Ok(r) && r@ == c && final(self)@ == (
                    old(self)@.0.skip(n),
                    State::NotAtBeginning,
                )),
                None => res is Err && final(self)@ == old(self)@,
            },
    {
        match self.step_front() {
            Ok((c, _, _, n)) => {
                proof {
                    lemma_front_wf(self.input@, self.state);
                }
                self.input = slice_subrange(self.input, n, self.input.len());
                self.state = State::NotAtBeginning;
                Ok(c)
            },
            Err(e) => Err(e),
        }
    }

    /// The last component that parsing from the front finds, with the offsets where it starts and
    /// ends and the offset where the component before it ends (0 if there is none)
    pub fn last_component(&self) -> (res: Option<(UnixComponent<'a>, usize, usize, usize)>)
        ensures
            ({
                let comps = spec_components(self@.0, self@.1, 0);
                match res {
                    None => comps.len() == 0,
                    Some((c, a, b, e)) => {
                        &&& comps.len() > 0
                        &&& c@ == comps.last().0
                        &&& a == comps.last().1
                        &&& b == comps.last().2
                        &&& e == end_before_last_component(comps)
                        &&& e <= self@.0.len()
                    },
                }
            }),
    {
        let ghost comps = spec_components(self.input@, self.state, 0);
        let mut scratch = *self;
        let total: usize = self.input.len();
        let mut offset: usize = 0;
        let mut last: Option<(UnixComponent<'a>, usize, usize)> = None;
        let mut prev_end: usize = 0;
        let ghost mut seen: Seq<(UnixComponentView, int, int)> = seq![];
        loop
            invariant_except_break
                comps == spec_components(self.input@, self.state, 0),
                comps == seen + spec_components(scratch.input@, scratch.state, offset as int),
                total == self.input@.len(),
                offset <= self.input@.len(),
                scratch.input@ == self.input@.skip(offset as int),
                seen.len() == 0 ==> last is None && offset == 0 && scratch.state == self.state
                    && prev_end == 0,
                seen.len() > 0 ==> (last matches Some((l, la, lb)) && l@ == seen.last().0 && la
                    == seen.last().1 && lb == seen.last().2 && prev_end
                    == end_before_last_component(seen)),
                forall|i: int| 0 <= i < seen.len() ==> 0 <= #[trigger] seen[i].2 <= offset,
            ensures
                comps == seen,
                seen.len() == 0 ==> last is None,
                seen.len() > 0 ==> (last matches Some((l, la, lb)) && l@ == seen.last().0 && la
                    == seen.last().1 && lb == seen.last().2 && prev_end
                    == end_before_last_component(seen)),
                forall|i: int|
                    0 <= i < seen.len() ==> 0 <= #[trigger] seen[i].2 <= self.input@.len(),
            decreases scratch.input@.len(),
        {
            match scratch.step_front() {
                Ok((c, a, b, n)) => {
                    proof {
                        lemma_front_wf(scratch.input@, scratch.state);
                        assert(scratch.input@.len() == self.input@.len() - offset);
                        assert(spec_components(scratch.input@, scratch.state, offset as int)
                            == seq![(c@, offset + a, offset + b)] + spec_components(
                            scratch.input@.skip(n as int),
                            State::NotAtBeginning,
                            offset + n,
                        ));
                        seen = seen.push((c@, offset + a, offset + b));
                    }
                    if let Some((_, _, lb)) = last {
                        prev_end = lb;
                    }
                    last = Some((c, offset + a, offset + b));
                    scratch.input = slice_subrange(scratch.input, n, scratch.input.len());
                    scratch.state = State::NotAtBeginning;
                    offset = offset + n;
                    proof {
                        assert(scratch.input@ == self.input@.skip(offset as int));
                        assert(comps == seen + spec_components(
                            scratch.input@,
                            scratch.state,
                            offset as int,
                        ));
                    }
                },
                Err(_) => {
                    proof {
                        assert(spec_components(scratch.input@, scratch.state, offset as int)
                            == Seq::<(UnixComponentView, int, int)>::empty());
                        assert(comps == seen);
                    }
                    break ;
                },
            }
        }
        match last {
            None => None,
            Some((c, a, b)) => Some((c, a, b, prev_end)),
        }
    }

    /// Parses next component, advancing an internal input pointer past the component, but from the
    /// back of the input instead of the front: the component is the last one that parsing from
    /// the front finds, and the input left ends where the component before it ends
    pub fn next_back(&mut self) -> (res: Result<UnixComponent<'a>, ParseError>)
        ensures
            ({
                let comps = spec_components(old(self)@.0, old(self)@.1, 0);
                if comps.len() == 0 {
                    res is Err && final(self)@ == old(self)@
                } else {
                    &&& (res matches Ok(r) && r@ == comps.last().0)
                    &&& final(self)@ == (
                        old(self)@.0.take(end_before_last_component(comps)),
                        old(self)@.1,
                    )
                }
            }),
    {
        match self.last_component() {
            None => Err("no component left"),
            Some((c, _, _, e)) => {
                self.input = slice_subrange(self.input, 0, e);
                Ok(c)
            },
        }
    }
}

/// Offset where the component before the last one ends, or 0 when there is at most one
pub open spec fn end_before_last_component(comps: Seq<(UnixComponentView, int, int)>) -> int {
    if comps.len() >= 2 {
        comps[comps.len() - 2].2
    } else {
        0
    }
}

} // verus!
