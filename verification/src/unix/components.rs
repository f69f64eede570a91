//! Iterating over the components of a Unix path.
use vstd::prelude::*;
use vstd::slice::slice_subrange;

use crate::common::components::Components;
use crate::common::encoding::Encoding;
use crate::common::path::{spec_same_components, Path};
use crate::unix::encoding::UnixEncoding;
use crate::parser::{ParseError, ParseResult};
use crate::unix::component::{UnixComponent, UnixComponentView};
use crate::unix::parser::{
    end_before_last_component, lemma_front_wf, lemma_skip_from_bounds, spec_components,
    spec_consumed, spec_front, Parser, State,
};

verus! {

/// Iterator over the [`UnixComponent`]s of a Unix path
#[derive(Copy, Clone, Debug)]
pub struct UnixComponents<'a> {
    parser: Parser<'a>,
}

impl<'a> View for UnixComponents<'a> {
    type V = (Seq<u8>, State);

    closed spec fn view(&self) -> (Seq<u8>, State) {
        self.parser@
    }
}

impl<'a> Components<'a> for UnixComponents<'a> {
    open spec fn remaining(&self) -> Seq<u8> {
        self@.0
    }

    /// On Unix, a path is absolute exactly when it has a root
    open spec fn spec_is_absolute(&self) -> bool {
        starts_with_root(self@.0, self@.1)
    }

    open spec fn spec_has_root(&self) -> bool {
        starts_with_root(self@.0, self@.1)
    }

    fn as_bytes(&self) -> (res: &'a [u8]) {
        UnixComponents::as_bytes(self)
    }

    fn is_absolute(&self) -> (res: bool) {
        UnixComponents::is_absolute(self)
    }

    fn has_root(&self) -> (res: bool) {
        UnixComponents::has_root(self)
    }
}

/// The next component found from the front is the root directory
pub open spec fn starts_with_root(s: Seq<u8>, state: State) -> bool {
    spec_front(s, state) matches Some((c, _, _, _)) && c is RootDir
}

impl<'a> UnixComponents<'a> {
    /// Components of `path`, starting at its beginning
    pub fn new(path: &'a [u8]) -> (res: Self)
        ensures
            res@ == (path@, State::AtBeginning),
    {
        UnixComponents { parser: Parser::new(path) }
    }

    /// Extracts a slice corresponding to the portion of the path remaining for iteration
    pub fn as_bytes(&self) -> (res: &'a [u8])
        ensures
            res@ == self@.0,
    {
        self.parser.remaining()
    }

    /// Reports back whether the iterator represents an absolute path, which on Unix is the same as
    /// having a root
    pub fn is_absolute(&self) -> (res: bool)
        ensures
            res == starts_with_root(self@.0, self@.1),
    {
        self.has_root()
    }

    /// Returns true if the next component is the root directory
    pub fn has_root(&self) -> (res: bool)
        ensures
            res == starts_with_root(self@.0, self@.1),
    {
        match self.parser.peek_front() {
            Ok(c) => c.is_root(),
            Err(_) => false,
        }
    }

    /// Next component from the front
    pub fn next(&mut self) -> (res: Option<UnixComponent<'a>>)
        ensures
            match spec_front(old(self)@.0, old(self)@.1) {
                Some((c, _, _, n)) => (res matches Some(r) && r@ == c && final(self)@ == (
                    old(self)@.0.skip(n),
                    State::NotAtBeginning,
                )),
                None => res is None && final(self)@ == old(self)@,
            },
    {
        self.parser.next_front().ok()
    }

    /// Next component from the back
    pub fn next_back(&mut self) -> (res: Option<UnixComponent<'a>>)
        ensures
            ({
                let comps = spec_components(old(self)@.0, old(self)@.1, 0);
                if comps.len() == 0 {
                    res is None && final(self)@ == old(self)@
                } else {
                    &&& (res matches Some(r) && r@ == comps.last().0)
                    &&& final(self)@ == (
                        old(self)@.0.take(end_before_last_component(comps)),
                        old(self)@.1,
                    )
                }
            }),
    {
        self.parser.next_back().ok()
    }
}

/// Take multiple [`UnixComponent`]s and map them into [`UnixComponents`]; fails if there is not
/// a single component, and otherwise returns the components of what was consumed and the input
/// left after them
pub fn unix_components<'a>(input: &'a [u8]) -> (res: ParseResult<'a, UnixComponents<'a>>)
    ensures
        match res {
            Ok((rest, comps)) => {
                let n = spec_consumed(input@, State::AtBeginning);
                &&& spec_components(input@, State::AtBeginning, 0).len() > 0
                &&& 0 <= n <= input@.len()
                &&& rest@ == input@.skip(n)
                &&& comps@ == (input@.take(n), State::AtBeginning)
            },
            Err(_) => spec_components(input@, State::AtBeginning, 0).len() == 0,
        },
{
    let mut parser = Parser::new(input);
    proof {
        assert(input@.skip(0) == input@);
    }
    let total: usize = input.len();
    let mut offset: usize = 0;
    let mut started = false;
    loop
        invariant_except_break
            total == input@.len(),
            offset <= input@.len(),
            parser@.0 == input@.skip(offset as int),
            !started ==> offset == 0 && parser@.1 == State::AtBeginning && parser@.0 == input@,
            started ==> parser@.1 == State::NotAtBeginning && spec_components(
                input@,
                State::AtBeginning,
                0,
            ).len() > 0,
            spec_consumed(input@, State::AtBeginning) == offset + spec_consumed(
                parser@.0,
                parser@.1,
            ),
        ensures
            offset <= input@.len(),
            parser@.0 == input@.skip(offset as int),
            !started ==> offset == 0 && parser@.1 == State::AtBeginning && spec_front(
                input@,
                State::AtBeginning,
            ) is None,
            started ==> parser@.1 == State::NotAtBeginning && spec_components(
                input@,
                State::AtBeginning,
                0,
            ).len() > 0,
            spec_consumed(input@, State::AtBeginning) == offset + spec_consumed(
                parser@.0,
                parser@.1,
            ),
            spec_front(parser@.0, parser@.1) is None,
        decreases parser@.0.len(),
    {
        let ghost before = parser@;
        match parser.step_front() {
            Ok((_, _, _, n)) => {
                proof {
                    lemma_front_wf(before.0, before.1);
                    if !started {
                        assert(before.0 == input@);
                        assert(spec_components(input@, State::AtBeginning, 0).len() > 0);
                    }
                }
                let _ = parser.next_front();
                offset = offset + n;
                started = true;
                proof {
                    assert(parser@.0 == input@.skip(offset as int));
                }
            },
            Err(_) => {
                break ;
            },
        }
    }
    if !started {
        return Err("Did not find root dir or any file or dir names");
    }
    let remaining = parser.remaining();
    let skip: usize = skip_trailing(remaining);
    proof {
        lemma_skip_from_bounds(remaining@, 0);
    }
    let consumed: usize = offset + skip;
    Ok((slice_subrange(input, consumed, input.len()), UnixComponents::new(slice_subrange(input, 0, consumed))))
}

/// Offset reached from the start of `input` by skipping separators and `.` components
fn skip_trailing(input: &[u8]) -> (res: usize)
    ensures
        res == crate::unix::parser::skip_from(input@, 0),
        res <= input@.len(),
{
    let mut i: usize = 0;
    while i < input.len() && (input[i] == crate::constants::UNIX_SEPARATOR_BYTE || (input[i]
        == crate::constants::DOT_BYTE && (i + 1 == input.len() || input[i + 1]
        == crate::constants::UNIX_SEPARATOR_BYTE)))
        invariant
            i <= input@.len(),
            crate::unix::parser::skip_from(input@, 0) == crate::unix::parser::skip_from(
                input@,
                i as int,
            ),
        decreases input@.len() - i,
    {
        i = i + 1;
    }
    proof {
        lemma_skip_from_bounds(input@, i as int);
    }
    i
}

/// Parse input to get [`UnixComponents`], failing unless the whole input is made of components
pub fn parse<'a>(input: &'a [u8]) -> (res: Result<UnixComponents<'a>, ParseError>)
    ensures
        match res {
            Ok(comps) => {
                &&& spec_components(input@, State::AtBeginning, 0).len() > 0
                &&& spec_consumed(input@, State::AtBeginning) == input@.len()
                &&& comps@ == (input@, State::AtBeginning)
            },
            Err(_) => spec_components(input@, State::AtBeginning, 0).len() == 0 || spec_consumed(
                input@,
                State::AtBeginning,
            ) != input@.len(),
        },
{
    let (rest, _) = unix_components(input)?;
    if rest.len() != 0 {
        return Err("Did not fully parse input");
    }
    Ok(UnixComponents::new(input))
}

impl<'a> UnixComponents<'a> {
    /// The path made of the components left
    pub fn as_path<T: Encoding>(&self) -> (res: Path<'a, T>)
        ensures
            res@ == self@.0,
    {
        Path::new(self.as_bytes())
    }
}

impl<'a> UnixComponent<'a> {
    /// Parses `path` as exactly one component, failing if it holds none or more than one
    pub fn try_from(path: &'a [u8]) -> (res: Result<Self, ParseError>)
        ensures
            match spec_front(path@, State::AtBeginning) {
                None => res is Err,
                Some((c, _, _, n)) => if spec_front(path@.skip(n), State::NotAtBeginning) is Some {
                    res is Err
                } else {
                    res matches Ok(r) && r@ == c
                },
            },
    {
        let mut components = UnixComponents::new(path);
        let component = match components.next() {
            Some(c) => c,
            None => return Err("no component found"),
        };
        if components.next().is_some() {
            return Err("found more than one component");
        }
        Ok(component)
    }

    /// Returns the path made of this component alone
    pub fn as_path<T: Encoding>(&self) -> (res: Path<'a, T>)
        ensures
            res@ == self@.bytes(),
    {
        Path::new(self.as_bytes())
    }
}

/// Component iterators are equal when what is left of their paths has the same components
impl<'a> PartialEq for UnixComponents<'a> {
    fn eq(&self, other: &Self) -> (res: bool) {
        let mine: Path<'a, UnixEncoding> = Path::new(UnixComponents::as_bytes(self));
        mine.same_components(Path::new(UnixComponents::as_bytes(other)))
    }
}

impl<'a> Eq for UnixComponents<'a> {}

impl<'a> vstd::std_specs::cmp::PartialEqSpecImpl for UnixComponents<'a> {
    open spec fn obeys_eq_spec() -> bool {
        true
    }

    open spec fn eq_spec(&self, other: &Self) -> bool {
        spec_same_components::<UnixEncoding>(self@.0, other@.0)
    }
}

} // verus!
