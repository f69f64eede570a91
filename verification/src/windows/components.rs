//! Iterating over the components of a Windows path.
use vstd::prelude::*;

use vstd::slice::slice_subrange;

use crate::common::components::Components;
use crate::common::encoding::Encoding;
use crate::common::path::{spec_same_components, Path};
use crate::windows::encoding::WindowsEncoding;
use crate::parser::{ParseError, ParseResult};
use crate::windows::component::{WindowsComponent, WindowsComponentView};
use crate::windows::parser::{
    end_before_last_component, is_exact_verbatim, lemma_front_wf, lemma_skip_from_bounds,
    move_to_next, prefix_component, spec_components, spec_consumed, spec_front, spec_prefix_component,
    Parser, State,
};
use crate::windows::prefix::{WindowsPrefix, WindowsPrefixComponent, WindowsPrefixView};

verus! {

/// Iterator over the [`WindowsComponent`]s of a Windows path
#[derive(Copy, Clone, Debug)]
pub struct WindowsComponents<'a> {
    parser: Parser<'a>,
}

impl<'a> View for WindowsComponents<'a> {
    type V = (Seq<u8>, State, bool);

    closed spec fn view(&self) -> (Seq<u8>, State, bool) {
        self.parser@
    }
}

/// The first component found from the front
pub open spec fn first_of(v: (Seq<u8>, State, bool)) -> Option<WindowsComponentView> {
    match spec_front(v.0, v.1, v.2) {
        Some((c, _, _, _, _)) => Some(c),
        None => None,
    }
}

/// The component found from the front after the first one
pub open spec fn second_of(v: (Seq<u8>, State, bool)) -> Option<WindowsComponentView> {
    match spec_front(v.0, v.1, v.2) {
        Some((_, _, _, n, st)) => match spec_front(v.0.skip(n), st, v.2) {
            Some((c, _, _, _, _)) => Some(c),
            None => None,
        },
        None => None,
    }
}

/// The prefix the components start with, by its raw bytes and its kind
pub open spec fn prefix_of(v: (Seq<u8>, State, bool)) -> Option<(Seq<u8>, WindowsPrefixView)> {
    match first_of(v) {
        Some(WindowsComponentView::Prefix(raw, p)) => Some((raw, p)),
        _ => None,
    }
}

/// The components start with a prefix followed by the root directory
pub open spec fn spec_is_absolute(v: (Seq<u8>, State, bool)) -> bool {
    first_of(v) matches Some(WindowsComponentView::Prefix(..)) && second_of(v) matches Some(
        WindowsComponentView::RootDir,
    )
}

/// The components start with the root directory, with a prefix other than a drive, or with a
/// drive followed by the root directory
pub open spec fn spec_has_root(v: (Seq<u8>, State, bool)) -> bool {
    match first_of(v) {
        Some(WindowsComponentView::RootDir) => true,
        Some(WindowsComponentView::Prefix(_, p)) => match p {
            WindowsPrefixView::Disk(_) | WindowsPrefixView::VerbatimDisk(_) => second_of(v) matches Some(
                WindowsComponentView::RootDir,
            ),
            _ => true,
        },
        _ => false,
    }
}

/// The components start with a separator, or with a prefix followed by one
pub open spec fn spec_has_physical_root(v: (Seq<u8>, State, bool)) -> bool {
    match first_of(v) {
        Some(WindowsComponentView::RootDir) => true,
        Some(WindowsComponentView::Prefix(..)) => second_of(v) matches Some(
            WindowsComponentView::RootDir,
        ),
        _ => false,
    }
}

impl<'a> Components<'a> for WindowsComponents<'a> {
    open spec fn remaining(&self) -> Seq<u8> {
        self@.0
    }

    open spec fn spec_is_absolute(&self) -> bool {
        spec_is_absolute(self@)
    }

    open spec fn spec_has_root(&self) -> bool {
        spec_has_root(self@)
    }

    fn as_bytes(&self) -> (res: &'a [u8]) {
        WindowsComponents::as_bytes(self)
    }

    fn is_absolute(&self) -> (res: bool) {
        WindowsComponents::is_absolute(self)
    }

    fn has_root(&self) -> (res: bool) {
        WindowsComponents::has_root(self)
    }
}

impl<'a> WindowsComponents<'a> {
    /// Components of `path`, starting at its beginning; normalization is off when the path starts
    /// with exactly `\\?\`
    pub fn new(path: &'a [u8]) -> (res: Self)
        ensures
            res@ == (path@, State::AtBeginning, !is_exact_verbatim(path@)),
    {
        WindowsComponents { parser: Parser::new(path) }
    }

    /// Extracts a slice corresponding to the portion of the path remaining for iteration
    pub fn as_bytes(&self) -> (res: &'a [u8])
        ensures
            res@ == self@.0,
    {
        self.parser.remaining()
    }

    /// The next component from the front, without advancing
    pub fn peek_front(&self) -> (res: Option<WindowsComponent<'a>>)
        ensures
            match res {
                Some(c) => first_of(self@) == Some(c@),
                None => first_of(self@) is None,
            },
    {
        self.parser.peek_front().ok()
    }

    /// The second component from the front, without advancing
    fn peek_second(&self) -> (res: Option<WindowsComponent<'a>>)
        ensures
            match res {
                Some(c) => second_of(self@) == Some(c@),
                None => second_of(self@) is None,
            },
    {
        let mut parser = self.parser;
        if parser.next_front().is_err() {
            return None;
        }
        parser.next_front().ok()
    }

    /// Returns true only if the path represented by the components has a prefix followed by a
    /// root directory, e.g. `C:\some\path` but not `C:some\path`
    pub fn is_absolute(&self) -> (res: bool)
        ensures
            res == spec_is_absolute(self@),
    {
        match self.peek_front() {
            Some(WindowsComponent::Prefix(_)) => match self.peek_second() {
                Some(WindowsComponent::RootDir) => true,
                _ => false,
            },
            _ => false,
        }
    }

    /// Returns true if the path has either a physical root, meaning it begins with the separator
    /// (e.g. `\my\path` or `C:\`), or an implicit root, meaning it begins with a prefix that is
    /// not a drive (e.g. `\\?\pictures`)
    pub fn has_root(&self) -> (res: bool)
        ensures
            res == spec_has_root(self@),
    {
        match self.peek_front() {
            Some(WindowsComponent::RootDir) => true,
            Some(WindowsComponent::Prefix(p)) => match p.kind() {
                WindowsPrefix::Disk(_) | WindowsPrefix::VerbatimDisk(_) => match self.peek_second() {
                    Some(WindowsComponent::RootDir) => true,
                    _ => false,
                },
                _ => true,
            },
            _ => false,
        }
    }

    /// Returns true if the represented path has a prefix
    pub fn has_prefix(&self) -> (res: bool)
        ensures
            res == prefix_of(self@) is Some,
    {
        self.prefix().is_some()
    }

    /// Returns the prefix of the represented path's components if it has one
    pub fn prefix(&self) -> (res: Option<WindowsPrefixComponent<'a>>)
        ensures
            match res {
                Some(p) => prefix_of(self@) == Some(p@),
                None => prefix_of(self@) is None,
            },
    {
        match self.peek_front() {
            Some(WindowsComponent::Prefix(p)) => Some(p),
            _ => None,
        }
    }

    /// Length in bytes of the prefix, or 0 if there is none
    pub fn prefix_len(&self) -> (res: usize)
        ensures
            res == match prefix_of(self@) {
                Some((raw, _)) => raw.len(),
                None => 0,
            },
    {
        match self.prefix() {
            Some(p) => p.as_bytes().len(),
            None => 0,
        }
    }

    /// Returns the kind of prefix associated with the represented path if it has one
    pub fn prefix_kind(&self) -> (res: Option<WindowsPrefix<'a>>)
        ensures
            match res {
                Some(k) => (prefix_of(self@) matches Some((_, p)) && p == k@),
                None => prefix_of(self@) is None,
            },
    {
        match self.prefix() {
            Some(p) => Some(p.kind()),
            None => None,
        }
    }

    /// Returns true if the represented path has a verbatim, verbatim UNC, or verbatim disk prefix
    pub fn has_any_verbatim_prefix(&self) -> (res: bool)
        ensures
            res == (prefix_of(self@) matches Some((_, p)) && p.is_verbatim()),
    {
        match self.prefix_kind() {
            Some(k) => k.is_verbatim(),
            None => false,
        }
    }

    /// Returns true if the represented path has a verbatim prefix (e.g. `\\?\pictures`)
    pub fn has_verbatim_prefix(&self) -> (res: bool)
        ensures
            res == (prefix_of(self@) matches Some((_, p)) && p is Verbatim),
    {
        matches!(self.prefix_kind(), Some(WindowsPrefix::Verbatim(_)))
    }

    /// Returns true if the represented path has a verbatim UNC prefix (e.g.
    /// `\\?\UNC\server\share`)
    pub fn has_verbatim_unc_prefix(&self) -> (res: bool)
        ensures
            res == (prefix_of(self@) matches Some((_, p)) && p is VerbatimUNC),
    {
        matches!(self.prefix_kind(), Some(WindowsPrefix::VerbatimUNC(..)))
    }

    /// Returns true if the represented path has a verbatim disk prefix (e.g. `\\?\C:`)
    pub fn has_verbatim_disk_prefix(&self) -> (res: bool)
        ensures
            res == (prefix_of(self@) matches Some((_, p)) && p is VerbatimDisk),
    {
        matches!(self.prefix_kind(), Some(WindowsPrefix::VerbatimDisk(_)))
    }

    /// Returns true if the represented path has a device namespace prefix (e.g.
    /// `\\.\BrainInterface`)
    pub fn has_device_ns_prefix(&self) -> (res: bool)
        ensures
            res == (prefix_of(self@) matches Some((_, p)) && p is DeviceNS),
    {
        matches!(self.prefix_kind(), Some(WindowsPrefix::DeviceNS(_)))
    }

    /// Returns true if the represented path has a UNC prefix (e.g. `\\server\share`)
    pub fn has_unc_prefix(&self) -> (res: bool)
        ensures
            res == (prefix_of(self@) matches Some((_, p)) && p is UNC),
    {
        matches!(self.prefix_kind(), Some(WindowsPrefix::UNC(..)))
    }

    /// Returns true if the represented path has a disk prefix (e.g. `C:`)
    pub fn has_disk_prefix(&self) -> (res: bool)
        ensures
            res == (prefix_of(self@) matches Some((_, p)) && p is Disk),
    {
        matches!(self.prefix_kind(), Some(WindowsPrefix::Disk(_)))
    }

    /// Returns true if there is a separator immediately after the prefix, or a separator starts
    /// the components if there is no prefix, e.g. `C:\` and `\path` but not `\\?\path`
    pub fn has_physical_root(&self) -> (res: bool)
        ensures
            res == spec_has_physical_root(self@),
    {
        match self.peek_front() {
            Some(WindowsComponent::RootDir) => true,
            Some(WindowsComponent::Prefix(_)) => match self.peek_second() {
                Some(WindowsComponent::RootDir) => true,
                _ => false,
            },
            _ => false,
        }
    }

    /// Returns true if there is a root without a separator needing to be present, which is what
    /// every prefix but a disk prefix like `C:` provides
    pub fn has_implicit_root(&self) -> (res: bool)
        ensures
            res == (prefix_of(self@) matches Some((_, p)) && !(p is Disk)),
    {
        match self.prefix_kind() {
            Some(WindowsPrefix::Disk(_)) | None => false,
            Some(_) => true,
        }
    }

    /// Returns true if the path is just a disk, e.g. `C:`
    pub fn is_only_disk(&self) -> (res: bool)
        ensures
            res == ((prefix_of(self@) matches Some((_, p)) && p is Disk) && second_of(self@) is None),
    {
        self.has_disk_prefix() && self.peek_second().is_none()
    }

    /// Next component from the front
    pub fn next(&mut self) -> (res: Option<WindowsComponent<'a>>)
        ensures
            match spec_front(old(self)@.0, old(self)@.1, old(self)@.2) {
                Some((c, _, _, n, st)) => (res matches Some(r) && r@ == c && final(self)@ == (
                    old(self)@.0.skip(n),
                    st,
                    old(self)@.2,
                )),
                None => res is None && final(self)@ == old(self)@,
            },
    {
        self.parser.next_front().ok()
    }

    /// Next component from the back: the last one that parsing from the front finds
    pub fn next_back(&mut self) -> (res: Option<WindowsComponent<'a>>)
        ensures
            ({
                let comps = spec_components(old(self)@.0, old(self)@.1, old(self)@.2, 0);
                if comps.len() == 0 {
                    res is None && final(self)@ == old(self)@
                } else {
                    &&& (res matches Some(r) && r@ == comps.last().0)
                    &&& final(self)@ == (
                        old(self)@.0.take(end_before_last_component(comps)),
                        old(self)@.1,
                        old(self)@.2,
                    )
                }
            }),
    {
        self.parser.next_back().ok()
    }
}

/// Take multiple [`WindowsComponent`]s and map them into [`WindowsComponents`]; fails if there is
/// not a single component, and otherwise returns the components of what was consumed and the
/// input left after them
pub fn windows_components<'a>(input: &'a [u8]) -> (res: ParseResult<'a, WindowsComponents<'a>>)
    ensures
        ({
            let nz = !is_exact_verbatim(input@);
            match res {
                Ok((rest, comps)) => {
                    let n = spec_consumed(input@, State::AtBeginning, nz);
                    &&& spec_components(input@, State::AtBeginning, nz, 0).len() > 0
                    &&& 0 <= n <= input@.len()
                    &&& rest@ == input@.skip(n)
                    &&& comps@ == (
                        input@.take(n),
                        State::AtBeginning,
                        !is_exact_verbatim(input@.take(n)),
                    )
                },
                Err(_) => spec_components(input@, State::AtBeginning, nz, 0).len() == 0,
            }
        }),
{
    let mut parser = Parser::new(input);
    let ghost nz = !is_exact_verbatim(input@);
    proof {
        assert(input@.skip(0) == input@);
    }
    let total: usize = input.len();
    let mut offset: usize = 0;
    let mut started = false;
    loop
        invariant_except_break
            total == input@.len(),
            offset <= input@.len(),
            parser@.0 == input@.skip(offset as int),
            parser@.2 == nz,
            !started ==> offset == 0 && parser@.1 == State::AtBeginning && parser@.0 == input@,
            started ==> spec_components(input@, State::AtBeginning, nz, 0).len() > 0,
            started ==> parser@.1 != State::AtBeginning,
            spec_consumed(input@, State::AtBeginning, nz) == offset + spec_consumed(
                parser@.0,
                parser@.1,
                nz,
            ),
        ensures
            offset <= input@.len(),
            parser@.0 == input@.skip(offset as int),
            parser@.2 == nz,
            !started ==> offset == 0 && parser@.1 == State::AtBeginning && spec_front(
                input@,
                State::AtBeginning,
                nz,
            ) is None,
            started ==> spec_components(input@, State::AtBeginning, nz, 0).len() > 0,
            started ==> parser@.1 != State::AtBeginning,
            spec_consumed(input@, State::AtBeginning, nz) == offset + spec_consumed(
                parser@.0,
                parser@.1,
                nz,
            ),
            spec_front(parser@.0, parser@.1, nz) is None,
        decreases parser@.0.len(),
    {
        let ghost before = parser@;
        match parser.step_front() {
            Ok((_, _, _, n, _)) => {
                proof {
                    lemma_front_wf(before.0, before.1, nz);
                    if !started {
                        assert(before.0 == input@);
                        assert(spec_components(input@, State::AtBeginning, nz, 0).len() > 0);
                    }
                }
                let _ = parser.next_front();
                offset = offset + n;
                started = true;
                proof {
                    assert(parser@.0 == input@.skip(offset as int));
                }
            },
            Err(_) => {
                break ;
            },
        }
    }
    if !started {
        return Err("Did not find root dir or any file or dir names");
    }
    let remaining = parser.remaining();
    let skip: usize = move_to_next(parser.normalizes(), remaining);
    proof {
        lemma_skip_from_bounds(nz, remaining@, 0);
    }
    let consumed: usize = offset + skip;
    Ok((slice_subrange(input, consumed, input.len()), WindowsComponents::new(slice_subrange(input, 0, consumed))))
}

/// Parse input to get [`WindowsComponents`], failing unless the whole input is made of components
pub fn parse<'a>(input: &'a [u8]) -> (res: Result<WindowsComponents<'a>, ParseError>)
    ensures
        ({
            let nz = !is_exact_verbatim(input@);
            match res {
                Ok(comps) => {
                    &&& spec_components(input@, State::AtBeginning, nz, 0).len() > 0
                    &&& spec_consumed(input@, State::AtBeginning, nz) == input@.len()
                    &&& comps@ == (input@, State::AtBeginning, nz)
                },
                Err(_) => spec_components(input@, State::AtBeginning, nz, 0).len() == 0
                    || spec_consumed(input@, State::AtBeginning, nz) != input@.len(),
            }
        }),
{
    let (rest, _) = windows_components(input)?;
    if rest.len() != 0 {
        return Err("Did not fully parse input");
    }
    Ok(WindowsComponents::new(input))
}

impl<'a> WindowsComponents<'a> {
    /// The path made of the components left
    pub fn as_path<T: Encoding>(&self) -> (res: Path<'a, T>)
        ensures
            res@ == self@.0,
    {
        Path::new(self.as_bytes())
    }
}

impl<'a> WindowsComponent<'a> {
    /// Parses `path` as exactly one component, failing if it holds none or more than one
    pub fn try_from(path: &'a [u8]) -> (res: Result<Self, ParseError>)
        ensures
            match first_of((path@, State::AtBeginning, !is_exact_verbatim(path@))) {
                None => res is Err,
                Some(c) => if second_of((path@, State::AtBeginning, !is_exact_verbatim(path@))) is Some {
                    res is Err
                } else {
                    res matches Ok(r) && r@ == c
                },
            },
    {
        let mut components = WindowsComponents::new(path);
        let component = match components.next() {
            Some(c) => c,
            None => return Err("no component found"),
        };
        if components.next().is_some() {
            return Err("found more than one component");
        }
        Ok(component)
    }

    /// Returns the path made of this component alone
    pub fn as_path<T: Encoding>(&self) -> (res: Path<'a, T>)
        ensures
            res@ == self@.bytes(),
    {
        Path::new(self.as_bytes())
    }
}

impl<'a> WindowsPrefixComponent<'a> {
    /// Parses `bytes` as exactly one prefix, failing if it is not a prefix or holds more
    pub fn try_from(bytes: &'a [u8]) -> (res: Result<Self, ParseError>)
        ensures
            match spec_prefix_component(bytes@) {
                Some((rest, (raw, p))) => if rest.len() == 0 {
                    res matches Ok(r) && r@ == (raw, p)
                } else {
                    res is Err
                },
                None => res is Err,
            },
    {
        let (remaining, prefix) = prefix_component(bytes)?;
        if remaining.len() != 0 {
            return Err("contains more than prefix");
        }
        Ok(prefix)
    }
}

/// Component iterators are equal when what is left of their paths has the same components
impl<'a> PartialEq for WindowsComponents<'a> {
    fn eq(&self, other: &Self) -> (res: bool) {
        let mine: Path<'a, WindowsEncoding> = Path::new(WindowsComponents::as_bytes(self));
        mine.same_components(Path::new(WindowsComponents::as_bytes(other)))
    }
}

impl<'a> Eq for WindowsComponents<'a> {}

impl<'a> vstd::std_specs::cmp::PartialEqSpecImpl for WindowsComponents<'a> {
    open spec fn obeys_eq_spec() -> bool {
        true
    }

    open spec fn eq_spec(&self, other: &Self) -> bool {
        spec_same_components::<WindowsEncoding>(self@.0, other@.0)
    }
}

} // verus!
