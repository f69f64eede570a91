//! Prefixes of Windows paths, such as `C:` or `\\server\share`.
use vstd::prelude::*;

verus! {

/// Byte slice version of [`std::path::Prefix`]
#[derive(Copy, Clone, Debug, Hash, PartialOrd, Ord, PartialEq, Eq)]
pub enum WindowsPrefix<'a> {
    /// `\\?\prefix`
    Verbatim(&'a [u8]),
    /// `\\?\UNC\server\share`
    VerbatimUNC(&'a [u8], &'a [u8]),
    /// `\\?\C:`
    VerbatimDisk(u8),
    /// `\\.\device`
    DeviceNS(&'a [u8]),
    /// `\\server\share`
    UNC(&'a [u8], &'a [u8]),
    /// `C:`
    Disk(u8),
}

/// Mathematical value of a [`WindowsPrefix`]
pub enum WindowsPrefixView {
    Verbatim(Seq<u8>),
    VerbatimUNC(Seq<u8>, Seq<u8>),
    VerbatimDisk(u8),
    DeviceNS(Seq<u8>),
    UNC(Seq<u8>, Seq<u8>),
    Disk(u8),
}

impl<'a> View for WindowsPrefix<'a> {
    type V = WindowsPrefixView;

    open spec fn view(&self) -> WindowsPrefixView {
        match self {
            WindowsPrefix::Verbatim(x) => WindowsPrefixView::Verbatim(x@),
            WindowsPrefix::VerbatimUNC(x, y) => WindowsPrefixView::VerbatimUNC(x@, y@),
            WindowsPrefix::VerbatimDisk(d) => WindowsPrefixView::VerbatimDisk(*d),
            WindowsPrefix::DeviceNS(x) => WindowsPrefixView::DeviceNS(x@),
            WindowsPrefix::UNC(x, y) => WindowsPrefixView::UNC(x@, y@),
            WindowsPrefix::Disk(d) => WindowsPrefixView::Disk(*d),
        }
    }
}

impl WindowsPrefixView {
    /// Full byte length of the prefix when written with single separators
    pub open spec fn len(self) -> nat {
        match self {
            WindowsPrefixView::Verbatim(x) => 4 + x.len(),
            WindowsPrefixView::VerbatimUNC(x, y) => 8 + x.len() + if y.len() > 0 {
                1 + y.len()
            } else {
                0
            },
            WindowsPrefixView::VerbatimDisk(_) => 6,
            WindowsPrefixView::DeviceNS(x) => 4 + x.len(),
            WindowsPrefixView::UNC(x, y) => 2 + x.len() + if y.len() > 0 {
                1 + y.len()
            } else {
                0
            },
            WindowsPrefixView::Disk(_) => 2,
        }
    }

    /// The prefix is verbatim, i.e., begins with `\\?\`
    pub open spec fn is_verbatim(self) -> bool {
        self is Verbatim || self is VerbatimUNC || self is VerbatimDisk
    }

    /// The prefix is a drive, `C:`
    pub open spec fn is_drive(self) -> bool {
        self is Disk
    }
}

impl<'a> WindowsPrefix<'a> {
    /// Calculates the full byte length of the prefix
    pub fn len(&self) -> (res: usize)
        requires
            self@.len() <= usize::MAX,
        ensures
            res == self@.len(),
    {
        match *self {
            WindowsPrefix::Verbatim(x) => 4 + x.len(),
            WindowsPrefix::VerbatimUNC(x, y) => 8 + x.len() + if y.len() > 0 {
                1 + y.len()
            } else {
                0
            },
            WindowsPrefix::VerbatimDisk(_) => 6,
            WindowsPrefix::UNC(x, y) => 2 + x.len() + if y.len() > 0 {
                1 + y.len()
            } else {
                0
            },
            WindowsPrefix::DeviceNS(x) => 4 + x.len(),
            WindowsPrefix::Disk(_) => 2,
        }
    }

    /// Determines if the prefix is verbatim, i.e., begins with `\\?\`.
    pub fn is_verbatim(&self) -> (res: bool)
        ensures
            res == self@.is_verbatim(),
    {
        matches!(
            *self,
            WindowsPrefix::Verbatim(_) | WindowsPrefix::VerbatimDisk(_) | WindowsPrefix::VerbatimUNC(
                ..,
            )
        )
    }

    /// Determines if the prefix is a drive, `C:`
    pub fn is_drive(&self) -> (res: bool)
        ensures
            res == self@.is_drive(),
    {
        matches!(*self, WindowsPrefix::Disk(_))
    }

    /// Whether `self` and `other` are the same prefix
    pub fn same_as(&self, other: &WindowsPrefix) -> (res: bool)
        ensures
            res == (self@ == other@),
    {
        match (*self, *other) {
            (WindowsPrefix::Verbatim(x), WindowsPrefix::Verbatim(y)) => bytes_eq(x, y),
            (WindowsPrefix::VerbatimUNC(x1, x2), WindowsPrefix::VerbatimUNC(y1, y2)) => bytes_eq(x1, y1)
                && bytes_eq(x2, y2),
            (WindowsPrefix::VerbatimDisk(x), WindowsPrefix::VerbatimDisk(y)) => x == y,
            (WindowsPrefix::DeviceNS(x), WindowsPrefix::DeviceNS(y)) => bytes_eq(x, y),
            (WindowsPrefix::UNC(x1, x2), WindowsPrefix::UNC(y1, y2)) => bytes_eq(x1, y1) && bytes_eq(x2, y2),
            (WindowsPrefix::Disk(x), WindowsPrefix::Disk(y)) => x == y,
            _ => false,
        }
    }

    /// Every prefix but a drive provides a root of its own
    pub fn has_implicit_root(&self) -> (res: bool)
        ensures
            res == !self@.is_drive(),
    {
        !self.is_drive()
    }
}

/// The two byte slices hold the same bytes
pub fn bytes_eq(a: &[u8], b: &[u8]) -> (res: bool)
    ensures
        res == (a@ == b@),
{
    if a.len() != b.len() {
        return false;
    }
    let mut i: usize = 0;
    while i < a.len()
        invariant
            i <= a@.len(),
            a@.len() == b@.len(),
            forall|j: int| 0 <= j < i ==> a@[j] == b@[j],
        decreases a@.len() - i,
    {
        if a[i] != b[i] {
            return false;
        }
        i = i + 1;
    }
    proof {
        assert(a@ =~= b@);
    }
    true
}

/// Byte slice version of [`std::path::PrefixComponent`]
#[derive(Copy, Clone, Debug, Eq)]
pub struct WindowsPrefixComponent<'a> {
    /// The prefix as an unparsed `[u8]` slice
    pub(crate) raw: &'a [u8],
    /// The parsed prefix data
    pub(crate) parsed: WindowsPrefix<'a>,
}

impl<'a> View for WindowsPrefixComponent<'a> {
    type V = (Seq<u8>, WindowsPrefixView);

    closed spec fn view(&self) -> (Seq<u8>, WindowsPrefixView) {
        (self.raw@, self.parsed@)
    }
}

impl<'a> WindowsPrefixComponent<'a> {
    /// Prefix component made of the bytes `raw` that parse as `parsed`
    pub(crate) fn new(raw: &'a [u8], parsed: WindowsPrefix<'a>) -> (res: Self)
        ensures
            res@ == (raw@, parsed@),
    {
        WindowsPrefixComponent { raw, parsed }
    }

    /// Returns the parsed prefix data
    pub fn kind(&self) -> (res: WindowsPrefix<'a>)
        ensures
            res@ == self@.1,
    {
        self.parsed
    }

    /// Returns the raw [`[u8]`] slice for this prefix
    pub fn as_bytes(&self) -> (res: &'a [u8])
        ensures
            res@ == self@.0,
    {
        self.raw
    }
}

/// Prefix components are equal when their parsed prefixes are, whatever bytes they came from
impl<'a> PartialEq for WindowsPrefixComponent<'a> {
    fn eq(&self, other: &Self) -> (res: bool) {
        self.parsed.same_as(&other.parsed)
    }
}

impl<'a> vstd::std_specs::cmp::PartialEqSpecImpl for WindowsPrefixComponent<'a> {
    open spec fn obeys_eq_spec() -> bool {
        true
    }

    open spec fn eq_spec(&self, other: &Self) -> bool {
        self@.1 == other@.1
    }
}

} // verus!
