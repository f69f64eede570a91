//! Components of a Windows path.
use vstd::prelude::*;

use crate::common::ComponentKind;
use crate::constants::{current_dir_bytes, parent_dir_bytes, windows_separator_bytes};
use crate::constants::{DOT_BYTE, WINDOWS_SEPARATOR_BYTE};
use crate::windows::prefix::{WindowsPrefix, WindowsPrefixComponent, WindowsPrefixView};

verus! {

/// Byte slice version of [`std::path::Component`] that represents a Windows-specific component
#[derive(Copy, Clone, Debug, PartialEq, Eq)]
pub enum WindowsComponent<'a> {
    Prefix(WindowsPrefixComponent<'a>),
    RootDir,
    CurDir,
    ParentDir,
    Normal(&'a [u8]),
}

/// Mathematical value of a [`WindowsComponent`]; a prefix is given by its raw bytes and its kind
pub enum WindowsComponentView {
    Prefix(Seq<u8>, WindowsPrefixView),
    RootDir,
    CurDir,
    ParentDir,
    Normal(Seq<u8>),
}

impl<'a> View for WindowsComponent<'a> {
    type V = WindowsComponentView;

    open spec fn view(&self) -> WindowsComponentView {
        match self {
            WindowsComponent::Prefix(p) => WindowsComponentView::Prefix(p@.0, p@.1),
            WindowsComponent::RootDir => WindowsComponentView::RootDir,
            WindowsComponent::CurDir => WindowsComponentView::CurDir,
            WindowsComponent::ParentDir => WindowsComponentView::ParentDir,
            WindowsComponent::Normal(b) => WindowsComponentView::Normal(b@),
        }
    }
}

impl WindowsComponentView {
    /// Kind of this component
    pub open spec fn kind(self) -> ComponentKind {
        match self {
            WindowsComponentView::Prefix(..) => ComponentKind::Prefix,
            WindowsComponentView::RootDir => ComponentKind::RootDir,
            WindowsComponentView::CurDir => ComponentKind::CurDir,
            WindowsComponentView::ParentDir => ComponentKind::ParentDir,
            WindowsComponentView::Normal(_) => ComponentKind::Normal,
        }
    }

    /// Bytes that this component stands for
    pub open spec fn bytes(self) -> Seq<u8> {
        match self {
            WindowsComponentView::Prefix(raw, _) => raw,
            WindowsComponentView::RootDir => seq![WINDOWS_SEPARATOR_BYTE],
            WindowsComponentView::CurDir => seq![DOT_BYTE],
            WindowsComponentView::ParentDir => seq![DOT_BYTE, DOT_BYTE],
            WindowsComponentView::Normal(b) => b,
        }
    }

    /// The component is the root separator, or a prefix other than a drive
    pub open spec fn is_root(self) -> bool {
        match self {
            WindowsComponentView::RootDir => true,
            WindowsComponentView::Prefix(_, p) => !(p is Disk),
            _ => false,
        }
    }
}

impl<'a> WindowsComponent<'a> {
    /// Extracts the underlying [`[u8]`] slice
    pub fn as_bytes(&self) -> (res: &'a [u8])
        ensures
            res@ == self@.bytes(),
    {
        match self {
            WindowsComponent::Prefix(p) => p.as_bytes(),
            WindowsComponent::RootDir => windows_separator_bytes(),
            WindowsComponent::CurDir => current_dir_bytes(),
            WindowsComponent::ParentDir => parent_dir_bytes(),
            WindowsComponent::Normal(path) => path,
        }
    }

    /// Kind of this component
    pub fn kind(&self) -> (res: ComponentKind)
        ensures
            res == self@.kind(),
    {
        match self {
            WindowsComponent::Prefix(_) => ComponentKind::Prefix,
            WindowsComponent::RootDir => ComponentKind::RootDir,
            WindowsComponent::CurDir => ComponentKind::CurDir,
            WindowsComponent::ParentDir => ComponentKind::ParentDir,
            WindowsComponent::Normal(_) => ComponentKind::Normal,
        }
    }

    /// Returns true if represents a prefix
    pub fn is_prefix(&self) -> (res: bool)
        ensures
            res == (self@ is Prefix),
    {
        matches!(self, WindowsComponent::Prefix(_))
    }

    /// Converts from `WindowsComponent` to [`Option<WindowsPrefixComponent>`], discarding if not a
    /// prefix
    pub fn prefix(self) -> (res: Option<WindowsPrefixComponent<'a>>)
        ensures
            match self@ {
                WindowsComponentView::Prefix(raw, kind) => (res matches Some(p) && p@ == (
                    raw,
                    kind,
                )),
                _ => res is None,
            },
    {
        match self {
            WindowsComponent::Prefix(p) => Some(p),
            _ => None,
        }
    }

    /// Converts from `WindowsComponent` to [`Option<WindowsPrefix>`], discarding if not a prefix
    pub fn prefix_kind(self) -> (res: Option<WindowsPrefix<'a>>)
        ensures
            match self@ {
                WindowsComponentView::Prefix(_, kind) => (res matches Some(p) && p@ == kind),
                _ => res is None,
            },
    {
        match self.prefix() {
            Some(p) => Some(p.kind()),
            None => None,
        }
    }

    /// Root is either the root separator, e.g. `\windows`, or a non-disk prefix, e.g.
    /// `\\server\share`
    pub fn is_root(&self) -> (res: bool)
        ensures
            res == self@.is_root(),
    {
        match self {
            WindowsComponent::RootDir => true,
            WindowsComponent::Prefix(prefix) => !matches!(prefix.kind(), WindowsPrefix::Disk(_)),
            _ => false,
        }
    }

    /// Returns true if component is normal
    pub fn is_normal(&self) -> (res: bool)
        ensures
            res == (self@ is Normal),
    {
        matches!(self, WindowsComponent::Normal(_))
    }

    /// Returns true if is a parent directory component
    pub fn is_parent(&self) -> (res: bool)
        ensures
            res == (self@ is ParentDir),
    {
        matches!(self, WindowsComponent::ParentDir)
    }

    /// Returns true if is the current directory component
    pub fn is_current(&self) -> (res: bool)
        ensures
            res == (self@ is CurDir),
    {
        matches!(self, WindowsComponent::CurDir)
    }

    /// Size of component in bytes
    pub fn len(&self) -> (res: usize)
        ensures
            res == self@.bytes().len(),
    {
        self.as_bytes().len()
    }

    /// Returns the root directory component
    pub fn root() -> (res: Self)
        ensures
            res@ == WindowsComponentView::RootDir,
    {
        WindowsComponent::RootDir
    }

    /// Returns the parent directory component
    pub fn parent() -> (res: Self)
        ensures
            res@ == WindowsComponentView::ParentDir,
    {
        WindowsComponent::ParentDir
    }

    /// Returns the current directory component
    pub fn current() -> (res: Self)
        ensures
            res@ == WindowsComponentView::CurDir,
    {
        WindowsComponent::CurDir
    }
}

/// Bytes that are not allowed in Windows file or directory names
pub open spec fn is_disallowed_filename_byte(b: u8) -> bool {
    b == 92 || b == 47 || b == 58 || b == 63 || b == 42 || b == 34 || b == 62 || b == 60 || b
        == 124 || b == 0
}

/// Whether `b` is not allowed in Windows file or directory names
fn disallowed_filename_byte(b: u8) -> (res: bool)
    ensures
        res == is_disallowed_filename_byte(b),
{
    b == 92 || b == 47 || b == 58 || b == 63 || b == 42 || b == 34 || b == 62 || b == 60 || b
        == 124 || b == 0
}

/// Whether no byte of `bytes` is disallowed in names
pub fn all_allowed(bytes: &[u8]) -> (res: bool)
    ensures
        res == (forall|i: int| 0 <= i < bytes@.len() ==> !is_disallowed_filename_byte(#[trigger] bytes@[i])),
{
    let mut i: usize = 0;
    while i < bytes.len()
        invariant
            i <= bytes@.len(),
            forall|j: int| 0 <= j < i ==> !is_disallowed_filename_byte(#[trigger] bytes@[j]),
        decreases bytes@.len() - i,
    {
        if disallowed_filename_byte(bytes[i]) {
            proof {
                assert(is_disallowed_filename_byte(bytes@[i as int]));
            }
            return false;
        }
        i = i + 1;
    }
    true
}

impl<'a> WindowsComponent<'a> {
    /// Returns true if the component is valid: every component is but a name holding a byte that
    /// Windows does not allow in names (`\`, `/`, `:`, `?`, `*`, `"`, `>`, `<`, `|` or NUL)
    pub fn is_valid(&self) -> (res: bool)
        ensures
            res == match self@ {
                WindowsComponentView::Normal(b) => forall|i: int|
                    0 <= i < b.len() ==> !is_disallowed_filename_byte(#[trigger] b[i]),
                _ => true,
            },
    {
        match *self {
            WindowsComponent::Normal(bytes) => {
                let r = all_allowed(bytes);
                proof {
                    assert(self@ == WindowsComponentView::Normal(bytes@));
                    assert(self@->Normal_0 == bytes@);
                }
                r
            },
            _ => true,
        }
    }
}

} // verus!
