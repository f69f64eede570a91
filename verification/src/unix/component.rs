//! Components of a Unix path.
use vstd::prelude::*;

use crate::common::ComponentKind;
use crate::constants::{current_dir_bytes, parent_dir_bytes, unix_separator_bytes};
use crate::constants::{DOT_BYTE, UNIX_SEPARATOR_BYTE};

verus! {

/// Byte slice version of [`std::path::Component`] that represents a Unix-specific component
#[derive(Copy, Clone, Debug, Hash, PartialEq, Eq, PartialOrd, Ord)]
pub enum UnixComponent<'a> {
    RootDir,
    CurDir,
    ParentDir,
    Normal(&'a [u8]),
}

/// Mathematical value of a [`UnixComponent`]
pub enum UnixComponentView {
    RootDir,
    CurDir,
    ParentDir,
    Normal(Seq<u8>),
}

impl<'a> View for UnixComponent<'a> {
    type V = UnixComponentView;

    open spec fn view(&self) -> UnixComponentView {
        match self {
            UnixComponent::RootDir => UnixComponentView::RootDir,
            UnixComponent::CurDir => UnixComponentView::CurDir,
            UnixComponent::ParentDir => UnixComponentView::ParentDir,
            UnixComponent::Normal(b) => UnixComponentView::Normal(b@),
        }
    }
}

impl UnixComponentView {
    /// Kind of this component
    pub open spec fn kind(self) -> ComponentKind {
        match self {
            UnixComponentView::RootDir => ComponentKind::RootDir,
            UnixComponentView::CurDir => ComponentKind::CurDir,
            UnixComponentView::ParentDir => ComponentKind::ParentDir,
            UnixComponentView::Normal(_) => ComponentKind::Normal,
        }
    }

    /// Bytes that this component stands for
    pub open spec fn bytes(self) -> Seq<u8> {
        match self {
            UnixComponentView::RootDir => seq![UNIX_SEPARATOR_BYTE],
            UnixComponentView::CurDir => seq![DOT_BYTE],
            UnixComponentView::ParentDir => seq![DOT_BYTE, DOT_BYTE],
            UnixComponentView::Normal(b) => b,
        }
    }
}

impl<'a> UnixComponent<'a> {
    /// Extracts the underlying [`[u8]`] slice
    pub fn as_bytes(&self) -> (res: &'a [u8])
        ensures
            res@ == self@.bytes(),
    {
        match self {
            UnixComponent::RootDir => unix_separator_bytes(),
            UnixComponent::CurDir => current_dir_bytes(),
            UnixComponent::ParentDir => parent_dir_bytes(),
            UnixComponent::Normal(path) => path,
        }
    }

    /// Kind of this component
    pub fn kind(&self) -> (res: ComponentKind)
        ensures
            res == self@.kind(),
    {
        match self {
            UnixComponent::RootDir => ComponentKind::RootDir,
            UnixComponent::CurDir => ComponentKind::CurDir,
            UnixComponent::ParentDir => ComponentKind::ParentDir,
            UnixComponent::Normal(_) => ComponentKind::Normal,
        }
    }

    /// Returns true if is the root dir component
    pub fn is_root(&self) -> (res: bool)
        ensures
            res == (self@ is RootDir),
    {
        matches!(self, UnixComponent::RootDir)
    }

    /// Returns true if is a normal component
    pub fn is_normal(&self) -> (res: bool)
        ensures
            res == (self@ is Normal),
    {
        matches!(self, UnixComponent::Normal(_))
    }

    /// Returns true if is a parent directory component
    pub fn is_parent(&self) -> (res: bool)
        ensures
            res == (self@ is ParentDir),
    {
        matches!(self, UnixComponent::ParentDir)
    }

    /// Returns true if is the current directory component
    pub fn is_current(&self) -> (res: bool)
        ensures
            res == (self@ is CurDir),
    {
        matches!(self, UnixComponent::CurDir)
    }

    /// Size of component in bytes
    pub fn len(&self) -> (res: usize)
        ensures
            res == self@.bytes().len(),
    {
        self.as_bytes().len()
    }

    /// Returns true only when the component is a normal path, but the path is empty
    pub fn is_empty(&self) -> (res: bool)
        ensures
            res == (self@.bytes().len() == 0),
    {
        self.len() == 0
    }

    /// Returns the root directory component
    pub fn root() -> (res: Self)
        ensures
            res@ == UnixComponentView::RootDir,
    {
        UnixComponent::RootDir
    }

    /// Returns the parent directory component
    pub fn parent() -> (res: Self)
        ensures
            res@ == UnixComponentView::ParentDir,
    {
        UnixComponent::ParentDir
    }

    /// Returns the current directory component
    pub fn current() -> (res: Self)
        ensures
            res@ == UnixComponentView::CurDir,
    {
        UnixComponent::CurDir
    }
}

} // verus!
