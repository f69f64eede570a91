//! Conversions that may not apply to every value.
use vstd::prelude::*;

use crate::typed::{TypedPath, Utf8TypedPath};
use crate::unix::{UnixPath, Utf8UnixPath};
use crate::windows::{Utf8WindowsPath, WindowsPath};

verus! {

/// Interface to try to borrow a value as a `T`
pub trait TryAsRef<T> {
    /// `self` as a `T`, if it is one
    spec fn spec_try_as_ref(&self) -> Option<&T>;

    /// Borrows `self` as a `T`, if it is one
    fn try_as_ref(&self) -> (res: Option<&T>)
        ensures
            res == self.spec_try_as_ref(),
    ;
}

impl<'a> TryAsRef<UnixPath<'a>> for TypedPath<'a> {
    /// The Unix path, if this is one
    open spec fn spec_try_as_ref(&self) -> Option<&UnixPath<'a>> {
        match self {
            TypedPath::Unix(p) => Some(p),
            TypedPath::Windows(_) => None,
        }
    }

    fn try_as_ref(&self) -> (res: Option<&UnixPath<'a>>) {
        match self {
            TypedPath::Unix(p) => Some(p),
            TypedPath::Windows(_) => None,
        }
    }
}

impl<'a> TryAsRef<WindowsPath<'a>> for TypedPath<'a> {
    /// The Windows path, if this is one
    open spec fn spec_try_as_ref(&self) -> Option<&WindowsPath<'a>> {
        match self {
            TypedPath::Windows(p) => Some(p),
            TypedPath::Unix(_) => None,
        }
    }

    fn try_as_ref(&self) -> (res: Option<&WindowsPath<'a>>) {
        match self {
            TypedPath::Windows(p) => Some(p),
            TypedPath::Unix(_) => None,
        }
    }
}

impl<'a> TryAsRef<Utf8UnixPath<'a>> for Utf8TypedPath<'a> {
    /// The Unix path, if this is one
    open spec fn spec_try_as_ref(&self) -> Option<&Utf8UnixPath<'a>> {
        match self {
            Utf8TypedPath::Unix(p) => Some(p),
            Utf8TypedPath::Windows(_) => None,
        }
    }

    fn try_as_ref(&self) -> (res: Option<&Utf8UnixPath<'a>>) {
        match self {
            Utf8TypedPath::Unix(p) => Some(p),
            Utf8TypedPath::Windows(_) => None,
        }
    }
}

impl<'a> TryAsRef<Utf8WindowsPath<'a>> for Utf8TypedPath<'a> {
    /// The Windows path, if this is one
    open spec fn spec_try_as_ref(&self) -> Option<&Utf8WindowsPath<'a>> {
        match self {
            Utf8TypedPath::Windows(p) => Some(p),
            Utf8TypedPath::Unix(_) => None,
        }
    }

    fn try_as_ref(&self) -> (res: Option<&Utf8WindowsPath<'a>>) {
        match self {
            Utf8TypedPath::Windows(p) => Some(p),
            Utf8TypedPath::Unix(_) => None,
        }
    }
}

} // verus!
