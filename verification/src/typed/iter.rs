//! Iterators over the components and the ancestors of typed paths.
use vstd::prelude::*;

use crate::common::components::Span;
use crate::common::encoding::Encoding;
use crate::common::iter::{back_step, front_step, iter_rest, Iter, IterView};
use crate::common::path::{opt_bytes, spec_parent};
use crate::common::utf8_components::{
    opt_text, spec_utf8_parent, utf8_back_step, utf8_front_step, utf8_iter_rest, utf8_spans,
    Utf8Ancestors, Utf8Iter, Utf8IterView,
};
use crate::typed::{reads_as_windows, TypedPath, Utf8TypedPath};
use crate::unix::{UnixEncoding, Utf8UnixEncoding};
use crate::windows::{Utf8WindowsEncoding, WindowsEncoding};

verus! {

/// Components of `bytes` as a Windows path when `windows` holds, and as a Unix path otherwise
pub open spec fn typed_spans(windows: bool, bytes: Seq<u8>) -> Seq<Span> {
    if windows {
        WindowsEncoding::spec_spans(bytes)
    } else {
        UnixEncoding::spec_spans(bytes)
    }
}

/// Parent of `bytes` as a Windows path when `windows` holds, and as a Unix path otherwise
pub open spec fn typed_parent(windows: bool, bytes: Seq<u8>) -> Option<Seq<u8>> {
    if windows {
        spec_parent::<WindowsEncoding>(bytes)
    } else {
        spec_parent::<UnixEncoding>(bytes)
    }
}

/// Components of `path` as a Windows path when `windows` holds, and as a Unix path otherwise
pub open spec fn utf8_typed_spans(windows: bool, path: Seq<char>) -> Seq<Span> {
    if windows {
        utf8_spans::<Utf8WindowsEncoding>(path)
    } else {
        utf8_spans::<Utf8UnixEncoding>(path)
    }
}

/// Parent of `path` as a Windows path when `windows` holds, and as a Unix path otherwise
pub open spec fn utf8_typed_parent(windows: bool, path: Seq<char>) -> Option<Seq<char>> {
    if windows {
        spec_utf8_parent::<Utf8WindowsEncoding>(path)
    } else {
        spec_utf8_parent::<Utf8UnixEncoding>(path)
    }
}

/// An iterator over the components of a [`TypedPath`], as byte slices
pub enum TypedIter<'a> {
    Unix(Iter<'a, UnixEncoding>),
    Windows(Iter<'a, WindowsEncoding>),
}

impl<'a> TypedIter<'a> {
    /// State of the iterator over its path
    pub open spec fn state(self) -> IterView {
        match self {
            TypedIter::Unix(it) => it@,
            TypedIter::Windows(it) => it@,
        }
    }

    /// The bytes of the components not yet yielded, read again as a typed path
    pub fn as_path(&self) -> (res: TypedPath<'a>)
        ensures
            res.bytes() == iter_rest(self.state()),
            res is Windows <==> reads_as_windows(res.bytes()),
    {
        let bytes = match self {
            TypedIter::Unix(it) => it.as_path().as_bytes(),
            TypedIter::Windows(it) => it.as_path().as_bytes(),
        };
        TypedPath::new(bytes)
    }

    /// Yields the next component from the front
    pub fn next(&mut self) -> (res: Option<&'a [u8]>)
        ensures
            (*final(self) is Windows) == (*old(self) is Windows),
            *old(self) is Unix ==> front_step::<UnixEncoding>(
                old(self).state(),
                final(self).state(),
                opt_bytes(res),
            ),
            *old(self) is Windows ==> front_step::<WindowsEncoding>(
                old(self).state(),
                final(self).state(),
                opt_bytes(res),
            ),
    {
        match self {
            TypedIter::Unix(it) => it.next(),
            TypedIter::Windows(it) => it.next(),
        }
    }

    /// Yields the next component from the back
    pub fn next_back(&mut self) -> (res: Option<&'a [u8]>)
        ensures
            (*final(self) is Windows) == (*old(self) is Windows),
            *old(self) is Unix ==> back_step::<UnixEncoding>(
                old(self).state(),
                final(self).state(),
                opt_bytes(res),
            ),
            *old(self) is Windows ==> back_step::<WindowsEncoding>(
                old(self).state(),
                final(self).state(),
                opt_bytes(res),
            ),
    {
        match self {
            TypedIter::Unix(it) => it.next_back(),
            TypedIter::Windows(it) => it.next_back(),
        }
    }
}

/// An iterator over a [`TypedPath`] and its ancestors
pub struct TypedAncestors<'a> {
    next: Option<TypedPath<'a>>,
}

impl<'a> View for TypedAncestors<'a> {
    /// The path to yield next, if any: whether it is a Windows path, and its bytes
    type V = Option<(bool, Seq<u8>)>;

    closed spec fn view(&self) -> Option<(bool, Seq<u8>)> {
        match self.next {
            Some(p) => Some((p is Windows, p.bytes())),
            None => None,
        }
    }
}

impl<'a> TypedAncestors<'a> {
    /// Yields the next ancestor; the one after it is its parent, of the same encoding
    pub fn next(&mut self) -> (res: Option<TypedPath<'a>>)
        ensures
            match old(self)@ {
                Some((w, b)) => (res matches Some(r) && (r is Windows) == w && r.bytes() == b
                    && final(self)@ == match typed_parent(w, b) {
                    Some(q) => Some((w, q)),
                    None => None,
                }),
                None => res is None && final(self)@ is None,
            },
    {
        match self.next.take() {
            Some(p) => {
                self.next = p.parent();
                Some(p)
            },
            None => None,
        }
    }
}

impl<'a> TypedPath<'a> {
    /// Produces an iterator over the path's components, by the rules of its encoding
    pub fn iter(&self) -> (res: TypedIter<'a>)
        ensures
            res is Windows == self is Windows,
            res.state() == (
                self.bytes(),
                typed_spans(self is Windows, self.bytes()),
                0int,
                typed_spans(self is Windows, self.bytes()).len() as int,
            ),
    {
        match self {
            TypedPath::Unix(p) => TypedIter::Unix(p.iter()),
            TypedPath::Windows(p) => TypedIter::Windows(p.iter()),
        }
    }

    /// Returns the path without its final component, in the same encoding, if there is one
    pub fn parent(&self) -> (res: Option<TypedPath<'a>>)
        ensures
            match res {
                Some(q) => (q is Windows) == (self is Windows) && typed_parent(
                    self is Windows,
                    self.bytes(),
                ) == Some(q.bytes()),
                None => typed_parent(self is Windows, self.bytes()) is None,
            },
    {
        match self {
            TypedPath::Unix(p) => match p.parent() {
                Some(q) => Some(TypedPath::Unix(q)),
                None => None,
            },
            TypedPath::Windows(p) => match p.parent() {
                Some(q) => Some(TypedPath::Windows(q)),
                None => None,
            },
        }
    }

    /// Produces an iterator over the path and its ancestors
    pub fn ancestors(&self) -> (res: TypedAncestors<'a>)
        ensures
            res@ == Some((self is Windows, self.bytes())),
    {
        let p = match self {
            TypedPath::Unix(p) => TypedPath::Unix(crate::common::path::Path::new(p.as_bytes())),
            TypedPath::Windows(p) => TypedPath::Windows(
                crate::common::path::Path::new(p.as_bytes()),
            ),
        };
        TypedAncestors { next: Some(p) }
    }
}

/// An iterator over the components of a [`Utf8TypedPath`], as string slices
pub enum Utf8TypedIter<'a> {
    Unix(Utf8Iter<'a, Utf8UnixEncoding>),
    Windows(Utf8Iter<'a, Utf8WindowsEncoding>),
}

impl<'a> Utf8TypedIter<'a> {
    /// State of the iterator over its path
    pub open spec fn state(self) -> Utf8IterView {
        match self {
            Utf8TypedIter::Unix(it) => it@,
            Utf8TypedIter::Windows(it) => it@,
        }
    }

    /// The path made of the components not yet yielded, in the encoding of the iterator
    pub fn to_path(&self) -> (res: Utf8TypedPath<'a>)
        ensures
            res is Windows == self is Windows,
            res.chars() == utf8_iter_rest(self.state()),
    {
        match self {
            Utf8TypedIter::Unix(it) => Utf8TypedPath::Unix(it.as_path()),
            Utf8TypedIter::Windows(it) => Utf8TypedPath::Windows(it.as_path()),
        }
    }

    /// The text of the components not yet yielded
    pub fn as_str(&self) -> (res: &'a str)
        ensures
            res@ == utf8_iter_rest(self.state()),
    {
        self.to_path().as_str()
    }

    /// Yields the next component from the front
    pub fn next(&mut self) -> (res: Option<&'a str>)
        ensures
            (*final(self) is Windows) == (*old(self) is Windows),
            *old(self) is Unix ==> utf8_front_step::<Utf8UnixEncoding>(
                old(self).state(),
                final(self).state(),
                opt_text(res),
            ),
            *old(self) is Windows ==> utf8_front_step::<Utf8WindowsEncoding>(
                old(self).state(),
                final(self).state(),
                opt_text(res),
            ),
    {
        match self {
            Utf8TypedIter::Unix(it) => it.next(),
            Utf8TypedIter::Windows(it) => it.next(),
        }
    }

    /// Yields the next component from the back
    pub fn next_back(&mut self) -> (res: Option<&'a str>)
        ensures
            (*final(self) is Windows) == (*old(self) is Windows),
            *old(self) is Unix ==> utf8_back_step::<Utf8UnixEncoding>(
                old(self).state(),
                final(self).state(),
                opt_text(res),
            ),
            *old(self) is Windows ==> utf8_back_step::<Utf8WindowsEncoding>(
                old(self).state(),
                final(self).state(),
                opt_text(res),
            ),
    {
        match self {
            Utf8TypedIter::Unix(it) => it.next_back(),
            Utf8TypedIter::Windows(it) => it.next_back(),
        }
    }
}

/// An iterator over a [`Utf8TypedPath`] and its ancestors
pub enum Utf8TypedAncestors<'a> {
    Unix(Utf8Ancestors<'a, Utf8UnixEncoding>),
    Windows(Utf8Ancestors<'a, Utf8WindowsEncoding>),
}

impl<'a> Utf8TypedAncestors<'a> {
    /// The path to yield next, if any
    pub open spec fn pending(self) -> Option<Seq<char>> {
        match self {
            Utf8TypedAncestors::Unix(it) => it@,
            Utf8TypedAncestors::Windows(it) => it@,
        }
    }

    /// Yields the next ancestor; the one after it is its parent, of the same encoding
    pub fn next(&mut self) -> (res: Option<Utf8TypedPath<'a>>)
        ensures
            (*final(self) is Windows) == (*old(self) is Windows),
            match old(self).pending() {
                Some(p) => (res matches Some(r) && (r is Windows) == (*old(self) is Windows)
                    && r.chars() == p && final(self).pending() == utf8_typed_parent(
                    *old(self) is Windows,
                    p,
                )),
                None => res is None && final(self).pending() is None,
            },
    {
        match self {
            Utf8TypedAncestors::Unix(it) => match it.next() {
                Some(p) => Some(Utf8TypedPath::Unix(p)),
                None => None,
            },
            Utf8TypedAncestors::Windows(it) => match it.next() {
                Some(p) => Some(Utf8TypedPath::Windows(p)),
                None => None,
            },
        }
    }
}

impl<'a> Utf8TypedPath<'a> {
    /// Produces an iterator over the path's components, by the rules of its encoding
    pub fn iter(&self) -> (res: Utf8TypedIter<'a>)
        ensures
            res is Windows == self is Windows,
            res.state() == (
                self.chars(),
                utf8_typed_spans(self is Windows, self.chars()),
                0int,
                utf8_typed_spans(self is Windows, self.chars()).len() as int,
            ),
    {
        match self {
            Utf8TypedPath::Unix(p) => Utf8TypedIter::Unix(p.iter()),
            Utf8TypedPath::Windows(p) => Utf8TypedIter::Windows(p.iter()),
        }
    }

    /// Returns the path without its final component, in the same encoding, if there is one
    pub fn parent(&self) -> (res: Option<Utf8TypedPath<'a>>)
        ensures
            match res {
                Some(q) => (q is Windows) == (self is Windows) && utf8_typed_parent(
                    self is Windows,
                    self.chars(),
                ) == Some(q.chars()),
                None => utf8_typed_parent(self is Windows, self.chars()) is None,
            },
    {
        match self {
            Utf8TypedPath::Unix(p) => match p.parent() {
                Some(q) => Some(Utf8TypedPath::Unix(q)),
                None => None,
            },
            Utf8TypedPath::Windows(p) => match p.parent() {
                Some(q) => Some(Utf8TypedPath::Windows(q)),
                None => None,
            },
        }
    }

    /// Produces an iterator over the path and its ancestors
    pub fn ancestors(&self) -> (res: Utf8TypedAncestors<'a>)
        ensures
            res is Windows == self is Windows,
            res.pending() == Some(self.chars()),
    {
        match self {
            Utf8TypedPath::Unix(p) => Utf8TypedAncestors::Unix(p.ancestors()),
            Utf8TypedPath::Windows(p) => Utf8TypedAncestors::Windows(p.ancestors()),
        }
    }
}

} // verus!
