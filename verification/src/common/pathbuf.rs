//! Owned, mutable paths whose bytes are given meaning by an [`Encoding`].
use core::marker::PhantomData;
use std::collections::TryReserveError;
use vstd::prelude::*;
use vstd::slice::slice_subrange;

use crate::common::components::{file_name_span, parent_len, ComponentKind};
use crate::common::encoding::Encoding;
use crate::common::path::{
    lemma_stem_prefix, rsplit_file_at_dot, spec_extension, spec_file_name, spec_parent,
    spec_same_components, spec_stem, Path,
};
use crate::constants::DOT_BYTE;

verus! {

/// Result of popping the last component off `path`: whether there was a parent, and the path
/// left, which is the parent when there is one and `path` unchanged otherwise
pub open spec fn spec_pop<T: Encoding>(path: Seq<u8>) -> (bool, Seq<u8>) {
    match spec_parent::<T>(path) {
        Some(p) => (true, p),
        None => (false, path),
    }
}

/// Result of setting the file name of `path` to `name`: when `path` has a file name, its parent
/// with `name` pushed; otherwise `path` with `name` pushed
pub open spec fn spec_set_file_name<T: Encoding>(path: Seq<u8>, name: Seq<u8>) -> Seq<u8> {
    if spec_file_name::<T>(path) is Some {
        T::spec_push(spec_pop::<T>(path).1, name)
    } else {
        T::spec_push(path, name)
    }
}

/// Result of setting the extension of `path` to `ext`: without a file name nothing changes and
/// the result is `false`; otherwise everything after the file stem is dropped and, unless `ext`
/// is empty, `.` and `ext` are added. A file name that ends in `.` has an empty extension, and
/// setting an empty one keeps the file name as it is
pub open spec fn spec_set_extension<T: Encoding>(path: Seq<u8>, ext: Seq<u8>) -> (bool, Seq<u8>) {
    match file_name_span(T::spec_spans(path)) {
        None => (false, path),
        Some((a, b)) => {
            let name = path.subrange(a, b);
            let stem = spec_stem(name).unwrap();
            let base = path.take(a + stem.len());
            (
                true,
                if ext.len() > 0 {
                    base.push(DOT_BYTE) + ext
                } else if spec_extension(name) == Some(Seq::<u8>::empty()) {
                    path.take(b)
                } else {
                    base
                },
            )
        },
    }
}

/// Calls [`Vec::capacity`]. Its documentation guarantees only that the capacity is at least the
/// length; the exact value depends on the allocator and is left unsaid
#[verifier::external_body]
fn vec_capacity(v: &Vec<u8>) -> (res: usize)
    ensures
        res >= v@.len(),
{
    v.capacity()
}

/// Calls [`Vec::reserve_exact`], which changes the capacity only and panics when the new capacity
/// exceeds `isize::MAX` bytes
#[verifier::external_body]
fn vec_reserve_exact(v: &mut Vec<u8>, additional: usize)
    requires
        old(v)@.len() + additional <= isize::MAX,
    ensures
        final(v)@ == old(v)@,
{
    v.reserve_exact(additional)
}

/// Calls [`Vec::try_reserve_exact`], which changes the capacity only; whether it succeeds depends
/// on the allocator and is left unsaid
#[verifier::external_body]
fn vec_try_reserve_exact(v: &mut Vec<u8>, additional: usize) -> (res: Result<(), TryReserveError>)
    ensures
        final(v)@ == old(v)@,
{
    v.try_reserve_exact(additional)
}

/// Calls [`Vec::shrink_to_fit`], which changes the capacity only
#[verifier::external_body]
fn vec_shrink_to_fit(v: &mut Vec<u8>)
    ensures
        final(v)@ == old(v)@,
{
    v.shrink_to_fit()
}

/// Calls [`Vec::shrink_to`], which changes the capacity only
#[verifier::external_body]
fn vec_shrink_to(v: &mut Vec<u8>, min_capacity: usize)
    ensures
        final(v)@ == old(v)@,
{
    v.shrink_to(min_capacity)
}

/// An owned, mutable path that mirrors [`std::path::PathBuf`], but uses an [`Encoding`] to
/// determine how to parse the underlying bytes
#[derive(Debug)]
pub struct PathBuf<T: Encoding> {
    /// Encoding associated with the path
    _encoding: PhantomData<T>,
    /// Path as an unparsed collection of bytes
    inner: Vec<u8>,
}

impl<T: Encoding> Clone for PathBuf<T> {
    fn clone(&self) -> (res: Self)
        ensures
            res@ == self@,
    {
        PathBuf::from_bytes(self.inner.as_slice())
    }
}

impl<T: Encoding> View for PathBuf<T> {
    type V = Seq<u8>;

    closed spec fn view(&self) -> Seq<u8> {
        self.inner@
    }
}

impl<T: Encoding> From<Vec<u8>> for PathBuf<T> {
    /// The path that holds exactly the bytes of `inner`
    fn from(inner: Vec<u8>) -> (res: Self)
        ensures
            res@ == inner@,
    {
        PathBuf { _encoding: PhantomData, inner }
    }
}

impl<T: Encoding> vstd::std_specs::convert::FromSpecImpl<Vec<u8>> for PathBuf<T> {
    open spec fn obeys_from_spec() -> bool {
        true
    }

    closed spec fn from_spec(v: Vec<u8>) -> Self {
        PathBuf { _encoding: PhantomData, inner: v }
    }
}

/// Paths are equal when they have the same components, so that `a//b` and `a/b` are equal
impl<T: Encoding> PartialEq for PathBuf<T> {
    fn eq(&self, other: &Self) -> (res: bool) {
        self.as_path().same_components(other.as_path())
    }
}

impl<T: Encoding> Eq for PathBuf<T> {}

impl<T: Encoding> vstd::std_specs::cmp::PartialEqSpecImpl for PathBuf<T> {
    open spec fn obeys_eq_spec() -> bool {
        true
    }

    open spec fn eq_spec(&self, other: &Self) -> bool {
        spec_same_components::<T>(self@, other@)
    }
}

impl<T: Encoding> PathBuf<T> {
    /// Allocates an empty path
    pub fn new() -> (res: Self)
        ensures
            res@ == Seq::<u8>::empty(),
    {
        PathBuf { _encoding: PhantomData, inner: Vec::new() }
    }

    /// Creates an empty path with at least the given capacity; the capacity the allocator gives is
    /// not modelled and is left unsaid
    pub fn with_capacity(capacity: usize) -> (res: Self)
        requires
            capacity <= isize::MAX,
        ensures
            res@ == Seq::<u8>::empty(),
    {
        PathBuf { _encoding: PhantomData, inner: Vec::with_capacity(capacity) }
    }

    /// Creates a path holding a copy of `bytes`
    pub fn from_bytes(bytes: &[u8]) -> (res: Self)
        ensures
            res@ == bytes@,
    {
        let mut inner: Vec<u8> = Vec::new();
        inner.extend_from_slice(bytes);
        proof {
            assert(inner@ =~= bytes@);
        }
        PathBuf { _encoding: PhantomData, inner }
    }

    /// Creates a path that owns `inner`
    pub fn from_vec(inner: Vec<u8>) -> (res: Self)
        ensures
            res@ == inner@,
    {
        PathBuf { _encoding: PhantomData, inner }
    }

    /// Coerces to a [`Path`] slice
    pub fn as_path(&self) -> (res: Path<'_, T>)
        ensures
            res@ == self@,
    {
        Path::new(self.inner.as_slice())
    }

    /// Yields the underlying bytes
    pub fn as_bytes(&self) -> (res: &[u8])
        ensures
            res@ == self@,
    {
        self.inner.as_slice()
    }

    /// Extends `self` with `path`; see [`Encoding::push`] for what that means for each encoding
    pub fn push(&mut self, path: Path<'_, T>)
        ensures
            final(self)@ == T::spec_push(old(self)@, path@),
    {
        T::push(&mut self.inner, path.as_bytes());
    }

    /// Truncates `self` to its parent; returns `false` and does nothing if there is no parent
    pub fn pop(&mut self) -> (res: bool)
        ensures
            (res, final(self)@) == spec_pop::<T>(old(self)@),
    {
        let len = match self.as_path().parent() {
            Some(p) => p.as_bytes().len(),
            None => return false,
        };
        proof {
            T::lemma_spans_wf(self.inner@);
            let spans = T::spec_spans(self.inner@);
            if spans.len() >= 2 {
                assert(0 <= spans[spans.len() - 2].2 <= self.inner@.len());
            }
        }
        self.inner.truncate(len);
        proof {
            assert(self.inner@ =~= spec_parent::<T>(old(self)@).unwrap());
        }
        true
    }

    /// Updates the file name to `file_name`: if there is one it is equivalent to popping and then
    /// pushing `file_name`, and otherwise to pushing `file_name`
    pub fn set_file_name(&mut self, file_name: &[u8])
        ensures
            final(self)@ == spec_set_file_name::<T>(old(self)@, file_name@),
    {
        if self.as_path().file_name().is_some() {
            self.pop();
        }
        self.push(Path::new(file_name));
    }

    /// Updates the extension to `extension`; returns `false` and does nothing if there is no file
    /// name, and otherwise returns `true` and adds or replaces the extension (an empty one removes
    /// it)
    pub fn set_extension(&mut self, extension: &[u8]) -> (res: bool)
        ensures
            (res, final(self)@) == spec_set_extension::<T>(old(self)@, extension@),
    {
        let end: usize = match T::last_component(self.inner.as_slice()) {
            Some((ComponentKind::Normal, a, b, _)) => {
                proof {
                    T::lemma_spans_wf(self.inner@);
                    let spans = T::spec_spans(self.inner@);
                    assert(0 <= spans[spans.len() - 1].1 <= spans[spans.len() - 1].2
                        <= self.inner@.len());
                }
                let name = slice_subrange(self.inner.as_slice(), a, b);
                proof {
                    lemma_stem_prefix(name@);
                }
                let (stem_len, empty_ext): (usize, bool) = match rsplit_file_at_dot(name) {
                    (Some(before), Some(after)) => {
                        proof {
                            if after.len() == 0 {
                                assert(after@ =~= Seq::<u8>::empty());
                            }
                        }
                        (before.len(), after.len() == 0)
                    },
                    (Some(before), None) => (before.len(), false),
                    (None, Some(after)) => (after.len(), false),
                    (None, None) => (0, false),
                };
                proof {
                    assert(empty_ext == (spec_extension(name@) == Some(Seq::<u8>::empty())));
                }
                if extension.len() == 0 && empty_ext {
                    b
                } else {
                    a + stem_len
                }
            },
            _ => return false,
        };
        self.inner.truncate(end);
        if extension.len() > 0 {
            self.inner.push(DOT_BYTE);
            let ghost mid = self.inner@;
            self.inner.extend_from_slice(extension);
            proof {
                assert(self.inner@ =~= mid + extension@);
            }
        }
        true
    }

    /// Consumes the path, yielding its bytes
    pub fn into_vec(self) -> (res: Vec<u8>)
        ensures
            res@ == self@,
    {
        self.inner
    }

    /// Capacity of the underlying buffer, which is at least the length of the path
    pub fn capacity(&self) -> (res: usize)
        ensures
            res >= self@.len(),
    {
        vec_capacity(&self.inner)
    }

    /// Empties the path
    pub fn clear(&mut self)
        ensures
            final(self)@ == Seq::<u8>::empty(),
    {
        self.inner.clear()
    }

    /// Reserves capacity for at least `additional` more bytes; the path is unchanged, and the
    /// capacity it leaves, which the allocator decides, is left unsaid
    pub fn reserve(&mut self, additional: usize)
        requires
            old(self)@.len() + additional <= isize::MAX,
        ensures
            final(self)@ == old(self)@,
    {
        self.inner.reserve(additional)
    }

    /// Tries to reserve capacity for at least `additional` more bytes; the path is unchanged whatever
    /// comes back, and whether it succeeds, which the allocator decides, is left unsaid
    pub fn try_reserve(&mut self, additional: usize) -> (res: Result<(), TryReserveError>)
        ensures
            final(self)@ == old(self)@,
    {
        self.inner.try_reserve(additional)
    }

    /// Reserves capacity for exactly `additional` more bytes; the path is unchanged, and the
    /// capacity it leaves, which the allocator decides, is left unsaid
    pub fn reserve_exact(&mut self, additional: usize)
        requires
            old(self)@.len() + additional <= isize::MAX,
        ensures
            final(self)@ == old(self)@,
    {
        vec_reserve_exact(&mut self.inner, additional)
    }

    /// Tries to reserve capacity for exactly `additional` more bytes; the path is unchanged whatever
    /// comes back, and whether it succeeds, which the allocator decides, is left unsaid
    pub fn try_reserve_exact(&mut self, additional: usize) -> (res: Result<(), TryReserveError>)
        ensures
            final(self)@ == old(self)@,
    {
        vec_try_reserve_exact(&mut self.inner, additional)
    }

    /// Shrinks the capacity of the underlying buffer; the path is unchanged, and the capacity it
    /// leaves, which the allocator decides, is left unsaid
    pub fn shrink_to_fit(&mut self)
        ensures
            final(self)@ == old(self)@,
    {
        vec_shrink_to_fit(&mut self.inner)
    }

    /// Shrinks the capacity of the underlying buffer with a lower bound; the path is unchanged, and
    /// the capacity it leaves, which the allocator decides, is left unsaid
    pub fn shrink_to(&mut self, min_capacity: usize)
        ensures
            final(self)@ == old(self)@,
    {
        vec_shrink_to(&mut self.inner, min_capacity)
    }
}

impl<'a, T: Encoding> Path<'a, T> {
    /// Copies the path into an owned [`PathBuf`]
    pub fn to_path_buf(&self) -> (res: PathBuf<T>)
        ensures
            res@ == self@,
    {
        PathBuf::from_bytes(self.as_bytes())
    }

    /// Creates an owned [`PathBuf`] with `path` adjoined to `self`; see [`PathBuf::push`]
    pub fn join(&self, path: Path<'_, T>) -> (res: PathBuf<T>)
        ensures
            res@ == T::spec_push(self@, path@),
    {
        let mut buf = self.to_path_buf();
        buf.push(path);
        buf
    }

    /// Creates an owned [`PathBuf`] like `self` but with the given file name; see
    /// [`PathBuf::set_file_name`]
    pub fn with_file_name(&self, file_name: &[u8]) -> (res: PathBuf<T>)
        ensures
            res@ == spec_set_file_name::<T>(self@, file_name@),
    {
        let mut buf = self.to_path_buf();
        buf.set_file_name(file_name);
        buf
    }

    /// Creates an owned [`PathBuf`] like `self` but with the given extension; see
    /// [`PathBuf::set_extension`]
    pub fn with_extension(&self, extension: &[u8]) -> (res: PathBuf<T>)
        ensures
            res@ == spec_set_extension::<T>(self@, extension@).1,
    {
        let mut buf = self.to_path_buf();
        buf.set_extension(extension);
        buf
    }
}

} // verus!
