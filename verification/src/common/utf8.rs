//! UTF-8 paths: strings whose characters are given meaning by a [`Utf8Encoding`].
use core::marker::PhantomData;
use vstd::prelude::*;
use vstd::utf8::{encode_utf8, encode_utf8_decode_utf8};

use crate::common::encoding::Encoding;
use crate::windows::prefix::bytes_eq;

verus! {

/// Interface to provide meaning to a UTF-8 string such that paths can be derived
pub trait Utf8Encoding: Sized {
    /// The encoding that gives meaning to the UTF-8 bytes of a path
    type Bytes: Encoding;

    /// Label of the encoding
    spec fn spec_label() -> Seq<char>;

    /// The separator that stands for the root directory
    spec fn spec_root() -> Seq<char>;

    /// The root separator is the text whose UTF-8 encoding is the byte encoding's
    proof fn lemma_root_text()
        ensures
            encode_utf8(Self::spec_root()) == <Self::Bytes as Encoding>::spec_root_bytes(),
    ;

    /// The separator that stands for the root directory, which is the text of the byte encoding's
    fn root_str() -> (res: &'static str)
        ensures
            res@ == Self::spec_root(),
            encode_utf8(res@) == <Self::Bytes as Encoding>::spec_root_bytes(),
    ;

    /// Result of pushing `path` onto `current`, character by character
    spec fn spec_push(current: Seq<char>, path: Seq<char>) -> Seq<char>;

    /// Static label representing encoding type
    fn label() -> (res: &'static str)
        ensures
            res@ == Self::spec_label(),
    ;

    /// Pushing text gives the text whose UTF-8 encoding is what pushing the encodings as byte
    /// paths gives
    proof fn lemma_push_bytes(current: Seq<char>, path: Seq<char>)
        ensures
            encode_utf8(Self::spec_push(current, path)) == <Self::Bytes as Encoding>::spec_push(
                encode_utf8(current),
                encode_utf8(path),
            ),
    ;

    /// Pushes a string (`path`) onto an existing path (`current_path`)
    fn push(current_path: &mut String, path: &str)
        ensures
            final(current_path)@ == Self::spec_push(old(current_path)@, path@),
    ;
}

/// Whether two strings hold the same characters
pub fn str_eq(a: &str, b: &str) -> (res: bool)
    ensures
        res == (a@ == b@),
{
    let r = bytes_eq(a.as_bytes(), b.as_bytes());
    proof {
        encode_utf8_decode_utf8(a@);
        encode_utf8_decode_utf8(b@);
    }
    r
}

/// A borrowed UTF-8 path: a string slice whose meaning is given by the encoding `T`
#[derive(Copy, Debug)]
pub struct Utf8Path<'a, T: Utf8Encoding> {
    _encoding: PhantomData<T>,
    inner: &'a str,
}

impl<'a, T: Utf8Encoding> Clone for Utf8Path<'a, T> {
    fn clone(&self) -> (res: Self)
        ensures
            res@ == self@,
    {
        Utf8Path { _encoding: PhantomData, inner: self.inner }
    }
}

impl<'a, T: Utf8Encoding> View for Utf8Path<'a, T> {
    type V = Seq<char>;

    closed spec fn view(&self) -> Seq<char> {
        self.inner@
    }
}

impl<'a, T: Utf8Encoding> Utf8Path<'a, T> {
    /// Directly wraps a string slice as a path; this is a cost-free conversion
    pub fn new(inner: &'a str) -> (res: Self)
        ensures
            res@ == inner@,
    {
        Utf8Path { _encoding: PhantomData, inner }
    }

    /// Yields the underlying string slice
    pub fn as_str(&self) -> (res: &'a str)
        ensures
            res@ == self@,
    {
        self.inner
    }

    /// Copies the path into an owned [`Utf8PathBuf`]
    pub fn to_path_buf(&self) -> (res: Utf8PathBuf<T>)
        ensures
            res@ == self@,
    {
        Utf8PathBuf { _encoding: PhantomData, inner: String::from_str(self.inner) }
    }

    /// Creates an owned [`Utf8PathBuf`] with `path` adjoined to `self`
    pub fn join(&self, path: Utf8Path<'_, T>) -> (res: Utf8PathBuf<T>)
        ensures
            res@ == T::spec_push(self@, path@),
    {
        let mut buf = self.to_path_buf();
        buf.push(path);
        buf
    }

    /// Returns true if the encoding of the path is the encoding labelled `label`
    pub fn has_encoding_labelled(&self, label: &str) -> (res: bool)
        ensures
            res == (T::spec_label() == label@),
    {
        str_eq(T::label(), label)
    }
}

/// An owned, mutable UTF-8 path whose meaning is given by the encoding `T`
#[derive(Debug)]
pub struct Utf8PathBuf<T: Utf8Encoding> {
    _encoding: PhantomData<T>,
    inner: String,
}

impl<T: Utf8Encoding> Clone for Utf8PathBuf<T> {
    fn clone(&self) -> (res: Self)
        ensures
            res@ == self@,
    {
        Utf8PathBuf { _encoding: PhantomData, inner: String::from_str(self.inner.as_str()) }
    }
}

impl<T: Utf8Encoding> View for Utf8PathBuf<T> {
    type V = Seq<char>;

    closed spec fn view(&self) -> Seq<char> {
        self.inner@
    }
}

impl<T: Utf8Encoding> Utf8PathBuf<T> {
    /// Allocates an empty path
    pub fn new() -> (res: Self)
        ensures
            res@ == Seq::<char>::empty(),
    {
        Utf8PathBuf { _encoding: PhantomData, inner: String::new() }
    }

    /// Creates a path holding a copy of `s`
    pub fn from_str(s: &str) -> (res: Self)
        ensures
            res@ == s@,
    {
        Utf8PathBuf { _encoding: PhantomData, inner: String::from_str(s) }
    }

    /// Creates a path that owns `inner`
    pub fn from_string(inner: String) -> (res: Self)
        ensures
            res@ == inner@,
    {
        Utf8PathBuf { _encoding: PhantomData, inner }
    }

    /// Coerces to a [`Utf8Path`] slice
    pub fn as_path(&self) -> (res: Utf8Path<'_, T>)
        ensures
            res@ == self@,
    {
        Utf8Path::new(self.inner.as_str())
    }

    /// Yields the underlying string slice
    pub fn as_str(&self) -> (res: &str)
        ensures
            res@ == self@,
    {
        self.inner.as_str()
    }

    /// Extends `self` with `path`; see [`Utf8Encoding::push`]
    pub fn push(&mut self, path: Utf8Path<'_, T>)
        ensures
            final(self)@ == T::spec_push(old(self)@, path@),
    {
        T::push(&mut self.inner, path.as_str());
    }

    /// Empties the path
    pub fn clear(&mut self)
        ensures
            final(self)@ == Seq::<char>::empty(),
    {
        self.inner = String::new();
    }

    /// Consumes the path, yielding its string
    pub fn into_string(self) -> (res: String)
        ensures
            res@ == self@,
    {
        self.inner
    }
}

} // verus!
