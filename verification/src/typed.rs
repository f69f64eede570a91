//! Paths whose encoding, Unix or Windows, is decided by what they hold.
use vstd::prelude::*;
use vstd::string::StringSliceAdditionalSpecFns;

pub mod iter;

pub use iter::{TypedAncestors, TypedIter, Utf8TypedAncestors, Utf8TypedIter};

use crate::common::encoding::Encoding;
use crate::constants::WINDOWS_SEPARATOR_BYTE;
use crate::unix::{UnixEncoding, UnixPath, UnixPathBuf, Utf8UnixPath, Utf8UnixPathBuf};
use crate::windows::components::{prefix_of, WindowsComponents};
use crate::windows::encoding::{start_of, windows_comps};
use crate::windows::parser::{is_exact_verbatim, lemma_front_wf, spec_front, State};
use crate::windows::{
    Utf8WindowsPath, Utf8WindowsPathBuf, WindowsEncoding, WindowsPath, WindowsPathBuf,
};

verus! {

/// Bytes are read as a Windows path when they start with a Windows prefix or with `\`
pub open spec fn reads_as_windows(s: Seq<u8>) -> bool {
    prefix_of(start_of(s)) is Some || (s.len() > 0 && s[0] == WINDOWS_SEPARATOR_BYTE)
}

/// Whether `s` is read as a Windows path
fn bytes_read_as_windows(s: &[u8]) -> (res: bool)
    ensures
        res == reads_as_windows(s@),
{
    WindowsComponents::new(s).has_prefix() || (s.len() > 0 && s[0] == WINDOWS_SEPARATOR_BYTE)
}

/// A borrowed path that is either a Unix or a Windows path
pub enum TypedPath<'a> {
    Unix(UnixPath<'a>),
    Windows(WindowsPath<'a>),
}

impl<'a> TypedPath<'a> {
    /// Bytes of the path
    pub open spec fn bytes(self) -> Seq<u8> {
        match self {
            TypedPath::Unix(p) => p@,
            TypedPath::Windows(p) => p@,
        }
    }

    /// Wraps `s` as a Windows path if it starts with a Windows prefix or `\`, and as a Unix path
    /// otherwise
    pub fn new(s: &'a [u8]) -> (res: Self)
        ensures
            res.bytes() == s@,
            res is Windows <==> reads_as_windows(s@),
    {
        if bytes_read_as_windows(s) {
            TypedPath::Windows(WindowsPath::new(s))
        } else {
            TypedPath::Unix(UnixPath::new(s))
        }
    }

    /// Returns true if this path is a Unix path
    pub fn is_unix(&self) -> (res: bool)
        ensures
            res == self is Unix,
    {
        matches!(self, TypedPath::Unix(_))
    }

    /// Returns true if this path is a Windows path
    pub fn is_windows(&self) -> (res: bool)
        ensures
            res == self is Windows,
    {
        matches!(self, TypedPath::Windows(_))
    }

    /// Yields the underlying bytes
    pub fn as_bytes(&self) -> (res: &'a [u8])
        ensures
            res@ == self.bytes(),
    {
        match self {
            TypedPath::Unix(p) => p.as_bytes(),
            TypedPath::Windows(p) => p.as_bytes(),
        }
    }

    /// Returns true if the path has a root, by the rules of its encoding
    pub fn has_root(&self) -> (res: bool)
        ensures
            res == match self {
                TypedPath::Unix(p) => UnixEncoding::spec_has_root(p@),
                TypedPath::Windows(p) => WindowsEncoding::spec_has_root(p@),
            },
    {
        match self {
            TypedPath::Unix(p) => p.has_root(),
            TypedPath::Windows(p) => p.has_root(),
        }
    }

    /// Returns true if the path is absolute, by the rules of its encoding
    pub fn is_absolute(&self) -> (res: bool)
        ensures
            res == match self {
                TypedPath::Unix(p) => UnixEncoding::spec_is_absolute(p@),
                TypedPath::Windows(p) => WindowsEncoding::spec_is_absolute(p@),
            },
    {
        match self {
            TypedPath::Unix(p) => p.is_absolute(),
            TypedPath::Windows(p) => p.is_absolute(),
        }
    }

    /// Copies the path into an owned [`TypedPathBuf`] of the same encoding
    pub fn to_path_buf(&self) -> (res: TypedPathBuf)
        ensures
            res.bytes() == self.bytes(),
            res is Unix <==> self is Unix,
    {
        match self {
            TypedPath::Unix(p) => TypedPathBuf::Unix(p.to_path_buf()),
            TypedPath::Windows(p) => TypedPathBuf::Windows(p.to_path_buf()),
        }
    }
}

/// An owned path that is either a Unix or a Windows path
pub enum TypedPathBuf {
    Unix(UnixPathBuf),
    Windows(WindowsPathBuf),
}

impl TypedPathBuf {
    /// Bytes of the path
    pub open spec fn bytes(self) -> Seq<u8> {
        match self {
            TypedPathBuf::Unix(p) => p@,
            TypedPathBuf::Windows(p) => p@,
        }
    }

    /// Copies `s` into a Windows path if it starts with a Windows prefix or `\`, and into a Unix
    /// path otherwise
    pub fn from_bytes(s: &[u8]) -> (res: Self)
        ensures
            res.bytes() == s@,
            res is Windows <==> reads_as_windows(s@),
    {
        TypedPath::new(s).to_path_buf()
    }

    /// Returns true if this path is a Unix path
    pub fn is_unix(&self) -> (res: bool)
        ensures
            res == self is Unix,
    {
        matches!(self, TypedPathBuf::Unix(_))
    }

    /// Returns true if this path is a Windows path
    pub fn is_windows(&self) -> (res: bool)
        ensures
            res == self is Windows,
    {
        matches!(self, TypedPathBuf::Windows(_))
    }

    /// Yields the underlying bytes
    pub fn as_bytes(&self) -> (res: &[u8])
        ensures
            res@ == self.bytes(),
    {
        match self {
            TypedPathBuf::Unix(p) => p.as_bytes(),
            TypedPathBuf::Windows(p) => p.as_bytes(),
        }
    }

    /// Coerces to a [`TypedPath`] of the same encoding
    pub fn as_path(&self) -> (res: TypedPath<'_>)
        ensures
            res.bytes() == self.bytes(),
            res is Unix <==> self is Unix,
    {
        match self {
            TypedPathBuf::Unix(p) => TypedPath::Unix(p.as_path()),
            TypedPathBuf::Windows(p) => TypedPath::Windows(p.as_path()),
        }
    }
}

/// A borrowed UTF-8 path that is either a Unix or a Windows path
pub enum Utf8TypedPath<'a> {
    Unix(Utf8UnixPath<'a>),
    Windows(Utf8WindowsPath<'a>),
}

impl<'a> Utf8TypedPath<'a> {
    /// Characters of the path
    pub open spec fn chars(self) -> Seq<char> {
        match self {
            Utf8TypedPath::Unix(p) => p@,
            Utf8TypedPath::Windows(p) => p@,
        }
    }

    /// Wraps `s` as a Windows path if its bytes start with a Windows prefix or `\`, and as a Unix
    /// path otherwise
    pub fn new(s: &'a str) -> (res: Self)
        ensures
            res.chars() == s@,
            res is Windows <==> reads_as_windows(s.spec_bytes()),
    {
        if bytes_read_as_windows(s.as_bytes()) {
            Utf8TypedPath::Windows(Utf8WindowsPath::new(s))
        } else {
            Utf8TypedPath::Unix(Utf8UnixPath::new(s))
        }
    }

    /// Returns true if this path is a Unix path
    pub fn is_unix(&self) -> (res: bool)
        ensures
            res == self is Unix,
    {
        matches!(self, Utf8TypedPath::Unix(_))
    }

    /// Returns true if this path is a Windows path
    pub fn is_windows(&self) -> (res: bool)
        ensures
            res == self is Windows,
    {
        matches!(self, Utf8TypedPath::Windows(_))
    }

    /// Yields the underlying string slice
    pub fn as_str(&self) -> (res: &'a str)
        ensures
            res@ == self.chars(),
    {
        match self {
            Utf8TypedPath::Unix(p) => p.as_str(),
            Utf8TypedPath::Windows(p) => p.as_str(),
        }
    }

    /// Copies the path into an owned [`Utf8TypedPathBuf`] of the same encoding
    pub fn to_path_buf(&self) -> (res: Utf8TypedPathBuf)
        ensures
            res.chars() == self.chars(),
            res is Unix <==> self is Unix,
    {
        match self {
            Utf8TypedPath::Unix(p) => Utf8TypedPathBuf::Unix(p.to_path_buf()),
            Utf8TypedPath::Windows(p) => Utf8TypedPathBuf::Windows(p.to_path_buf()),
        }
    }
}

/// An owned UTF-8 path that is either a Unix or a Windows path
pub enum Utf8TypedPathBuf {
    Unix(Utf8UnixPathBuf),
    Windows(Utf8WindowsPathBuf),
}

impl Utf8TypedPathBuf {
    /// Characters of the path
    pub open spec fn chars(self) -> Seq<char> {
        match self {
            Utf8TypedPathBuf::Unix(p) => p@,
            Utf8TypedPathBuf::Windows(p) => p@,
        }
    }

    /// Copies `s` into a Windows path if its bytes start with a Windows prefix or `\`, and into a
    /// Unix path otherwise
    pub fn from_str(s: &str) -> (res: Self)
        ensures
            res.chars() == s@,
            res is Windows <==> reads_as_windows(s.spec_bytes()),
    {
        Utf8TypedPath::new(s).to_path_buf()
    }

    /// Returns true if this path is a Unix path
    pub fn is_unix(&self) -> (res: bool)
        ensures
            res == self is Unix,
    {
        matches!(self, Utf8TypedPathBuf::Unix(_))
    }

    /// Returns true if this path is a Windows path
    pub fn is_windows(&self) -> (res: bool)
        ensures
            res == self is Windows,
    {
        matches!(self, Utf8TypedPathBuf::Windows(_))
    }

    /// Coerces to a [`Utf8TypedPath`] of the same encoding
    pub fn as_path(&self) -> (res: Utf8TypedPath<'_>)
        ensures
            res.chars() == self.chars(),
            res is Unix <==> self is Unix,
    {
        match self {
            Utf8TypedPathBuf::Unix(p) => Utf8TypedPath::Unix(p.as_path()),
            Utf8TypedPathBuf::Windows(p) => Utf8TypedPath::Windows(p.as_path()),
        }
    }
}

impl TryFrom<Utf8TypedPathBuf> for Utf8UnixPathBuf {
    type Error = Utf8TypedPathBuf;

    /// The Unix path that `path` holds, or `path` back when it is a Windows path
    fn try_from(path: Utf8TypedPathBuf) -> (res: Result<Self, Self::Error>) {
        match path {
            Utf8TypedPathBuf::Unix(p) => Ok(p),
            other => Err(other),
        }
    }
}

impl vstd::std_specs::convert::TryFromSpecImpl<Utf8TypedPathBuf> for Utf8UnixPathBuf {
    open spec fn obeys_try_from_spec() -> bool {
        true
    }

    open spec fn try_from_spec(path: Utf8TypedPathBuf) -> Result<Self, Utf8TypedPathBuf> {
        match path {
            Utf8TypedPathBuf::Unix(p) => Ok(p),
            other => Err(other),
        }
    }
}

impl TryFrom<Utf8TypedPathBuf> for Utf8WindowsPathBuf {
    type Error = Utf8TypedPathBuf;

    /// The Windows path that `path` holds, or `path` back when it is a Unix path
    fn try_from(path: Utf8TypedPathBuf) -> (res: Result<Self, Self::Error>) {
        match path {
            Utf8TypedPathBuf::Windows(p) => Ok(p),
            other => Err(other),
        }
    }
}

impl vstd::std_specs::convert::TryFromSpecImpl<Utf8TypedPathBuf> for Utf8WindowsPathBuf {
    open spec fn obeys_try_from_spec() -> bool {
        true
    }

    open spec fn try_from_spec(path: Utf8TypedPathBuf) -> Result<Self, Utf8TypedPathBuf> {
        match path {
            Utf8TypedPathBuf::Windows(p) => Ok(p),
            other => Err(other),
        }
    }
}


/// Bytes are read as a Windows path exactly when their first component is a Windows prefix or
/// their first byte is `\`; in particular bytes that start with `\` are always a Windows path,
/// with or without a prefix
pub proof fn law_reads_as_windows(s: Seq<u8>)
    ensures
        s.len() > 0 && s[0] == WINDOWS_SEPARATOR_BYTE ==> reads_as_windows(s),
        reads_as_windows(s) <==> ((windows_comps(s).len() > 0 && windows_comps(s)[0].0 is Prefix)
            || (s.len() > 0 && s[0] == WINDOWS_SEPARATOR_BYTE)),
{
    reveal(spec_front);
    let nz = !is_exact_verbatim(s);
    lemma_front_wf(s, State::AtBeginning, nz);
}

} // verus!
