//! Pushing only relative paths that stay within the path they are pushed onto.
use vstd::prelude::*;
use vstd::slice::slice_subrange;
use vstd::string::StringSliceAdditionalSpecFns;
use vstd::utf8::encode_utf8;

use crate::common::components::{span_of, spans_wf, ComponentKind, Span};
use crate::common::encoding::Encoding;
use crate::common::path::Path;
use crate::common::pathbuf::PathBuf;
use crate::common::utf8::{Utf8Encoding, Utf8Path, Utf8PathBuf};

verus! {

/// Why a path may not be pushed by the checked operations
#[derive(Copy, Clone, Debug, PartialEq, Eq, Structural)]
pub enum CheckedPathError {
    /// A name holds a byte that the encoding does not allow in names
    InvalidFilename,
    /// A `..` would climb above the path pushed onto
    PathTraversalAttack,
    /// The path starts with a prefix such as `C:`
    UnexpectedPrefix,
    /// The path has a root
    UnexpectedRoot,
}

impl CheckedPathError {
    /// Describes the error
    pub fn to_string(&self) -> (res: String)
        ensures
            res@ == match self {
                CheckedPathError::InvalidFilename => "path contains invalid filename"@,
                CheckedPathError::PathTraversalAttack => "path attempts to escape original path"@,
                CheckedPathError::UnexpectedPrefix => "path contains unexpected prefix"@,
                CheckedPathError::UnexpectedRoot => "path contains unexpected root"@,
            },
    {
        match self {
            CheckedPathError::InvalidFilename => String::from_str("path contains invalid filename"),
            CheckedPathError::PathTraversalAttack => String::from_str(
                "path attempts to escape original path",
            ),
            CheckedPathError::UnexpectedPrefix => String::from_str("path contains unexpected prefix"),
            CheckedPathError::UnexpectedRoot => String::from_str("path contains unexpected root"),
        }
    }
}

/// The first reason not to push `path`, scanning its components `spans` from the one at `i` on,
/// with `depth` names before it that no `..` has taken away yet: a prefix, a root, a `..` with
/// no such name before it, or a name the encoding does not allow
pub open spec fn check_from<T: Encoding>(path: Seq<u8>, spans: Seq<Span>, i: int, depth: int) -> Option<
    CheckedPathError,
>
    decreases spans.len() - i,
{
    if i < 0 || i >= spans.len() {
        None
    } else {
        let (k, a, b) = spans[i];
        match k {
            ComponentKind::Prefix => Some(CheckedPathError::UnexpectedPrefix),
            ComponentKind::RootDir => Some(CheckedPathError::UnexpectedRoot),
            ComponentKind::ParentDir => if depth <= 0 {
                Some(CheckedPathError::PathTraversalAttack)
            } else {
                check_from::<T>(path, spans, i + 1, depth - 1)
            },
            ComponentKind::Normal => if !T::spec_valid_name(path.subrange(a, b)) {
                Some(CheckedPathError::InvalidFilename)
            } else {
                check_from::<T>(path, spans, i + 1, depth + 1)
            },
            ComponentKind::CurDir => check_from::<T>(path, spans, i + 1, depth),
        }
    }
}

/// The reason not to push `path`, if there is one
pub open spec fn spec_check<T: Encoding>(path: Seq<u8>) -> Option<CheckedPathError> {
    check_from::<T>(path, T::spec_spans(path), 0, 0)
}

/// Finds the reason not to push `path`, if there is one
pub fn check_path<T: Encoding>(path: &[u8]) -> (res: Option<CheckedPathError>)
    ensures
        res == spec_check::<T>(path@),
{
    let spans = T::component_spans(path);
    proof {
        T::lemma_spans_wf(path@);
    }
    let ghost all = T::spec_spans(path@);
    let mut depth: usize = 0;
    let mut i: usize = 0;
    while i < spans.len()
        invariant
            spans@.map_values(|t: (ComponentKind, usize, usize)| span_of(t)) == all,
            all == T::spec_spans(path@),
            spans_wf(all, path@.len() as int),
            i <= spans@.len(),
            depth <= i,
            check_from::<T>(path@, all, 0, 0) == check_from::<T>(path@, all, i as int, depth as int),
        decreases spans@.len() - i,
    {
        let (kind, a, b) = spans[i];
        proof {
            assert(all[i as int] == span_of(spans@[i as int]));
            assert(0 <= all[i as int].1 <= all[i as int].2 <= path@.len());
        }
        match kind {
            ComponentKind::Prefix => {
                return Some(CheckedPathError::UnexpectedPrefix);
            },
            ComponentKind::RootDir => {
                return Some(CheckedPathError::UnexpectedRoot);
            },
            ComponentKind::ParentDir => {
                if depth == 0 {
                    return Some(CheckedPathError::PathTraversalAttack);
                }
                depth = depth - 1;
            },
            ComponentKind::Normal => {
                if !T::is_valid_name(slice_subrange(path, a, b)) {
                    return Some(CheckedPathError::InvalidFilename);
                }
                depth = depth + 1;
            },
            ComponentKind::CurDir => {},
        }
        i = i + 1;
    }
    None
}

/// Every name among the components of `path` is one the encoding allows
pub open spec fn spec_is_valid<T: Encoding>(path: Seq<u8>) -> bool {
    let spans = T::spec_spans(path);
    forall|i: int|
        0 <= i < spans.len() && (#[trigger] spans[i]).0 == ComponentKind::Normal
            ==> T::spec_valid_name(path.subrange(spans[i].1, spans[i].2))
}

impl<'a, T: Encoding> Path<'a, T> {
    /// Returns true if every name among the components of the path is one the encoding allows
    pub fn is_valid(&self) -> (res: bool)
        ensures
            res == spec_is_valid::<T>(self@),
    {
        let path = self.as_bytes();
        let spans = T::component_spans(path);
        proof {
            T::lemma_spans_wf(path@);
        }
        let ghost all = T::spec_spans(path@);
        let mut i: usize = 0;
        while i < spans.len()
            invariant
                path@ == self@,
                spans@.map_values(|t: (ComponentKind, usize, usize)| span_of(t)) == all,
                all == T::spec_spans(path@),
                spans_wf(all, path@.len() as int),
                i <= spans@.len(),
                forall|j: int|
                    0 <= j < i && (#[trigger] all[j]).0 == ComponentKind::Normal
                        ==> T::spec_valid_name(path@.subrange(all[j].1, all[j].2)),
            decreases spans@.len() - i,
        {
            let (kind, a, b) = spans[i];
            proof {
                assert(all[i as int] == span_of(spans@[i as int]));
                assert(0 <= all[i as int].1 <= all[i as int].2 <= path@.len());
            }
            match kind {
                ComponentKind::Normal => {
                    if !T::is_valid_name(slice_subrange(path, a, b)) {
                        proof {
                            assert(all[i as int].0 == ComponentKind::Normal);
                            assert(!T::spec_valid_name(path@.subrange(all[i as int].1, all[i as int].2)));
                        }
                        return false;
                    }
                },
                _ => {},
            }
            i = i + 1;
        }
        true
    }
}

impl<'a, T: Utf8Encoding> Utf8Path<'a, T> {
    /// Returns true if every name among the components of the path is one the encoding allows
    pub fn is_valid(&self) -> (res: bool)
        ensures
            res == spec_is_valid::<T::Bytes>(encode_utf8(self@)),
    {
        let bytes: Path<'_, T::Bytes> = Path::new(self.as_str().as_bytes());
        bytes.is_valid()
    }
}

impl<T: Encoding> PathBuf<T> {
    /// Pushes `path` only if it is relative, starts with no prefix, holds only names the
    /// encoding allows, and never climbs with `..` above the path it is pushed onto; otherwise
    /// changes nothing and says why
    pub fn push_checked(&mut self, path: Path<'_, T>) -> (res: Result<(), CheckedPathError>)
        ensures
            match spec_check::<T>(path@) {
                Some(e) => res == Err::<(), CheckedPathError>(e) && final(self)@ == old(self)@,
                None => res is Ok && final(self)@ == T::spec_push(old(self)@, path@),
            },
    {
        match check_path::<T>(path.as_bytes()) {
            Some(e) => Err(e),
            None => {
                self.push(path);
                Ok(())
            },
        }
    }
}

impl<'a, T: Encoding> Path<'a, T> {
    /// Creates an owned path with `path` adjoined to `self`, if [`PathBuf::push_checked`] takes
    /// it
    pub fn join_checked(&self, path: Path<'_, T>) -> (res: Result<PathBuf<T>, CheckedPathError>)
        ensures
            match spec_check::<T>(path@) {
                Some(e) => res matches Err(x) && x == e,
                None => res matches Ok(p) && p@ == T::spec_push(self@, path@),
            },
    {
        let mut buf = self.to_path_buf();
        match buf.push_checked(path) {
            Ok(()) => Ok(buf),
            Err(e) => Err(e),
        }
    }
}

impl<T: Utf8Encoding> Utf8PathBuf<T> {
    /// Pushes `path` only if its encoding passes the checks of
    /// [`PathBuf::push_checked`]; otherwise changes nothing and says why
    pub fn push_checked(&mut self, path: Utf8Path<'_, T>) -> (res: Result<(), CheckedPathError>)
        ensures
            match spec_check::<T::Bytes>(encode_utf8(path@)) {
                Some(e) => res == Err::<(), CheckedPathError>(e) && final(self)@ == old(self)@,
                None => res is Ok && final(self)@ == T::spec_push(old(self)@, path@),
            },
    {
        match check_path::<T::Bytes>(path.as_str().as_bytes()) {
            Some(e) => Err(e),
            None => {
                self.push(path);
                Ok(())
            },
        }
    }
}

impl<'a, T: Utf8Encoding> Utf8Path<'a, T> {
    /// Creates an owned path with `path` adjoined to `self`, if [`Utf8PathBuf::push_checked`]
    /// takes it
    pub fn join_checked(&self, path: Utf8Path<'_, T>) -> (res: Result<
        Utf8PathBuf<T>,
        CheckedPathError,
    >)
        ensures
            match spec_check::<T::Bytes>(encode_utf8(path@)) {
                Some(e) => res matches Err(x) && x == e,
                None => res matches Ok(p) && p@ == T::spec_push(self@, path@),
            },
    {
        let mut buf = self.to_path_buf();
        match buf.push_checked(path) {
            Ok(()) => Ok(buf),
            Err(e) => Err(e),
        }
    }
}

} // verus!
