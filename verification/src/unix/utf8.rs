//! The Unix encoding of UTF-8 paths.
use vstd::prelude::*;

use vstd::utf8::{encode_utf8, is_ascii_chars, is_ascii_chars_encode_utf8};

use crate::common::encoding::Encoding;
use crate::common::utf8::{Utf8Encoding, Utf8Path, Utf8PathBuf};
use crate::common::utf8_components::spec_with_encoding;
use crate::constants::UNIX_SEPARATOR;
use crate::unix::encoding::{unix_push, UnixEncoding};
use crate::unix::laws::law_utf8_push_matches_bytes;

verus! {

/// Represents a Unix-specific [`Utf8Encoding`]
#[derive(Copy, Clone, Debug)]
pub struct Utf8UnixEncoding;

/// Pushing onto a UTF-8 Unix path: a path starting with `/` replaces it, another one is appended
/// with a `/` between them unless the current path is empty or already ends with one, and an
/// empty one changes nothing
pub open spec fn utf8_unix_push(current: Seq<char>, path: Seq<char>) -> Seq<char> {
    if path.len() == 0 {
        current
    } else if path[0] == UNIX_SEPARATOR {
        path
    } else if current.len() > 0 && current.last() != UNIX_SEPARATOR {
        current.push(UNIX_SEPARATOR) + path
    } else {
        current + path
    }
}

impl Utf8Encoding for Utf8UnixEncoding {
    type Bytes = UnixEncoding;

    open spec fn spec_label() -> Seq<char> {
        seq!['u', 'n', 'i', 'x']
    }

    open spec fn spec_root() -> Seq<char> {
        seq![UNIX_SEPARATOR]
    }

    proof fn lemma_root_text() {
        let r = seq![UNIX_SEPARATOR];
        assert(is_ascii_chars(r));
        is_ascii_chars_encode_utf8(r);
        assert(encode_utf8(r) =~= <Self::Bytes as Encoding>::spec_root_bytes());
    }

    proof fn lemma_push_bytes(current: Seq<char>, path: Seq<char>) {
        law_utf8_push_matches_bytes(current, path);
        assert(Self::spec_push(current, path) == utf8_unix_push(current, path));
        assert(<Self::Bytes as Encoding>::spec_push(encode_utf8(current), encode_utf8(path))
            == unix_push(encode_utf8(current), encode_utf8(path)));
    }

    fn root_str() -> (res: &'static str) {
        let r = "/";
        proof {
            reveal_strlit("/");
            assert(is_ascii_chars(r@));
            is_ascii_chars_encode_utf8(r@);
            assert(encode_utf8(r@) =~= UnixEncoding::spec_root_bytes());
        }
        r
    }

    open spec fn spec_push(current: Seq<char>, path: Seq<char>) -> Seq<char> {
        utf8_unix_push(current, path)
    }

    fn label() -> (res: &'static str) {
        let r = "unix";
        proof {
            reveal_strlit("unix");
        }
        r
    }

    fn push(current_path: &mut String, path: &str) {
        let n: usize = path.unicode_len();
        if n == 0 {
            return;
        }
        if path.get_char(0) == UNIX_SEPARATOR {
            *current_path = String::from_str(path);
            return;
        }
        let m: usize = current_path.as_str().unicode_len();
        if m > 0 && current_path.as_str().get_char(m - 1) != UNIX_SEPARATOR {
            let sep = "/";
            proof {
                reveal_strlit("/");
            }
            current_path.append(sep);
        }
        current_path.append(path);
    }
}

impl<'a, T: Utf8Encoding> Utf8Path<'a, T> {
    /// Returns true if the encoding of the path is the Unix one
    pub fn has_unix_encoding(&self) -> (res: bool)
        ensures
            res == (T::spec_label() == Utf8UnixEncoding::spec_label()),
    {
        self.has_encoding_labelled(Utf8UnixEncoding::label())
    }

    /// Creates an owned path like `self` but in the Unix encoding; see [`Utf8Path::with_encoding`]
    pub fn with_unix_encoding(&self) -> (res: Utf8PathBuf<Utf8UnixEncoding>)
        ensures
            res@ == spec_with_encoding::<T, Utf8UnixEncoding>(self@),
    {
        self.with_encoding::<Utf8UnixEncoding>()
    }
}

} // verus!
