//! The Windows encoding of UTF-8 paths.
use vstd::prelude::*;
use vstd::slice::slice_to_vec;
use vstd::utf8::{
    decode_utf8, decode_utf8_encode_utf8, encode_utf8, encode_utf8_decode_utf8,
    encode_utf8_valid_utf8, is_ascii_chars, is_ascii_chars_encode_utf8, valid_utf8,
    valid_utf8_concat,
};

use crate::common::encoding::Encoding;
use crate::common::utf8::{Utf8Encoding, Utf8Path, Utf8PathBuf};
use crate::common::utf8_components::{lemma_ascii_edges_valid, lemma_ascii_valid, spec_with_encoding};
use crate::constants::{WINDOWS_SEPARATOR, WINDOWS_SEPARATOR_BYTE};
use crate::windows::component::WindowsComponentView;
use crate::windows::components::prefix_of;
use crate::windows::encoding::{
    join_views, lemma_windows_comps, prefix_len_of, start_of, verbatim_fold, verbatim_step,
    windows_comps, windows_push, windows_views, WindowsEncoding,
};
use crate::windows::parser::lemma_front_wf;

verus! {

/// Calls [`String::from_utf8`], which succeeds exactly when the bytes are valid UTF-8, and then
/// gives the string whose encoding they are
#[verifier::external_body]
fn string_from_utf8(bytes: Vec<u8>) -> (res: Option<String>)
    ensures
        res is Some <==> valid_utf8(bytes@),
        res matches Some(s) ==> encode_utf8(s@) == bytes@,
{
    String::from_utf8(bytes).ok()
}

/// Represents a Windows-specific [`Utf8Encoding`]
#[derive(Copy, Clone, Debug)]
pub struct Utf8WindowsEncoding;

/// Pushing onto a UTF-8 Windows path: the bytes of both are pushed as Windows paths are; the
/// result is the string those bytes encode when they are valid UTF-8, and the current path
/// unchanged otherwise, which [`lemma_windows_push_valid`] shows never happens
pub open spec fn utf8_windows_push(current: Seq<char>, path: Seq<char>) -> Seq<char> {
    let bytes = windows_push(encode_utf8(current), encode_utf8(path));
    if valid_utf8(bytes) {
        decode_utf8(bytes)
    } else {
        current
    }
}

/// Every component of `cs` stands for valid UTF-8
pub open spec fn all_valid(cs: Seq<WindowsComponentView>) -> bool {
    forall|i: int| 0 <= i < cs.len() ==> valid_utf8(#[trigger] cs[i].bytes())
}

/// The components of a Windows path made of valid UTF-8 stand for valid UTF-8
proof fn lemma_views_valid(path: Seq<u8>)
    requires
        valid_utf8(path),
    ensures
        all_valid(windows_views(path)),
{
    lemma_windows_comps(path);
    let comps = windows_comps(path);
    let vs = windows_views(path);
    lemma_ascii_valid(seq![WINDOWS_SEPARATOR_BYTE]);
    assert forall|i: int| 0 <= i < vs.len() implies valid_utf8(#[trigger] vs[i].bytes()) by {
        assert(vs[i] == comps[i].0);
        if !(comps[i].0 is RootDir) {
            lemma_ascii_edges_valid(path, comps[i].1, comps[i].2);
        }
    }
}

/// Combining components that stand for valid UTF-8 keeps them so
proof fn lemma_fold_valid(buf: Seq<WindowsComponentView>, cs: Seq<WindowsComponentView>)
    requires
        all_valid(buf),
        all_valid(cs),
    ensures
        all_valid(verbatim_fold(buf, cs)),
    decreases cs.len(),
{
    if cs.len() > 0 {
        assert(all_valid(cs.drop_last())) by {
            assert forall|i: int| 0 <= i < cs.drop_last().len() implies valid_utf8(
                #[trigger] cs.drop_last()[i].bytes(),
            ) by {
                assert(cs.drop_last()[i] == cs[i]);
            }
        }
        lemma_fold_valid(buf, cs.drop_last());
        let b = verbatim_fold(buf, cs.drop_last());
        let c = cs.last();
        assert(valid_utf8(c.bytes()));
        let r = verbatim_step(b, c);
        assert forall|i: int| 0 <= i < r.len() implies valid_utf8(#[trigger] r[i].bytes()) by {
            if i < b.len() && (i == 0 || !(c is RootDir) || b.len() <= 1) {
                assert(valid_utf8(b[i].bytes()));
            }
        }
    }
}

/// Joining components that stand for valid UTF-8 gives valid UTF-8
proof fn lemma_join_valid(cs: Seq<WindowsComponentView>)
    requires
        all_valid(cs),
    ensures
        valid_utf8(join_views(cs)),
    decreases cs.len(),
{
    if cs.len() == 0 {
        lemma_ascii_valid(Seq::<u8>::empty());
    } else {
        assert(all_valid(cs.drop_last())) by {
            assert forall|i: int| 0 <= i < cs.drop_last().len() implies valid_utf8(
                #[trigger] cs.drop_last()[i].bytes(),
            ) by {
                assert(cs.drop_last()[i] == cs[i]);
            }
        }
        lemma_join_valid(cs.drop_last());
        lemma_ascii_valid(seq![WINDOWS_SEPARATOR_BYTE]);
        lemma_ascii_valid(Seq::<u8>::empty());
        let sep = if cs.len() > 1 && crate::windows::encoding::sep_after(cs[cs.len() - 2]) && !(
        cs.last() is RootDir) {
            seq![WINDOWS_SEPARATOR_BYTE]
        } else {
            Seq::<u8>::empty()
        };
        assert(valid_utf8(cs[cs.len() - 1].bytes()));
        valid_utf8_concat(join_views(cs.drop_last()), sep);
        valid_utf8_concat(join_views(cs.drop_last()) + sep, cs.last().bytes());
    }
}

/// The prefix of a Windows path made of valid UTF-8 is valid UTF-8
proof fn lemma_prefix_valid(path: Seq<u8>)
    requires
        valid_utf8(path),
    ensures
        0 <= prefix_len_of(path) <= path.len(),
        valid_utf8(path.take(prefix_len_of(path))),
{
    let v = start_of(path);
    lemma_front_wf(v.0, v.1, v.2);
    lemma_windows_comps(path);
    if let Some((raw, _)) = prefix_of(v) {
        let comps = windows_comps(path);
        assert(comps[0].2 == raw.len());
        assert(path.take(raw.len() as int) =~= path.subrange(0, comps[0].2));
        lemma_ascii_edges_valid(path, 0, comps[0].2);
    } else {
        lemma_ascii_valid(path.take(0));
    }
}

/// Pushing a Windows path made of valid UTF-8 onto another gives valid UTF-8
pub proof fn lemma_windows_push_valid(current: Seq<u8>, path: Seq<u8>)
    requires
        valid_utf8(current),
        valid_utf8(path),
    ensures
        valid_utf8(windows_push(current, path)),
{
    lemma_views_valid(current);
    lemma_views_valid(path);
    lemma_fold_valid(windows_views(current), windows_views(path));
    lemma_join_valid(verbatim_fold(windows_views(current), windows_views(path)));
    lemma_prefix_valid(current);
    valid_utf8_concat(current.take(prefix_len_of(current)), path);
    lemma_ascii_valid(seq![WINDOWS_SEPARATOR_BYTE]);
    valid_utf8_concat(current, seq![WINDOWS_SEPARATOR_BYTE]);
    assert(current.push(WINDOWS_SEPARATOR_BYTE) =~= current + seq![WINDOWS_SEPARATOR_BYTE]);
    valid_utf8_concat(current.push(WINDOWS_SEPARATOR_BYTE), path);
    valid_utf8_concat(current, path);
}

/// Pushing onto a UTF-8 Windows path gives the text whose encoding is what pushing the encodings
/// as byte paths gives
pub proof fn law_utf8_windows_push_matches_bytes(current: Seq<char>, path: Seq<char>)
    ensures
        encode_utf8(utf8_windows_push(current, path)) == windows_push(
            encode_utf8(current),
            encode_utf8(path),
        ),
{
    encode_utf8_valid_utf8(current);
    encode_utf8_valid_utf8(path);
    lemma_windows_push_valid(encode_utf8(current), encode_utf8(path));
    decode_utf8_encode_utf8(windows_push(encode_utf8(current), encode_utf8(path)));
}

impl Utf8Encoding for Utf8WindowsEncoding {
    type Bytes = WindowsEncoding;

    open spec fn spec_label() -> Seq<char> {
        seq!['w', 'i', 'n', 'd', 'o', 'w', 's']
    }

    open spec fn spec_root() -> Seq<char> {
        seq![WINDOWS_SEPARATOR]
    }

    proof fn lemma_root_text() {
        let r = seq![WINDOWS_SEPARATOR];
        assert(is_ascii_chars(r));
        is_ascii_chars_encode_utf8(r);
        assert(encode_utf8(r) =~= <Self::Bytes as Encoding>::spec_root_bytes());
    }

    proof fn lemma_push_bytes(current: Seq<char>, path: Seq<char>) {
        law_utf8_windows_push_matches_bytes(current, path);
        assert(Self::spec_push(current, path) == utf8_windows_push(current, path));
        assert(<Self::Bytes as Encoding>::spec_push(encode_utf8(current), encode_utf8(path))
            == windows_push(encode_utf8(current), encode_utf8(path)));
    }

    fn root_str() -> (res: &'static str) {
        let r = "\\";
        proof {
            reveal_strlit("\\");
            assert(is_ascii_chars(r@));
            is_ascii_chars_encode_utf8(r@);
            assert(encode_utf8(r@) =~= WindowsEncoding::spec_root_bytes());
        }
        r
    }

    open spec fn spec_push(current: Seq<char>, path: Seq<char>) -> Seq<char> {
        utf8_windows_push(current, path)
    }

    fn label() -> (res: &'static str) {
        let r = "windows";
        proof {
            reveal_strlit("windows");
        }
        r
    }

    fn push(current_path: &mut String, path: &str) {
        let mut bytes = slice_to_vec(current_path.as_str().as_bytes());
        WindowsEncoding::push(&mut bytes, path.as_bytes());
        match string_from_utf8(bytes) {
            Some(s) => {
                proof {
                    encode_utf8_decode_utf8(s@);
                }
                *current_path = s;
            },
            None => {},
        }
    }
}

impl<'a, T: Utf8Encoding> Utf8Path<'a, T> {
    /// Returns true if the encoding of the path is the Windows one
    pub fn has_windows_encoding(&self) -> (res: bool)
        ensures
            res == (T::spec_label() == Utf8WindowsEncoding::spec_label()),
    {
        self.has_encoding_labelled(Utf8WindowsEncoding::label())
    }

    /// Creates an owned path like `self` but in the Windows encoding; see [`Utf8Path::with_encoding`]
    pub fn with_windows_encoding(&self) -> (res: Utf8PathBuf<Utf8WindowsEncoding>)
        ensures
            res@ == spec_with_encoding::<T, Utf8WindowsEncoding>(self@),
    {
        self.with_encoding::<Utf8WindowsEncoding>()
    }
}

} // verus!
