//! Converting a path from one encoding to another.
use vstd::prelude::*;
use vstd::slice::slice_subrange;

use crate::common::components::{span_of, spans_wf, ComponentKind, Span};
use crate::common::encoding::Encoding;
use crate::common::iter::span_bytes;
use crate::common::normalize::push_all;
use crate::common::path::Path;
use crate::common::pathbuf::PathBuf;
use crate::common::utf8::str_eq;

verus! {

/// What a component of a path in the encoding `T` becomes in the encoding `U`: a root becomes the
/// root separator of `U`, and any other component keeps its bytes, as `.` and `..` are the same
/// in every encoding
pub open spec fn converted_bytes<T: Encoding, U: Encoding>(path: Seq<u8>, s: Span) -> (
    ComponentKind,
    Seq<u8>,
) {
    if T::spec_is_root(s.0, path.subrange(s.1, s.2)) {
        (s.0, U::spec_root_bytes())
    } else {
        (s.0, span_bytes::<T>(path, s))
    }
}

/// A path of the encoding `T` converted to the encoding `U`: unchanged when they are the same
/// encoding, and otherwise its components, converted, pushed in turn onto an empty path
pub open spec fn spec_path_with_encoding<T: Encoding, U: Encoding>(path: Seq<u8>) -> Seq<u8> {
    if T::spec_label() == U::spec_label() {
        path
    } else {
        push_all::<U>(
            Seq::empty(),
            T::spec_spans(path).map_values(|s: Span| converted_bytes::<T, U>(path, s)),
        )
    }
}

impl<'a, T: Encoding> Path<'a, T> {
    /// Creates an owned path like `self` but in the encoding `U`: a copy when `U` is the
    /// encoding of `self`, and otherwise the components of `self` pushed in turn onto an empty
    /// path of `U`, with each root replaced by the root separator of `U`
    pub fn with_encoding<U: Encoding>(&self) -> (res: PathBuf<U>)
        ensures
            res@ == spec_path_with_encoding::<T, U>(self@),
    {
        let path = self.as_bytes();
        if str_eq(T::label(), U::label()) {
            return PathBuf::from_bytes(path);
        }
        let spans = T::component_spans(path);
        proof {
            T::lemma_spans_wf(path@);
        }
        let ghost all = T::spec_spans(path@).map_values(
            |s: Span| converted_bytes::<T, U>(path@, s),
        );
        let mut buf: PathBuf<U> = PathBuf::new();
        let mut i: usize = 0;
        while i < spans.len()
            invariant
                spans@.map_values(|t: (ComponentKind, usize, usize)| span_of(t)) == T::spec_spans(path@),
                spans_wf(T::spec_spans(path@), path@.len() as int),
                all == T::spec_spans(path@).map_values(|s: Span| converted_bytes::<T, U>(path@, s)),
                all.len() == spans@.len(),
                i <= spans@.len(),
                buf@ == push_all::<U>(Seq::empty(), all.take(i as int)),
            decreases spans@.len() - i,
        {
            let (kind, a, b) = spans[i];
            proof {
                let m = spans@.map_values(|t: (ComponentKind, usize, usize)| span_of(t));
                assert(m[i as int] == span_of(spans@[i as int]));
                assert(0 <= m[i as int].1 <= m[i as int].2 <= path@.len());
                assert(all.take(i + 1).drop_last() =~= all.take(i as int));
                assert(all.take(i + 1).last() == all[i as int]);
            }
            let bytes = slice_subrange(path, a, b);
            if T::is_root(kind, bytes) {
                buf.push(Path::new(U::root_bytes()));
            } else {
                match kind {
                    ComponentKind::RootDir => buf.push(Path::new(T::root_bytes())),
                    _ => buf.push(Path::new(bytes)),
                }
            }
            i = i + 1;
        }
        proof {
            assert(all.take(i as int) =~= all);
        }
        buf
    }
}

/// Converting a path to its own encoding keeps it as it is
pub proof fn law_same_encoding_keeps_path<T: Encoding>(path: Seq<u8>)
    ensures
        spec_path_with_encoding::<T, T>(path) == path,
{
}

} // verus!
