//! Interface that gives meaning to the bytes of a path.
use vstd::prelude::*;

use crate::common::components::{
    ascii_delimited, end_before_last, span_of, spans_wf, ComponentKind, Span,
};

verus! {

/// Interface to provide meaning to a byte slice such that paths can be derived
pub trait Encoding: Sized {
    /// Components of `path`, with the offsets where each starts and ends
    spec fn spec_spans(path: Seq<u8>) -> Seq<Span>;

    /// `path` has a root
    spec fn spec_has_root(path: Seq<u8>) -> bool;

    /// `path` is absolute, that is independent of the current directory
    spec fn spec_is_absolute(path: Seq<u8>) -> bool;

    /// Result of pushing `path` onto `current`
    spec fn spec_push(current: Seq<u8>, path: Seq<u8>) -> Seq<u8>;

    /// The components lie within the path, in order
    proof fn lemma_spans_wf(path: Seq<u8>)
        ensures
            spans_wf(Self::spec_spans(path), path.len() as int),
    ;

    /// Every component starts and ends at an end of the path or next to an ASCII byte, so that
    /// the components of UTF-8 text are UTF-8 text too
    proof fn lemma_spans_ascii_delimited(path: Seq<u8>)
        ensures
            ascii_delimited(path, Self::spec_spans(path)),
    ;

    /// Bytes that stand for the root directory
    spec fn spec_root_bytes() -> Seq<u8>;

    /// A component of kind `ka` made of the bytes `a` is the same component as one of kind `kb`
    /// made of the bytes `b`
    spec fn spec_same_component(ka: ComponentKind, a: Seq<u8>, kb: ComponentKind, b: Seq<u8>) -> bool;

    /// A component of kind `k` made of the bytes `c` is a root: no component comes before it
    spec fn spec_is_root(k: ComponentKind, c: Seq<u8>) -> bool;

    /// Whether a component of kind `k` made of the bytes `c` is a root
    fn is_root(k: ComponentKind, c: &[u8]) -> (res: bool)
        ensures
            res == Self::spec_is_root(k, c@),
    ;

    /// Every component is the same as itself
    proof fn lemma_same_component_refl(k: ComponentKind, a: Seq<u8>)
        ensures
            Self::spec_same_component(k, a, k, a),
    ;

    /// The bytes `name` may stand as a file or directory name
    spec fn spec_valid_name(name: Seq<u8>) -> bool;

    /// Whether the bytes `name` may stand as a file or directory name
    fn is_valid_name(name: &[u8]) -> (res: bool)
        ensures
            res == Self::spec_valid_name(name@),
    ;

    /// A component is the same as another exactly when the other is the same as it
    proof fn lemma_same_component_sym(ka: ComponentKind, a: Seq<u8>, kb: ComponentKind, b: Seq<u8>)
        ensures
            Self::spec_same_component(ka, a, kb, b) == Self::spec_same_component(kb, b, ka, a),
    ;

    /// Components the same as a third are the same as each other
    proof fn lemma_same_component_trans(
        ka: ComponentKind,
        a: Seq<u8>,
        kb: ComponentKind,
        b: Seq<u8>,
        kc: ComponentKind,
        c: Seq<u8>,
    )
        requires
            Self::spec_same_component(ka, a, kb, b),
            Self::spec_same_component(kb, b, kc, c),
        ensures
            Self::spec_same_component(ka, a, kc, c),
    ;

    /// Whether a component of kind `ka` made of the bytes `a` is the same component as one of
    /// kind `kb` made of the bytes `b`
    fn same_component(ka: ComponentKind, a: &[u8], kb: ComponentKind, b: &[u8]) -> (res: bool)
        ensures
            res == Self::spec_same_component(ka, a@, kb, b@),
    ;

    /// Bytes that stand for the root directory
    fn root_bytes() -> (res: &'static [u8])
        ensures
            res@ == Self::spec_root_bytes(),
    ;

    /// Label of the encoding
    spec fn spec_label() -> Seq<char>;

    /// Static label representing encoding type
    fn label() -> (res: &'static str)
        ensures
            res@ == Self::spec_label(),
    ;

    /// Pushes a byte slice (`path`) onto the an existing path (`current_path`)
    fn push(current_path: &mut Vec<u8>, path: &[u8])
        ensures
            final(current_path)@ == Self::spec_push(old(current_path)@, path@),
    ;

    /// Returns true if `path` has a root
    fn has_root(path: &[u8]) -> (res: bool)
        ensures
            res == Self::spec_has_root(path@),
    ;

    /// Returns true if `path` is absolute
    fn is_absolute(path: &[u8]) -> (res: bool)
        ensures
            res == Self::spec_is_absolute(path@),
    ;

    /// Kinds and offsets of every component of `path`
    fn component_spans(path: &[u8]) -> (res: Vec<(ComponentKind, usize, usize)>)
        ensures
            res@.map_values(|t: (ComponentKind, usize, usize)| span_of(t)) == Self::spec_spans(
                path@,
            ),
    ;

    /// Kind and offsets of the last component of `path`, and the offset where the component before
    /// it ends
    fn last_component(path: &[u8]) -> (res: Option<(ComponentKind, usize, usize, usize)>)
        ensures
            ({
                let spans = Self::spec_spans(path@);
                match res {
                    None => spans.len() == 0,
                    Some((k, a, b, e)) => spans.len() > 0 && spans.last() == (k, a as int, b as int)
                        && e == end_before_last(spans),
                }
            }),
    ;
}

} // verus!
