//! Components of UTF-8 paths: the components that the byte encoding finds in the UTF-8 encoding of
//! a path, each of which is UTF-8 text of its own.
use core::marker::PhantomData;
use vstd::prelude::*;
use vstd::string::StringSliceAdditionalSpecFns;
use vstd::utf8::*;

use crate::common::components::{
    ascii_delimited, ascii_edge, end_before_last, file_name_span, parent_len, span_of, spans_wf,
    ComponentKind, Span,
};
use crate::common::encoding::Encoding;
use crate::common::iter::span_bytes;
use crate::common::path::{spec_same_components, Path};
use crate::common::normalize::{keep_step, kept, parts, push_all, spec_normalize};
use crate::common::reencode::{converted_bytes, spec_path_with_encoding};
use crate::common::utf8_component::{opt_component, opt_component_text, utf8_component_view, Utf8PathComponent};
use crate::common::utf8::{str_eq, Utf8Encoding, Utf8Path, Utf8PathBuf};
use vstd::slice::slice_subrange;

verus! {

/// In valid UTF-8, the offset right after an ASCII byte is a character boundary
proof fn lemma_after_ascii_boundary(bytes: Seq<u8>, i: int)
    requires
        valid_utf8(bytes),
        0 < i <= bytes.len(),
        bytes[i - 1] < 128,
    ensures
        is_char_boundary(bytes, i),
    decreases bytes.len(),
{
    if i == bytes.len() {
        is_char_boundary_start_end_of_seq(bytes);
    } else {
        let l = length_of_first_scalar(bytes);
        let tail = pop_first_scalar(bytes);
        if i == 1 {
            assert(l == 1);
            assert(is_char_boundary(tail, 0));
        } else {
            is_char_boundary_iff_not_is_continuation_byte(bytes, i - 1);
            assert(i - 1 >= l);
            assert(tail[i - l - 1] == bytes[i - 1]);
            lemma_after_ascii_boundary(tail, i - l);
        }
    }
}

/// In valid UTF-8, an ASCII edge is a character boundary
pub proof fn lemma_ascii_edge_boundary(bytes: Seq<u8>, i: int)
    requires
        valid_utf8(bytes),
        0 <= i <= bytes.len(),
        ascii_edge(bytes, i),
    ensures
        is_char_boundary(bytes, i),
{
    if i == 0 || i == bytes.len() {
        is_char_boundary_start_end_of_seq(bytes);
    } else if bytes[i] < 128 {
        is_char_boundary_iff_not_is_continuation_byte(bytes, i);
    } else {
        lemma_after_ascii_boundary(bytes, i);
    }
}

/// A character boundary before a boundary `b` is one of the bytes before `b` too
proof fn lemma_boundary_in_prefix(bytes: Seq<u8>, b: int, a: int)
    requires
        valid_utf8(bytes),
        0 <= a <= b <= bytes.len(),
        is_char_boundary(bytes, a),
        is_char_boundary(bytes, b),
    ensures
        valid_utf8(bytes.subrange(0, b)),
        is_char_boundary(bytes.subrange(0, b), a),
{
    valid_utf8_split(bytes, b);
    let head = bytes.subrange(0, b);
    if a == 0 || a == b {
        is_char_boundary_start_end_of_seq(head);
    } else {
        is_char_boundary_iff_not_is_continuation_byte(bytes, a);
        is_char_boundary_iff_not_is_continuation_byte(head, a);
    }
}

/// The bytes of valid UTF-8 between two ASCII edges are valid UTF-8
pub proof fn lemma_ascii_edges_valid(bytes: Seq<u8>, a: int, b: int)
    requires
        valid_utf8(bytes),
        0 <= a <= b <= bytes.len(),
        ascii_edge(bytes, a),
        ascii_edge(bytes, b),
    ensures
        valid_utf8(bytes.subrange(a, b)),
{
    lemma_ascii_edge_boundary(bytes, a);
    lemma_ascii_edge_boundary(bytes, b);
    lemma_boundary_in_prefix(bytes, b, a);
    let head = bytes.subrange(0, b);
    valid_utf8_split(head, a);
    assert(head.subrange(a, head.len() as int) =~= bytes.subrange(a, b));
}

/// ASCII bytes are valid UTF-8
pub proof fn lemma_ascii_valid(bytes: Seq<u8>)
    requires
        forall|i: int| 0 <= i < bytes.len() ==> bytes[i] < 128,
    ensures
        valid_utf8(bytes),
{
    let chars = Seq::new(bytes.len(), |i: int| bytes[i] as char);
    assert(is_ascii_chars(chars));
    is_ascii_chars_encode_utf8(chars);
    assert(encode_utf8(chars) =~= bytes);
    encode_utf8_valid_utf8(chars);
}

/// The text of `s` from its byte `a` to its byte `b`, both ASCII edges of its encoding
pub fn substring<'a>(s: &'a str, a: usize, b: usize) -> (res: &'a str)
    requires
        a <= b <= encode_utf8(s@).len(),
        ascii_edge(encode_utf8(s@), a as int),
        ascii_edge(encode_utf8(s@), b as int),
    ensures
        encode_utf8(res@) == encode_utf8(s@).subrange(a as int, b as int),
        res@ == decode_utf8(encode_utf8(s@).subrange(a as int, b as int)),
{
    let ghost bytes = encode_utf8(s@);
    proof {
        encode_utf8_valid_utf8(s@);
        lemma_ascii_edge_boundary(bytes, a as int);
        lemma_ascii_edge_boundary(bytes, b as int);
        lemma_boundary_in_prefix(bytes, b as int, a as int);
    }
    let (head, _) = s.split_at(b);
    let (_, mid) = head.split_at(a);
    proof {
        assert(mid.spec_bytes() =~= bytes.subrange(a as int, b as int));
        encode_utf8_decode_utf8(mid@);
    }
    mid
}

/// Components of a UTF-8 path: those that the byte encoding finds in its UTF-8 encoding
pub open spec fn utf8_spans<T: Utf8Encoding>(path: Seq<char>) -> Seq<Span> {
    <T::Bytes as Encoding>::spec_spans(encode_utf8(path))
}

/// Text of the component `span` of `path`: the encoding's root separator for the root directory,
/// and otherwise the text that the component's bytes encode
pub open spec fn span_text<T: Utf8Encoding>(path: Seq<char>, span: Span) -> Seq<char> {
    if span.0 == ComponentKind::RootDir {
        T::spec_root()
    } else {
        decode_utf8(encode_utf8(path).subrange(span.1, span.2))
    }
}

/// The text of the first `n` bytes of the encoding of `path`
pub open spec fn text_before(path: Seq<char>, n: int) -> Seq<char> {
    decode_utf8(encode_utf8(path).take(n))
}

/// The parent of a UTF-8 path: the path without its last component, which must be a name, `.`
/// or `..`
pub open spec fn spec_utf8_parent<T: Utf8Encoding>(path: Seq<char>) -> Option<Seq<char>> {
    match parent_len(utf8_spans::<T>(path)) {
        Some(n) => Some(text_before(path, n)),
        None => None,
    }
}

/// The file name of a UTF-8 path, if its last component is a name
pub open spec fn spec_utf8_file_name<T: Utf8Encoding>(path: Seq<char>) -> Option<Seq<char>> {
    match file_name_span(utf8_spans::<T>(path)) {
        Some((a, b)) => Some(decode_utf8(encode_utf8(path).subrange(a, b))),
        None => None,
    }
}

/// The components of a UTF-8 path lie within its encoding, in order, and start and end at ASCII
/// edges of it
pub proof fn lemma_utf8_spans<T: Utf8Encoding>(path: Seq<char>)
    ensures
        spans_wf(utf8_spans::<T>(path), encode_utf8(path).len() as int),
        ascii_delimited(encode_utf8(path), utf8_spans::<T>(path)),
{
    <T::Bytes as Encoding>::lemma_spans_wf(encode_utf8(path));
    <T::Bytes as Encoding>::lemma_spans_ascii_delimited(encode_utf8(path));
}

/// A UTF-8 path has the components of its UTF-8 encoding: each component's text is UTF-8 text
/// whose encoding is the bytes of the same component of the encoded path
pub proof fn law_utf8_components_match_bytes<T: Utf8Encoding>(path: Seq<char>)
    ensures
        forall|i: int|
            0 <= i < utf8_spans::<T>(path).len() ==> encode_utf8(
                #[trigger] span_text::<T>(path, utf8_spans::<T>(path)[i]),
            ) == span_bytes::<T::Bytes>(encode_utf8(path), utf8_spans::<T>(path)[i]),
{
    let bytes = encode_utf8(path);
    let spans = utf8_spans::<T>(path);
    lemma_utf8_spans::<T>(path);
    T::lemma_root_text();
    encode_utf8_valid_utf8(path);
    assert forall|i: int| 0 <= i < spans.len() implies encode_utf8(
        #[trigger] span_text::<T>(path, spans[i]),
    ) == span_bytes::<T::Bytes>(bytes, spans[i]) by {
        if spans[i].0 != ComponentKind::RootDir {
            let (a, b) = (spans[i].1, spans[i].2);
            lemma_ascii_edge_boundary(bytes, a);
            lemma_ascii_edge_boundary(bytes, b);
            lemma_boundary_in_prefix(bytes, b, a);
            let head = bytes.subrange(0, b);
            valid_utf8_split(head, a);
            assert(head.subrange(a, head.len() as int) =~= bytes.subrange(a, b));
            decode_utf8_encode_utf8(bytes.subrange(a, b));
        }
    }
}

/// Kinds and byte offsets of every component of `path`
fn text_spans<T: Utf8Encoding>(path: &str) -> (res: Vec<(ComponentKind, usize, usize)>)
    ensures
        res@.map_values(|t: (ComponentKind, usize, usize)| span_of(t)) == utf8_spans::<T>(path@),
{
    <T::Bytes as Encoding>::component_spans(path.as_bytes())
}

/// Text of the component of kind `kind` between the bytes `a` and `b` of `path`
fn span_str<'a, T: Utf8Encoding>(path: &'a str, kind: ComponentKind, a: usize, b: usize) -> (res:
    &'a str)
    requires
        a <= b <= encode_utf8(path@).len(),
        ascii_edge(encode_utf8(path@), a as int),
        ascii_edge(encode_utf8(path@), b as int),
    ensures
        res@ == span_text::<T>(path@, (kind, a as int, b as int)),
{
    match kind {
        ComponentKind::RootDir => T::root_str(),
        _ => substring(path, a, b),
    }
}

/// Mathematical value of a [`Utf8Iter`]: the path, its components, and the bounds of the
/// components not yet yielded
pub type Utf8IterView = (Seq<char>, Seq<Span>, int, int);

/// The path made of the components not yet yielded: the whole path when none was, and otherwise
/// the text from the start of the first remaining component to the end of the last
pub open spec fn utf8_iter_rest(v: Utf8IterView) -> Seq<char> {
    if v.2 == 0 && v.3 == v.1.len() {
        v.0
    } else if v.2 < v.3 {
        decode_utf8(encode_utf8(v.0).subrange(v.1[v.2].1, v.1[v.3 - 1].2))
    } else {
        Seq::<char>::empty()
    }
}

/// The text of an optional string slice
pub open spec fn opt_text(o: Option<&str>) -> Option<Seq<char>> {
    match o {
        Some(x) => Some(x@),
        None => None,
    }
}

/// Yielding `res` from the front takes the iterator from `o` to `f`: the next component when
/// one is left, and nothing otherwise
pub open spec fn utf8_front_step<T: Utf8Encoding>(
    o: Utf8IterView,
    f: Utf8IterView,
    res: Option<Seq<char>>,
) -> bool {
    &&& f.0 == o.0 && f.1 == o.1 && f.3 == o.3
    &&& o.2 < o.3 ==> res == Some(span_text::<T>(o.0, o.1[o.2])) && f.2 == o.2 + 1
    &&& o.2 >= o.3 ==> res is None && f == o
}

/// Yielding `res` from the back takes the iterator from `o` to `f`: the last component when
/// one is left, and nothing otherwise
pub open spec fn utf8_back_step<T: Utf8Encoding>(
    o: Utf8IterView,
    f: Utf8IterView,
    res: Option<Seq<char>>,
) -> bool {
    &&& f.0 == o.0 && f.1 == o.1 && f.2 == o.2
    &&& o.2 < o.3 ==> res == Some(span_text::<T>(o.0, o.1[o.3 - 1])) && f.3 == o.3 - 1
    &&& o.2 >= o.3 ==> res is None && f == o
}

/// UTF-8 paths are equal when they have the same components
impl<'a, T: Utf8Encoding> PartialEq for Utf8Path<'a, T> {
    fn eq(&self, other: &Self) -> (res: bool) {
        self.same_components(Utf8Path::new(other.as_str()))
    }
}

impl<'a, T: Utf8Encoding> Eq for Utf8Path<'a, T> {}

impl<'a, T: Utf8Encoding> vstd::std_specs::cmp::PartialEqSpecImpl for Utf8Path<'a, T> {
    open spec fn obeys_eq_spec() -> bool {
        true
    }

    open spec fn eq_spec(&self, other: &Self) -> bool {
        spec_same_components::<T::Bytes>(encode_utf8(self@), encode_utf8(other@))
    }
}

/// UTF-8 paths are equal when they have the same components
impl<T: Utf8Encoding> PartialEq for Utf8PathBuf<T> {
    fn eq(&self, other: &Self) -> (res: bool) {
        self.as_path().same_components(other.as_path())
    }
}

impl<T: Utf8Encoding> Eq for Utf8PathBuf<T> {}

impl<T: Utf8Encoding> vstd::std_specs::cmp::PartialEqSpecImpl for Utf8PathBuf<T> {
    open spec fn obeys_eq_spec() -> bool {
        true
    }

    open spec fn eq_spec(&self, other: &Self) -> bool {
        spec_same_components::<T::Bytes>(encode_utf8(self@), encode_utf8(other@))
    }
}

/// Iterator over the components of a [`Utf8Path`], as string slices
pub struct Utf8Iter<'a, T: Utf8Encoding> {
    _encoding: PhantomData<T>,
    path: &'a str,
    spans: Vec<(ComponentKind, usize, usize)>,
    front: usize,
    back: usize,
}

impl<'a, T: Utf8Encoding> View for Utf8Iter<'a, T> {
    type V = Utf8IterView;

    closed spec fn view(&self) -> Utf8IterView {
        (
            self.path@,
            self.spans@.map_values(|t: (ComponentKind, usize, usize)| span_of(t)),
            self.front as int,
            self.back as int,
        )
    }
}

impl<'a, T: Utf8Encoding> Utf8Iter<'a, T> {
    #[verifier::type_invariant]
    spec fn wf(self) -> bool {
        &&& self.front <= self.back <= self.spans@.len()
        &&& self.spans@.map_values(|t: (ComponentKind, usize, usize)| span_of(t)) == utf8_spans::<T>(
            self.path@,
        )
        &&& spans_wf(utf8_spans::<T>(self.path@), encode_utf8(self.path@).len() as int)
        &&& ascii_delimited(encode_utf8(self.path@), utf8_spans::<T>(self.path@))
    }

    /// Iterates over the components of `path`
    pub fn new(path: Utf8Path<'a, T>) -> (res: Self)
        ensures
            res@ == (path@, utf8_spans::<T>(path@), 0int, utf8_spans::<T>(path@).len() as int),
    {
        let text = path.as_str();
        let spans = text_spans::<T>(text);
        proof {
            lemma_utf8_spans::<T>(text@);
        }
        let back = spans.len();
        Utf8Iter { _encoding: PhantomData, path: text, spans, front: 0, back }
    }

    /// Text of the component at `i`
    fn item(&self, i: usize) -> (res: &'a str)
        requires
            i < self@.1.len(),
        ensures
            res@ == span_text::<T>(self@.0, self@.1[i as int]),
    {
        proof {
            use_type_invariant(self);
            let m = self@.1;
            assert(m[i as int] == span_of(self.spans@[i as int]));
            assert(0 <= m[i as int].1 <= m[i as int].2 <= encode_utf8(self@.0).len());
            assert(ascii_edge(encode_utf8(self@.0), m[i as int].1));
        }
        let (kind, a, b) = self.spans[i];
        span_str::<T>(self.path, kind, a, b)
    }

    /// The component at `i`, with its kind and whether it is a root
    fn component_at(&self, i: usize) -> (res: Utf8PathComponent<'a, T>)
        requires
            i < self@.1.len(),
        ensures
            res@ == utf8_component_view::<T>(self@.0, self@.1[i as int]),
    {
        proof {
            use_type_invariant(self);
            let m = self@.1;
            assert(m[i as int] == span_of(self.spans@[i as int]));
            assert(0 <= m[i as int].1 <= m[i as int].2 <= encode_utf8(self@.0).len());
            assert(ascii_edge(encode_utf8(self@.0), m[i as int].1));
        }
        let (kind, a, b) = self.spans[i];
        let root = <T::Bytes as Encoding>::is_root(kind, slice_subrange(self.path.as_bytes(), a, b));
        Utf8PathComponent::new(kind, span_str::<T>(self.path, kind, a, b), root)
    }

    /// Yields the next component from the front, with its kind
    pub fn next_component(&mut self) -> (res: Option<Utf8PathComponent<'a, T>>)
        ensures
            utf8_front_step::<T>(old(self)@, final(self)@, opt_component_text(res)),
            old(self)@.2 < old(self)@.3 ==> opt_component(res) == Some(
                utf8_component_view::<T>(old(self)@.0, old(self)@.1[old(self)@.2]),
            ),
    {
        proof {
            use_type_invariant(&*self);
        }
        if self.front < self.back {
            let r = self.component_at(self.front);
            self.front = self.front + 1;
            Some(r)
        } else {
            None
        }
    }

    /// Yields the next component from the back, with its kind
    pub fn next_back_component(&mut self) -> (res: Option<Utf8PathComponent<'a, T>>)
        ensures
            utf8_back_step::<T>(old(self)@, final(self)@, opt_component_text(res)),
            old(self)@.2 < old(self)@.3 ==> opt_component(res) == Some(
                utf8_component_view::<T>(old(self)@.0, old(self)@.1[old(self)@.3 - 1]),
            ),
    {
        proof {
            use_type_invariant(&*self);
        }
        if self.front < self.back {
            let r = self.component_at(self.back - 1);
            self.back = self.back - 1;
            Some(r)
        } else {
            None
        }
    }

    /// The path made of the components not yet yielded: the whole path when none was, and
    /// otherwise the text from the start of the first remaining component to the end of the last
    pub fn as_path(&self) -> (res: Utf8Path<'a, T>)
        ensures
            res@ == utf8_iter_rest(self@),
    {
        proof {
            use_type_invariant(self);
        }
        if self.front == 0 && self.back == self.spans.len() {
            return Utf8Path::new(self.path);
        }
        if self.front < self.back {
            let (_, a, _) = self.spans[self.front];
            let (_, _, b) = self.spans[self.back - 1];
            proof {
                let m = self@.1;
                assert(m[self.front as int] == span_of(self.spans@[self.front as int]));
                assert(m[self.back - 1] == span_of(self.spans@[self.back - 1]));
                assert(0 <= m[self.front as int].1 <= m[self.front as int].2);
                assert(m[self.back - 1].2 <= encode_utf8(self@.0).len());
                assert(ascii_edge(encode_utf8(self@.0), m[self.front as int].1));
                assert(ascii_edge(encode_utf8(self@.0), m[self.back - 1].2));
                if self.front < self.back - 1 {
                    assert(m[self.front as int].2 <= m[self.back - 1].1);
                }
            }
            Utf8Path::new(substring(self.path, a, b))
        } else {
            let e = "";
            proof {
                reveal_strlit("");
            }
            Utf8Path::new(e)
        }
    }

    /// Yields the next component from the front
    pub fn next(&mut self) -> (res: Option<&'a str>)
        ensures
            utf8_front_step::<T>(old(self)@, final(self)@, opt_text(res)),
    {
        proof {
            use_type_invariant(&*self);
        }
        if self.front < self.back {
            let r = self.item(self.front);
            self.front = self.front + 1;
            Some(r)
        } else {
            None
        }
    }

    /// Yields the next component from the back
    pub fn next_back(&mut self) -> (res: Option<&'a str>)
        ensures
            utf8_back_step::<T>(old(self)@, final(self)@, opt_text(res)),
    {
        proof {
            use_type_invariant(&*self);
        }
        if self.front < self.back {
            let r = self.item(self.back - 1);
            self.back = self.back - 1;
            Some(r)
        } else {
            None
        }
    }
}

/// Iterator over a [`Utf8Path`] and its ancestors: the path, its parent, the parent's parent,
/// and so on until a path without a parent
pub struct Utf8Ancestors<'a, T: Utf8Encoding> {
    next: Option<Utf8Path<'a, T>>,
}

impl<'a, T: Utf8Encoding> View for Utf8Ancestors<'a, T> {
    /// The path to yield next, if any
    type V = Option<Seq<char>>;

    closed spec fn view(&self) -> Option<Seq<char>> {
        match self.next {
            Some(p) => Some(p@),
            None => None,
        }
    }
}

impl<'a, T: Utf8Encoding> Utf8Ancestors<'a, T> {
    /// Iterates over `path` and its ancestors
    pub fn new(path: Utf8Path<'a, T>) -> (res: Self)
        ensures
            res@ == Some(path@),
    {
        Utf8Ancestors { next: Some(path) }
    }

    /// Yields the next ancestor; the one after it is its parent
    pub fn next(&mut self) -> (res: Option<Utf8Path<'a, T>>)
        ensures
            match old(self)@ {
                Some(p) => (res matches Some(r) && r@ == p && final(self)@ == spec_utf8_parent::<T>(
                    p,
                )),
                None => res is None && final(self)@ is None,
            },
    {
        match self.next.take() {
            Some(p) => {
                self.next = p.parent();
                Some(p)
            },
            None => None,
        }
    }
}

impl<'a, T: Utf8Encoding> Utf8Path<'a, T> {
    /// Produces an iterator over the path's components viewed as string slices
    pub fn iter(&self) -> (res: Utf8Iter<'a, T>)
        ensures
            res@ == (self@, utf8_spans::<T>(self@), 0int, utf8_spans::<T>(self@).len() as int),
    {
        Utf8Iter::new(Utf8Path::new(self.as_str()))
    }

    /// Produces an iterator over the path and its ancestors
    pub fn ancestors(&self) -> (res: Utf8Ancestors<'a, T>)
        ensures
            res@ == Some(self@),
    {
        Utf8Ancestors::new(Utf8Path::new(self.as_str()))
    }

    /// Returns the path without its final component, if there is one; returns `None` if the path
    /// terminates in a root or prefix, or is empty
    pub fn parent(&self) -> (res: Option<Utf8Path<'a, T>>)
        ensures
            match res {
                Some(p) => spec_utf8_parent::<T>(self@) == Some(p@),
                None => spec_utf8_parent::<T>(self@) is None,
            },
    {
        let text = self.as_str();
        match <T::Bytes as Encoding>::last_component(text.as_bytes()) {
            None => None,
            Some((kind, _, _, e)) => {
                proof {
                    lemma_utf8_spans::<T>(text@);
                    let spans = utf8_spans::<T>(text@);
                    if spans.len() >= 2 {
                        assert(0 <= spans[spans.len() - 2].2 <= encode_utf8(text@).len());
                        assert(ascii_edge(encode_utf8(text@), spans[spans.len() - 2].2));
                    }
                    assert(encode_utf8(text@).subrange(0, e as int) =~= encode_utf8(text@).take(
                        e as int,
                    ));
                }
                match kind {
                    ComponentKind::Normal | ComponentKind::CurDir | ComponentKind::ParentDir => {
                        Some(Utf8Path::new(substring(text, 0, e)))
                    },
                    _ => None,
                }
            },
        }
    }

    /// Returns the final component of the path if it is a file or directory name; returns `None`
    /// if the path terminates in `..`, a root or a prefix
    pub fn file_name(&self) -> (res: Option<&'a str>)
        ensures
            match res {
                Some(name) => spec_utf8_file_name::<T>(self@) == Some(name@),
                None => spec_utf8_file_name::<T>(self@) is None,
            },
    {
        let text = self.as_str();
        match <T::Bytes as Encoding>::last_component(text.as_bytes()) {
            Some((ComponentKind::Normal, a, b, _)) => {
                proof {
                    lemma_utf8_spans::<T>(text@);
                    let spans = utf8_spans::<T>(text@);
                    assert(0 <= spans[spans.len() - 1].1 <= spans[spans.len() - 1].2 <= encode_utf8(
                        text@,
                    ).len());
                    assert(ascii_edge(encode_utf8(text@), spans[spans.len() - 1].1));
                }
                Some(substring(text, a, b))
            },
            _ => None,
        }
    }
}

/// The components of a UTF-8 path, each by its kind and its text
pub open spec fn utf8_parts<T: Utf8Encoding>(path: Seq<char>) -> Seq<(ComponentKind, Seq<char>)> {
    utf8_spans::<T>(path).map_values(|s: Span| (s.0, span_text::<T>(path, s)))
}

/// The UTF-8 path reached by pushing the text of each of `cs`, in turn, onto `buf`
pub open spec fn utf8_push_all<T: Utf8Encoding>(
    buf: Seq<char>,
    cs: Seq<(ComponentKind, Seq<char>)>,
) -> Seq<char>
    decreases cs.len(),
{
    if cs.len() == 0 {
        buf
    } else {
        T::spec_push(utf8_push_all::<T>(buf, cs.drop_last()), cs.last().1)
    }
}

/// `path` with `.` and `..` resolved: its kept components pushed in turn onto an empty path
pub open spec fn spec_utf8_normalize<T: Utf8Encoding>(path: Seq<char>) -> Seq<char> {
    utf8_push_all::<T>(Seq::empty(), kept(utf8_parts::<T>(path)))
}

/// What a component of a path in the encoding `T` becomes in the encoding `U`: a root becomes the
/// root separator of `U`, and any other component keeps its text, as `.` and `..` are the same in
/// every encoding
pub open spec fn converted_part<T: Utf8Encoding, U: Utf8Encoding>(path: Seq<char>, s: Span) -> (
    ComponentKind,
    Seq<char>,
) {
    if <T::Bytes as Encoding>::spec_is_root(s.0, encode_utf8(path).subrange(s.1, s.2)) {
        (s.0, U::spec_root())
    } else {
        (s.0, span_text::<T>(path, s))
    }
}

/// A path of the encoding `T` converted to the encoding `U`: unchanged when they are the same
/// encoding, and otherwise its components, converted, pushed in turn onto an empty path
pub open spec fn spec_with_encoding<T: Utf8Encoding, U: Utf8Encoding>(path: Seq<char>) -> Seq<char> {
    if T::spec_label() == U::spec_label() {
        path
    } else {
        utf8_push_all::<U>(
            Seq::empty(),
            utf8_spans::<T>(path).map_values(|s: Span| converted_part::<T, U>(path, s)),
        )
    }
}

/// Converting a UTF-8 path to its own encoding keeps it as it is
pub proof fn law_utf8_same_encoding_keeps_path<T: Utf8Encoding>(path: Seq<char>)
    ensures
        spec_with_encoding::<T, T>(path) == path,
{
}

/// A UTF-8 path is absolute when its UTF-8 encoding is
pub open spec fn utf8_is_absolute<T: Utf8Encoding>(path: Seq<char>) -> bool {
    <T::Bytes as Encoding>::spec_is_absolute(encode_utf8(path))
}

/// `path` made absolute against the current directory `cwd`: an absolute path is normalized; a
/// relative one is pushed onto `cwd` and normalized, which fails when `cwd` is not absolute
pub open spec fn spec_utf8_absolutize<T: Utf8Encoding>(path: Seq<char>, cwd: Seq<char>) -> Option<
    Seq<char>,
> {
    if utf8_is_absolute::<T>(path) {
        Some(spec_utf8_normalize::<T>(path))
    } else if !utf8_is_absolute::<T>(cwd) {
        None
    } else {
        Some(spec_utf8_normalize::<T>(T::spec_push(cwd, path)))
    }
}

/// The parts `cs` with their text encoded as UTF-8
pub open spec fn encode_parts(cs: Seq<(ComponentKind, Seq<char>)>) -> Seq<(ComponentKind, Seq<u8>)> {
    cs.map_values(|p: (ComponentKind, Seq<char>)| (p.0, encode_utf8(p.1)))
}

/// Normalizing keeps the same parts whether their text is encoded or not
proof fn lemma_kept_encode(cs: Seq<(ComponentKind, Seq<char>)>)
    ensures
        kept(encode_parts(cs)) == encode_parts(kept(cs)),
    decreases cs.len(),
{
    if cs.len() > 0 {
        lemma_kept_encode(cs.drop_last());
        assert(encode_parts(cs).drop_last() =~= encode_parts(cs.drop_last()));
        let k = kept(cs.drop_last());
        let c = cs.last();
        let ec = (c.0, encode_utf8(c.1));
        assert(encode_parts(cs).last() == ec);
        assert(encode_parts(k.push(c)) =~= encode_parts(k).push(ec));
        if k.len() > 0 {
            assert(encode_parts(k.drop_last()) =~= encode_parts(k).drop_last());
            assert(encode_parts(k).last().0 == k.last().0);
        }
        assert(keep_step(encode_parts(k), ec) =~= encode_parts(keep_step(k, c)));
    }
}

/// Pushing text parts gives the text whose encoding is what pushing their encodings gives
proof fn lemma_push_all_encode<T: Utf8Encoding>(buf: Seq<char>, cs: Seq<(ComponentKind, Seq<char>)>)
    ensures
        encode_utf8(utf8_push_all::<T>(buf, cs)) == push_all::<T::Bytes>(
            encode_utf8(buf),
            encode_parts(cs),
        ),
    decreases cs.len(),
{
    if cs.len() > 0 {
        lemma_push_all_encode::<T>(buf, cs.drop_last());
        T::lemma_push_bytes(utf8_push_all::<T>(buf, cs.drop_last()), cs.last().1);
        assert(encode_parts(cs).drop_last() =~= encode_parts(cs.drop_last()));
    }
}

/// The parts of a UTF-8 path, encoded, are the parts of its encoding
proof fn lemma_parts_encode<T: Utf8Encoding>(path: Seq<char>)
    ensures
        encode_parts(utf8_parts::<T>(path)) == parts::<T::Bytes>(encode_utf8(path)),
{
    law_utf8_components_match_bytes::<T>(path);
    let spans = utf8_spans::<T>(path);
    assert forall|i: int| 0 <= i < spans.len() implies encode_parts(utf8_parts::<T>(path))[i]
        == parts::<T::Bytes>(encode_utf8(path))[i] by {
        assert(encode_utf8(span_text::<T>(path, spans[i])) == span_bytes::<T::Bytes>(
            encode_utf8(path),
            spans[i],
        ));
    }
    assert(encode_parts(utf8_parts::<T>(path)) =~= parts::<T::Bytes>(encode_utf8(path)));
}

/// A UTF-8 path normalizes to the text whose encoding is what its encoding normalizes to
pub proof fn law_utf8_normalize_matches_bytes<T: Utf8Encoding>(path: Seq<char>)
    ensures
        encode_utf8(spec_utf8_normalize::<T>(path)) == spec_normalize::<T::Bytes>(encode_utf8(path)),
{
    lemma_parts_encode::<T>(path);
    lemma_kept_encode(utf8_parts::<T>(path));
    lemma_push_all_encode::<T>(Seq::empty(), kept(utf8_parts::<T>(path)));
    assert(encode_utf8(Seq::<char>::empty()) =~= Seq::<u8>::empty());
}

/// Converting a UTF-8 path to another encoding gives the text whose encoding is what converting
/// its encoding between the byte encodings gives, when telling the encodings apart by their
/// labels agrees for text and for bytes
pub proof fn law_utf8_with_encoding_matches_bytes<T: Utf8Encoding, U: Utf8Encoding>(path: Seq<char>)
    requires
        (T::spec_label() == U::spec_label()) == (<T::Bytes as Encoding>::spec_label()
            == <U::Bytes as Encoding>::spec_label()),
    ensures
        encode_utf8(spec_with_encoding::<T, U>(path)) == spec_path_with_encoding::<
            T::Bytes,
            U::Bytes,
        >(encode_utf8(path)),
{
    if T::spec_label() != U::spec_label() {
        law_utf8_components_match_bytes::<T>(path);
        U::lemma_root_text();
        let spans = utf8_spans::<T>(path);
        let texts = spans.map_values(|s: Span| converted_part::<T, U>(path, s));
        let bytes = spans.map_values(
            |s: Span| converted_bytes::<T::Bytes, U::Bytes>(encode_utf8(path), s),
        );
        assert forall|i: int| 0 <= i < spans.len() implies encode_parts(texts)[i] == bytes[i] by {
            assert(encode_utf8(span_text::<T>(path, spans[i])) == span_bytes::<T::Bytes>(
                encode_utf8(path),
                spans[i],
            ));
        }
        assert(encode_parts(texts) =~= bytes);
        lemma_push_all_encode::<U>(Seq::empty(), texts);
        assert(encode_utf8(Seq::<char>::empty()) =~= Seq::<u8>::empty());
    }
}

/// The views of parts held with executable text
pub open spec fn text_part_views(v: Seq<(ComponentKind, &str)>) -> Seq<(ComponentKind, Seq<char>)> {
    v.map_values(|p: (ComponentKind, &str)| (p.0, p.1@))
}

impl<'a, T: Utf8Encoding> Utf8Path<'a, T> {
    /// Returns the path with `.` components dropped and each `..` resolved against the name
    /// before it; a `..` with no name before it is dropped
    pub fn normalize(&self) -> (res: Utf8PathBuf<T>)
        ensures
            res@ == spec_utf8_normalize::<T>(self@),
    {
        let text = self.as_str();
        let spans = text_spans::<T>(text);
        proof {
            lemma_utf8_spans::<T>(text@);
        }
        let ghost all = utf8_parts::<T>(text@);
        let mut stack: Vec<(ComponentKind, &str)> = Vec::new();
        let mut i: usize = 0;
        while i < spans.len()
            invariant
                spans@.map_values(|t: (ComponentKind, usize, usize)| span_of(t)) == utf8_spans::<T>(
                    text@,
                ),
                spans_wf(utf8_spans::<T>(text@), encode_utf8(text@).len() as int),
                ascii_delimited(encode_utf8(text@), utf8_spans::<T>(text@)),
                all == utf8_parts::<T>(text@),
                all.len() == spans@.len(),
                i <= spans@.len(),
                text_part_views(stack@) == kept(all.take(i as int)),
            decreases spans@.len() - i,
        {
            let (kind, a, b) = spans[i];
            proof {
                let m = spans@.map_values(|t: (ComponentKind, usize, usize)| span_of(t));
                assert(m[i as int] == span_of(spans@[i as int]));
                assert(0 <= m[i as int].1 <= m[i as int].2 <= encode_utf8(text@).len());
                assert(ascii_edge(encode_utf8(text@), m[i as int].1));
                assert(all.take(i + 1).drop_last() =~= all.take(i as int));
                assert(all.take(i + 1).last() == all[i as int]);
            }
            let part = span_str::<T>(text, kind, a, b);
            proof {
                assert(all[i as int] == (kind, part@));
            }
            let ghost before = stack@;
            match kind {
                ComponentKind::CurDir => {},
                ComponentKind::ParentDir => {
                    let n = stack.len();
                    if n > 0 && stack[n - 1].0 == ComponentKind::Normal {
                        stack.pop();
                        proof {
                            assert(text_part_views(before).last().0 == before.last().0);
                            assert(text_part_views(stack@) =~= text_part_views(before).drop_last());
                        }
                    }
                },
                _ => {
                    stack.push((kind, part));
                },
            }
            proof {
                assert(text_part_views(stack@) =~= kept(all.take(i + 1)));
            }
            i = i + 1;
        }
        proof {
            assert(all.take(i as int) =~= all);
        }
        let ghost ks = kept(all);
        let mut buf: Utf8PathBuf<T> = Utf8PathBuf::new();
        let mut j: usize = 0;
        while j < stack.len()
            invariant
                text_part_views(stack@) == ks,
                j <= stack@.len(),
                buf@ == utf8_push_all::<T>(Seq::empty(), ks.take(j as int)),
            decreases stack@.len() - j,
        {
            proof {
                assert(ks.take(j + 1).drop_last() =~= ks.take(j as int));
                assert(ks.take(j + 1).last() == ks[j as int]);
            }
            buf.push(Utf8Path::new(stack[j].1));
            j = j + 1;
        }
        proof {
            assert(ks.take(j as int) =~= ks);
        }
        buf
    }

    /// Whether `self` and `other` have the same components, one for one
    pub fn same_components(&self, other: Utf8Path<'_, T>) -> (res: bool)
        ensures
            res == spec_same_components::<T::Bytes>(encode_utf8(self@), encode_utf8(other@)),
    {
        let a: Path<'_, T::Bytes> = Path::new(self.as_str().as_bytes());
        a.same_components(Path::new(other.as_str().as_bytes()))
    }

    /// Returns `true` if the path has a root, by the rules of the byte encoding
    pub fn has_root(&self) -> (res: bool)
        ensures
            res == <T::Bytes as Encoding>::spec_has_root(encode_utf8(self@)),
    {
        <T::Bytes as Encoding>::has_root(self.as_str().as_bytes())
    }

    /// Returns `true` if the path is absolute, i.e., independent of the current directory
    pub fn is_absolute(&self) -> (res: bool)
        ensures
            res == utf8_is_absolute::<T>(self@),
    {
        <T::Bytes as Encoding>::is_absolute(self.as_str().as_bytes())
    }

    /// Returns `true` if the path is relative, i.e., not absolute
    pub fn is_relative(&self) -> (res: bool)
        ensures
            res == !utf8_is_absolute::<T>(self@),
    {
        !self.is_absolute()
    }

    /// Makes the path absolute against the current directory `cwd`: an absolute path is only
    /// normalized; a relative one is joined onto `cwd` and normalized, and `None` comes back when
    /// `cwd` is not absolute
    pub fn absolutize_against(&self, cwd: Utf8Path<'_, T>) -> (res: Option<Utf8PathBuf<T>>)
        ensures
            match res {
                Some(p) => spec_utf8_absolutize::<T>(self@, cwd@) == Some(p@),
                None => spec_utf8_absolutize::<T>(self@, cwd@) is None,
            },
    {
        if self.is_absolute() {
            Some(self.normalize())
        } else if !cwd.is_absolute() {
            None
        } else {
            let joined = cwd.join(Utf8Path::new(self.as_str()));
            Some(joined.as_path().normalize())
        }
    }

    /// Creates an owned path like `self` but in the encoding `U`: a copy when `U` is the
    /// encoding of `self`, and otherwise the components of `self` pushed in turn onto an empty
    /// path of `U`, with each root replaced by the root separator of `U`
    pub fn with_encoding<U: Utf8Encoding>(&self) -> (res: Utf8PathBuf<U>)
        ensures
            res@ == spec_with_encoding::<T, U>(self@),
    {
        let text = self.as_str();
        if str_eq(T::label(), U::label()) {
            return Utf8PathBuf::from_str(text);
        }
        let spans = text_spans::<T>(text);
        proof {
            lemma_utf8_spans::<T>(text@);
        }
        let ghost all = utf8_spans::<T>(text@).map_values(
            |s: Span| converted_part::<T, U>(text@, s),
        );
        let mut buf: Utf8PathBuf<U> = Utf8PathBuf::new();
        let mut i: usize = 0;
        while i < spans.len()
            invariant
                spans@.map_values(|t: (ComponentKind, usize, usize)| span_of(t)) == utf8_spans::<T>(
                    text@,
                ),
                spans_wf(utf8_spans::<T>(text@), encode_utf8(text@).len() as int),
                ascii_delimited(encode_utf8(text@), utf8_spans::<T>(text@)),
                all == utf8_spans::<T>(text@).map_values(
                    |s: Span| converted_part::<T, U>(text@, s),
                ),
                all.len() == spans@.len(),
                i <= spans@.len(),
                buf@ == utf8_push_all::<U>(Seq::empty(), all.take(i as int)),
            decreases spans@.len() - i,
        {
            let (kind, a, b) = spans[i];
            proof {
                let m = spans@.map_values(|t: (ComponentKind, usize, usize)| span_of(t));
                assert(m[i as int] == span_of(spans@[i as int]));
                assert(0 <= m[i as int].1 <= m[i as int].2 <= encode_utf8(text@).len());
                assert(ascii_edge(encode_utf8(text@), m[i as int].1));
                assert(all.take(i + 1).drop_last() =~= all.take(i as int));
                assert(all.take(i + 1).last() == all[i as int]);
            }
            let bytes = slice_subrange(text.as_bytes(), a, b);
            if <T::Bytes as Encoding>::is_root(kind, bytes) {
                buf.push(Utf8Path::new(U::root_str()));
            } else {
                buf.push(Utf8Path::new(span_str::<T>(text, kind, a, b)));
            }
            i = i + 1;
        }
        proof {
            assert(all.take(i as int) =~= all);
        }
        buf
    }
}

} // verus!
