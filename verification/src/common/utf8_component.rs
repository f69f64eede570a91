//! Components of UTF-8 paths, each with its kind.
use core::marker::PhantomData;
use vstd::prelude::*;
use vstd::string::StringSliceAdditionalSpecFns;
use vstd::utf8::encode_utf8;

use crate::common::components::{ComponentKind, Span};
use crate::common::encoding::Encoding;
use crate::common::utf8::{Utf8Encoding, Utf8Path};
use crate::common::utf8_components::{
    span_text, utf8_back_step, utf8_front_step, utf8_spans, Utf8Iter, Utf8IterView,
};

verus! {

/// Interface representing a component in a [`Utf8Path`]
pub trait Utf8Component<'a>: Sized {
    /// Text of the component
    spec fn text(&self) -> Seq<char>;

    /// The component is a root: no component comes before it
    spec fn spec_is_root(&self) -> bool;

    /// The component is a file or directory name
    spec fn spec_is_normal(&self) -> bool;

    /// Extracts the underlying string slice
    fn as_str(&self) -> (res: &'a str)
        ensures
            res@ == self.text(),
    ;

    /// Returns true if this component is the root component, meaning there are no more
    /// components before this one: the root separator, or on Windows a prefix other than a drive
    fn is_root(&self) -> (res: bool)
        ensures
            res == self.spec_is_root(),
    ;

    /// Returns true if this component represents a normal part of the path
    fn is_normal(&self) -> (res: bool)
        ensures
            res == self.spec_is_normal(),
    ;

    /// Returns size of component in bytes
    fn len(&self) -> (res: usize)
        ensures
            res == encode_utf8(self.text()).len(),
    ;

    /// Returns true if component represents an empty str
    fn is_empty(&self) -> (res: bool)
        ensures
            res == (encode_utf8(self.text()).len() == 0),
    {
        self.len() == 0
    }
}

/// A component of a [`Utf8Path`] of the encoding `T`: its kind, its text, and whether it is a
/// root
pub struct Utf8PathComponent<'a, T: Utf8Encoding> {
    _encoding: PhantomData<T>,
    kind: ComponentKind,
    text: &'a str,
    root: bool,
}

/// The component `span` of `path`: its kind, its text, and whether the byte encoding takes it
/// for a root
pub open spec fn utf8_component_view<T: Utf8Encoding>(path: Seq<char>, span: Span) -> (
    ComponentKind,
    Seq<char>,
    bool,
) {
    (
        span.0,
        span_text::<T>(path, span),
        <T::Bytes as Encoding>::spec_is_root(span.0, encode_utf8(path).subrange(span.1, span.2)),
    )
}

impl<'a, T: Utf8Encoding> View for Utf8PathComponent<'a, T> {
    type V = (ComponentKind, Seq<char>, bool);

    closed spec fn view(&self) -> (ComponentKind, Seq<char>, bool) {
        (self.kind, self.text@, self.root)
    }
}

impl<'a, T: Utf8Encoding> Utf8PathComponent<'a, T> {
    /// The component of kind `kind` with the text `text`, a root when `root` holds
    pub(crate) fn new(kind: ComponentKind, text: &'a str, root: bool) -> (res: Self)
        ensures
            res@ == (kind, text@, root),
    {
        Utf8PathComponent { _encoding: PhantomData, kind, text, root }
    }

    /// Kind of the component
    pub fn kind(&self) -> (res: ComponentKind)
        ensures
            res == self@.0,
    {
        self.kind
    }
}

impl<'a, T: Utf8Encoding> Utf8Component<'a> for Utf8PathComponent<'a, T> {
    open spec fn text(&self) -> Seq<char> {
        self@.1
    }

    open spec fn spec_is_root(&self) -> bool {
        self@.2
    }

    open spec fn spec_is_normal(&self) -> bool {
        self@.0 == ComponentKind::Normal
    }

    fn as_str(&self) -> (res: &'a str) {
        self.text
    }

    fn is_root(&self) -> (res: bool) {
        self.root
    }

    fn is_normal(&self) -> (res: bool) {
        self.kind == ComponentKind::Normal
    }

    fn len(&self) -> (res: usize) {
        self.text.as_bytes().len()
    }
}

/// Iterator over the components of a [`Utf8Path`], each with its kind
pub struct Utf8Components<'a, T: Utf8Encoding> {
    iter: Utf8Iter<'a, T>,
}

impl<'a, T: Utf8Encoding> View for Utf8Components<'a, T> {
    type V = Utf8IterView;

    closed spec fn view(&self) -> Utf8IterView {
        self.iter@
    }
}

/// The view of an optional component
pub open spec fn opt_component<'a, T: Utf8Encoding>(o: Option<Utf8PathComponent<'a, T>>) -> Option<
    (ComponentKind, Seq<char>, bool),
> {
    match o {
        Some(c) => Some(c@),
        None => None,
    }
}

/// The text of an optional component
pub open spec fn opt_component_text<'a, T: Utf8Encoding>(
    o: Option<Utf8PathComponent<'a, T>>,
) -> Option<Seq<char>> {
    match o {
        Some(c) => Some(c@.1),
        None => None,
    }
}

impl<'a, T: Utf8Encoding> Utf8Components<'a, T> {
    /// Yields the next component from the front
    pub fn next(&mut self) -> (res: Option<Utf8PathComponent<'a, T>>)
        ensures
            utf8_front_step::<T>(old(self)@, final(self)@, opt_component_text(res)),
            old(self)@.2 < old(self)@.3 ==> opt_component(res) == Some(
                utf8_component_view::<T>(old(self)@.0, old(self)@.1[old(self)@.2]),
            ),
    {
        self.iter.next_component()
    }

    /// Yields the next component from the back
    pub fn next_back(&mut self) -> (res: Option<Utf8PathComponent<'a, T>>)
        ensures
            utf8_back_step::<T>(old(self)@, final(self)@, opt_component_text(res)),
            old(self)@.2 < old(self)@.3 ==> opt_component(res) == Some(
                utf8_component_view::<T>(old(self)@.0, old(self)@.1[old(self)@.3 - 1]),
            ),
    {
        self.iter.next_back_component()
    }

    /// The path made of the components not yet yielded
    pub fn as_path(&self) -> (res: Utf8Path<'a, T>)
        ensures
            res@ == crate::common::utf8_components::utf8_iter_rest(self@),
    {
        self.iter.as_path()
    }
}

impl<'a, T: Utf8Encoding> Utf8Path<'a, T> {
    /// Produces an iterator over the path's components, each with its kind
    pub fn components(&self) -> (res: Utf8Components<'a, T>)
        ensures
            res@ == (self@, utf8_spans::<T>(self@), 0int, utf8_spans::<T>(self@).len() as int),
    {
        Utf8Components { iter: self.iter() }
    }
}

} // verus!
