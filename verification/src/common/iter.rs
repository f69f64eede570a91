//! Iterators over the components of a path viewed as byte slices, and over its ancestors.
use core::marker::PhantomData;
use vstd::prelude::*;
use vstd::slice::slice_subrange;

use crate::common::components::{span_of, spans_wf, ComponentKind, Span};
use crate::common::encoding::Encoding;
use crate::common::path::{opt_bytes, spec_parent, Path};

verus! {

/// Bytes of the component `span` of `path`: the encoding's root separator for the root directory,
/// and otherwise the bytes the span covers
pub open spec fn span_bytes<T: Encoding>(path: Seq<u8>, span: Span) -> Seq<u8> {
    if span.0 == ComponentKind::RootDir {
        T::spec_root_bytes()
    } else {
        path.subrange(span.1, span.2)
    }
}

/// Mathematical value of an [`Iter`]: the path, its components, and the bounds of the components
/// not yet yielded
pub type IterView = (Seq<u8>, Seq<Span>, int, int);

/// The path made of the components not yet yielded: the whole path when none was, and otherwise
/// the bytes from the start of the first remaining component to the end of the last
pub open spec fn iter_rest(v: IterView) -> Seq<u8> {
    if v.2 == 0 && v.3 == v.1.len() {
        v.0
    } else if v.2 < v.3 {
        v.0.subrange(v.1[v.2].1, v.1[v.3 - 1].2)
    } else {
        Seq::<u8>::empty()
    }
}

/// Yielding `res` from the front takes the iterator from `o` to `f`: the next component when
/// one is left, and nothing otherwise
pub open spec fn front_step<T: Encoding>(o: IterView, f: IterView, res: Option<Seq<u8>>) -> bool {
    &&& f.0 == o.0 && f.1 == o.1 && f.3 == o.3
    &&& o.2 < o.3 ==> res == Some(span_bytes::<T>(o.0, o.1[o.2])) && f.2 == o.2 + 1
    &&& o.2 >= o.3 ==> res is None && f == o
}

/// Yielding `res` from the back takes the iterator from `o` to `f`: the last component when
/// one is left, and nothing otherwise
pub open spec fn back_step<T: Encoding>(o: IterView, f: IterView, res: Option<Seq<u8>>) -> bool {
    &&& f.0 == o.0 && f.1 == o.1 && f.2 == o.2
    &&& o.2 < o.3 ==> res == Some(span_bytes::<T>(o.0, o.1[o.3 - 1])) && f.3 == o.3 - 1
    &&& o.2 >= o.3 ==> res is None && f == o
}

/// Iterator over the components of a [`Path`], as byte slices
pub struct Iter<'a, T: Encoding> {
    _encoding: PhantomData<T>,
    path: &'a [u8],
    spans: Vec<(ComponentKind, usize, usize)>,
    front: usize,
    back: usize,
}

impl<'a, T: Encoding> View for Iter<'a, T> {
    type V = IterView;

    closed spec fn view(&self) -> IterView {
        (
            self.path@,
            self.spans@.map_values(|t: (ComponentKind, usize, usize)| span_of(t)),
            self.front as int,
            self.back as int,
        )
    }
}

impl<'a, T: Encoding> Iter<'a, T> {
    #[verifier::type_invariant]
    spec fn wf(self) -> bool {
        &&& self.front <= self.back <= self.spans@.len()
        &&& self.spans@.map_values(|t: (ComponentKind, usize, usize)| span_of(t)) == T::spec_spans(
            self.path@,
        )
        &&& spans_wf(T::spec_spans(self.path@), self.path@.len() as int)
    }

    /// Iterates over the components of `path`
    pub fn new(path: Path<'a, T>) -> (res: Self)
        ensures
            res@ == (path@, T::spec_spans(path@), 0int, T::spec_spans(path@).len() as int),
    {
        let bytes = path.as_bytes();
        let spans = T::component_spans(bytes);
        proof {
            T::lemma_spans_wf(bytes@);
        }
        let back = spans.len();
        Iter { _encoding: PhantomData, path: bytes, spans, front: 0, back }
    }

    /// Bytes of the component at `i`
    fn item(&self, i: usize) -> (res: &'a [u8])
        requires
            i < self@.1.len(),
        ensures
            res@ == span_bytes::<T>(self@.0, self@.1[i as int]),
    {
        proof {
            use_type_invariant(self);
            assert(self.spans@.map_values(|t: (ComponentKind, usize, usize)| span_of(t))[i as int]
                == span_of(self.spans@[i as int]));
        }
        let (kind, a, b) = self.spans[i];
        match kind {
            ComponentKind::RootDir => T::root_bytes(),
            _ => slice_subrange(self.path, a, b),
        }
    }

    /// The path made of the components not yet yielded: the whole path when none was, and
    /// otherwise the bytes from the start of the first remaining component to the end of the last
    pub fn as_path(&self) -> (res: Path<'a, T>)
        ensures
            res@ == iter_rest(self@),
    {
        proof {
            use_type_invariant(self);
        }
        if self.front == 0 && self.back == self.spans.len() {
            return Path::new(self.path);
        }
        if self.front < self.back {
            let (_, a, _) = self.spans[self.front];
            let (_, _, b) = self.spans[self.back - 1];
            proof {
                let m = self.spans@.map_values(|t: (ComponentKind, usize, usize)| span_of(t));
                assert(m[self.front as int] == span_of(self.spans@[self.front as int]));
                assert(m[self.back - 1] == span_of(self.spans@[self.back - 1]));
                if self.front < self.back - 1 {
                    assert(m[self.front as int].2 <= m[self.back - 1].1);
                }
            }
            Path::new(slice_subrange(self.path, a, b))
        } else {
            Path::new(slice_subrange(self.path, 0, 0))
        }
    }

    /// Yields the next component from the front
    pub fn next(&mut self) -> (res: Option<&'a [u8]>)
        ensures
            front_step::<T>(old(self)@, final(self)@, opt_bytes(res)),
    {
        proof {
            use_type_invariant(&*self);
        }
        if self.front < self.back {
            let r = self.item(self.front);
            self.front = self.front + 1;
            Some(r)
        } else {
            None
        }
    }

    /// Yields the next component from the back
    pub fn next_back(&mut self) -> (res: Option<&'a [u8]>)
        ensures
            back_step::<T>(old(self)@, final(self)@, opt_bytes(res)),
    {
        proof {
            use_type_invariant(&*self);
        }
        if self.front < self.back {
            let r = self.item(self.back - 1);
            self.back = self.back - 1;
            Some(r)
        } else {
            None
        }
    }
}

/// Iterator over a [`Path`] and its ancestors: the path, its parent, the parent's parent, and so
/// on until a path without a parent
pub struct Ancestors<'a, T: Encoding> {
    next: Option<Path<'a, T>>,
}

impl<'a, T: Encoding> View for Ancestors<'a, T> {
    /// The path to yield next, if any
    type V = Option<Seq<u8>>;

    closed spec fn view(&self) -> Option<Seq<u8>> {
        match self.next {
            Some(p) => Some(p@),
            None => None,
        }
    }
}

impl<'a, T: Encoding> Ancestors<'a, T> {
    /// Iterates over `path` and its ancestors
    pub fn new(path: Path<'a, T>) -> (res: Self)
        ensures
            res@ == Some(path@),
    {
        Ancestors { next: Some(path) }
    }

    /// Yields the next ancestor; the one after it is its parent
    pub fn next(&mut self) -> (res: Option<Path<'a, T>>)
        ensures
            match old(self)@ {
                Some(p) => (res matches Some(r) && r@ == p && final(self)@ == spec_parent::<T>(p)),
                None => res is None && final(self)@ is None,
            },
    {
        match self.next.take() {
            Some(p) => {
                self.next = p.parent();
                Some(p)
            },
            None => None,
        }
    }
}

impl<'a, T: Encoding> Path<'a, T> {
    /// Produces an iterator over the path's components viewed as byte slices
    pub fn iter(&self) -> (res: Iter<'a, T>)
        ensures
            res@ == (self@, T::spec_spans(self@), 0int, T::spec_spans(self@).len() as int),
    {
        Iter::new(Path::new(self.as_bytes()))
    }

    /// Produces an iterator over the path and its ancestors
    pub fn ancestors(&self) -> (res: Ancestors<'a, T>)
        ensures
            res@ == Some(self@),
    {
        Ancestors::new(Path::new(self.as_bytes()))
    }
}

} // verus!
