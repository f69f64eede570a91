//! Paths that hold exactly one file or directory name.
use vstd::prelude::*;

use crate::common::components::{span_of, ComponentKind, Span};
use crate::common::encoding::Encoding;
use crate::common::path::Path;
use crate::common::pathbuf::PathBuf;

verus! {

/// Number of components that are not `.`
pub open spec fn non_cur_count(spans: Seq<Span>) -> nat
    decreases spans.len(),
{
    if spans.len() == 0 {
        0
    } else {
        non_cur_count(spans.drop_last()) + if spans.last().0 == ComponentKind::CurDir {
            0nat
        } else {
            1nat
        }
    }
}

/// Every component that is not `.` is a name
pub open spec fn non_cur_are_names(spans: Seq<Span>) -> bool {
    forall|i: int|
        0 <= i < spans.len() && spans[i].0 != ComponentKind::CurDir ==> spans[i].0
            == ComponentKind::Normal
}

/// Leaving `.` components aside, the path holds exactly one component, and it is a name
pub open spec fn is_single_component(spans: Seq<Span>) -> bool {
    non_cur_count(spans) == 1 && non_cur_are_names(spans)
}

/// Whether the path `bytes` holds exactly one name, leaving `.` components aside
fn single_component<T: Encoding>(bytes: &[u8]) -> (res: bool)
    ensures
        res == is_single_component(T::spec_spans(bytes@)),
{
    let spans = T::component_spans(bytes);
    let ghost all = T::spec_spans(bytes@);
    let ghost g = |t: (ComponentKind, usize, usize)| span_of(t);
    let mut count: usize = 0;
    let mut names = true;
    let mut i: usize = 0;
    proof {
        assert(all.take(0) =~= Seq::<Span>::empty());
    }
    while i < spans.len()
        invariant
            g == (|t: (ComponentKind, usize, usize)| span_of(t)),
            spans@.map_values(g) == all,
            i <= spans@.len(),
            count <= 2,
            count == if non_cur_count(all.take(i as int)) >= 2 {
                2
            } else {
                non_cur_count(all.take(i as int))
            },
            names == non_cur_are_names(all.take(i as int)),
        decreases spans@.len() - i,
    {
        let (kind, _, _) = spans[i];
        proof {
            assert(all[i as int] == span_of(spans@[i as int]));
            let t = all.take(i + 1);
            assert(t.drop_last() =~= all.take(i as int));
            assert(t.last() == all[i as int]);
        }
        match kind {
            ComponentKind::CurDir => {},
            ComponentKind::Normal => {
                if count < 2 {
                    count = count + 1;
                }
            },
            _ => {
                if count < 2 {
                    count = count + 1;
                }
                names = false;
            },
        }
        proof {
            let t = all.take(i + 1);
            let prev = all.take(i as int);
            assert forall|j: int| 0 <= j < i implies #[trigger] t[j] == prev[j] by {}
            if kind == ComponentKind::Normal || kind == ComponentKind::CurDir {
                if non_cur_are_names(prev) {
                    assert forall|j: int|
                        0 <= j < t.len() && t[j].0 != ComponentKind::CurDir implies t[j].0
                        == ComponentKind::Normal by {
                        if j < i {
                            assert(t[j] == prev[j]);
                        }
                    }
                }
                if non_cur_are_names(t) {
                    assert forall|j: int|
                        0 <= j < prev.len() && prev[j].0 != ComponentKind::CurDir implies prev[j].0
                        == ComponentKind::Normal by {
                        assert(prev[j] == t[j]);
                    }
                }
            } else {
                assert(t[i as int].0 != ComponentKind::CurDir && t[i as int].0 != ComponentKind::Normal);
            }
        }
        i = i + 1;
    }
    proof {
        assert(all.take(i as int) =~= all);
    }
    count == 1 && names
}

/// A borrowed path that holds exactly one file or directory name (and possibly `.` components)
pub struct SingleComponentPath<'a, T: Encoding> {
    path: Path<'a, T>,
}

impl<'a, T: Encoding> View for SingleComponentPath<'a, T> {
    type V = Seq<u8>;

    closed spec fn view(&self) -> Seq<u8> {
        self.path@
    }
}

impl<'a, T: Encoding> SingleComponentPath<'a, T> {
    /// Wraps `component` if it holds exactly one name, leaving `.` components aside
    pub fn new(component: Path<'a, T>) -> (res: Option<Self>)
        ensures
            match res {
                Some(p) => is_single_component(T::spec_spans(component@)) && p@ == component@,
                None => !is_single_component(T::spec_spans(component@)),
            },
    {
        if single_component::<T>(component.as_bytes()) {
            Some(SingleComponentPath { path: component })
        } else {
            None
        }
    }

    /// The wrapped path
    pub fn as_path(&self) -> (res: Path<'a, T>)
        ensures
            res@ == self@,
    {
        Path::new(self.path.as_bytes())
    }
}

/// An owned path that holds exactly one file or directory name (and possibly `.` components)
pub struct SingleComponentPathBuf<T: Encoding> {
    path: PathBuf<T>,
}

impl<T: Encoding> View for SingleComponentPathBuf<T> {
    type V = Seq<u8>;

    closed spec fn view(&self) -> Seq<u8> {
        self.path@
    }
}

impl<T: Encoding> SingleComponentPathBuf<T> {
    /// Wraps `component` if it holds exactly one name, leaving `.` components aside
    pub fn new(component: PathBuf<T>) -> (res: Option<Self>)
        ensures
            match res {
                Some(p) => is_single_component(T::spec_spans(component@)) && p@ == component@,
                None => !is_single_component(T::spec_spans(component@)),
            },
    {
        if single_component::<T>(component.as_bytes()) {
            Some(SingleComponentPathBuf { path: component })
        } else {
            None
        }
    }

    /// The wrapped path
    pub fn as_path(&self) -> (res: Path<'_, T>)
        ensures
            res@ == self@,
    {
        self.path.as_path()
    }

    /// Consumes the wrapper, yielding the path
    pub fn into_path_buf(self) -> (res: PathBuf<T>)
        ensures
            res@ == self@,
    {
        self.path
    }
}

} // verus!
