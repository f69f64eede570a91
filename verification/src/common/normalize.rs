//! Lexical normalization: resolving `.` and `..` without looking at any file system.
use vstd::prelude::*;
use vstd::slice::slice_subrange;

use crate::common::components::{span_of, spans_wf, ComponentKind, Span};
use crate::common::encoding::Encoding;
use crate::common::iter::span_bytes;
use crate::common::path::Path;
use crate::common::pathbuf::PathBuf;

verus! {

/// The parts kept so far once `c` comes after `stack`: a `.` is dropped, a `..` takes away the
/// name just before it and is dropped when there is none, and anything else is kept
pub open spec fn keep_step<X>(stack: Seq<(ComponentKind, X)>, c: (ComponentKind, X)) -> Seq<
    (ComponentKind, X),
> {
    match c.0 {
        ComponentKind::CurDir => stack,
        ComponentKind::ParentDir => if stack.len() > 0 && stack.last().0 == ComponentKind::Normal {
            stack.drop_last()
        } else {
            stack
        },
        _ => stack.push(c),
    }
}

/// The parts of `cs` that normalizing keeps, in order
pub open spec fn kept<X>(cs: Seq<(ComponentKind, X)>) -> Seq<(ComponentKind, X)>
    decreases cs.len(),
{
    if cs.len() == 0 {
        Seq::empty()
    } else {
        keep_step(kept(cs.drop_last()), cs.last())
    }
}

/// The components of `path`, each by its kind and its bytes
pub open spec fn parts<T: Encoding>(path: Seq<u8>) -> Seq<(ComponentKind, Seq<u8>)> {
    T::spec_spans(path).map_values(|s: Span| (s.0, span_bytes::<T>(path, s)))
}

/// The path reached by pushing the bytes of each of `cs`, in turn, onto `buf`
pub open spec fn push_all<T: Encoding>(buf: Seq<u8>, cs: Seq<(ComponentKind, Seq<u8>)>) -> Seq<u8>
    decreases cs.len(),
{
    if cs.len() == 0 {
        buf
    } else {
        T::spec_push(push_all::<T>(buf, cs.drop_last()), cs.last().1)
    }
}

/// `path` with `.` and `..` resolved: its kept components pushed in turn onto an empty path
pub open spec fn spec_normalize<T: Encoding>(path: Seq<u8>) -> Seq<u8> {
    push_all::<T>(Seq::empty(), kept(parts::<T>(path)))
}

/// `path` made absolute against the current directory `cwd`: an absolute path is normalized; a
/// relative one is pushed onto `cwd` and normalized, which fails when `cwd` is not absolute
pub open spec fn spec_absolutize<T: Encoding>(path: Seq<u8>, cwd: Seq<u8>) -> Option<Seq<u8>> {
    if T::spec_is_absolute(path) {
        Some(spec_normalize::<T>(path))
    } else if !T::spec_is_absolute(cwd) {
        None
    } else {
        Some(spec_normalize::<T>(T::spec_push(cwd, path)))
    }
}

/// Normalizing never drops a root that comes first: the parts kept start with it
pub proof fn lemma_kept_keeps_first_root<X>(cs: Seq<(ComponentKind, X)>)
    requires
        cs.len() > 0,
        cs[0].0 == ComponentKind::RootDir,
    ensures
        kept(cs).len() > 0,
        kept(cs)[0] == cs[0],
    decreases cs.len(),
{
    let init = cs.drop_last();
    let stack = kept(init);
    if cs.len() > 1 {
        lemma_kept_keeps_first_root(init);
        assert(init[0] == cs[0]);
        if cs.last().0 == ComponentKind::ParentDir && stack.last().0 == ComponentKind::Normal {
            assert(stack.len() > 1);
            assert(stack.drop_last()[0] == stack[0]);
        }
    } else {
        assert(init.len() == 0);
        assert(stack == Seq::<(ComponentKind, X)>::empty());
        assert(cs.last() == cs[0]);
    }
}

/// The views of parts held with executable bytes
pub open spec fn part_views(v: Seq<(ComponentKind, &[u8])>) -> Seq<(ComponentKind, Seq<u8>)> {
    v.map_values(|p: (ComponentKind, &[u8])| (p.0, p.1@))
}

impl<'a, T: Encoding> Path<'a, T> {
    /// Returns the path with `.` components dropped and each `..` resolved against the name
    /// before it; a `..` with no name before it is dropped
    pub fn normalize(&self) -> (res: PathBuf<T>)
        ensures
            res@ == spec_normalize::<T>(self@),
    {
        let path = self.as_bytes();
        let spans = T::component_spans(path);
        proof {
            T::lemma_spans_wf(path@);
        }
        let ghost all = parts::<T>(path@);
        let mut stack: Vec<(ComponentKind, &[u8])> = Vec::new();
        let mut i: usize = 0;
        while i < spans.len()
            invariant
                spans@.map_values(|t: (ComponentKind, usize, usize)| span_of(t)) == T::spec_spans(path@),
                spans_wf(T::spec_spans(path@), path@.len() as int),
                all == parts::<T>(path@),
                all.len() == spans@.len(),
                i <= spans@.len(),
                part_views(stack@) == kept(all.take(i as int)),
            decreases spans@.len() - i,
        {
            let (kind, a, b) = spans[i];
            proof {
                let m = spans@.map_values(|t: (ComponentKind, usize, usize)| span_of(t));
                assert(m[i as int] == span_of(spans@[i as int]));
                assert(0 <= m[i as int].1 <= m[i as int].2 <= path@.len());
                assert(all.take(i + 1).drop_last() =~= all.take(i as int));
                assert(all.take(i + 1).last() == all[i as int]);
            }
            let bytes = match kind {
                ComponentKind::RootDir => T::root_bytes(),
                _ => slice_subrange(path, a, b),
            };
            proof {
                assert(all[i as int] == (kind, bytes@));
            }
            let ghost before = stack@;
            match kind {
                ComponentKind::CurDir => {},
                ComponentKind::ParentDir => {
                    let n = stack.len();
                    if n > 0 && stack[n - 1].0 == ComponentKind::Normal {
                        stack.pop();
                        proof {
                            assert(part_views(before).last().0 == before.last().0);
                            assert(part_views(stack@) =~= part_views(before).drop_last());
                        }
                    }
                },
                _ => {
                    stack.push((kind, bytes));
                },
            }
            proof {
                assert(part_views(stack@) =~= kept(all.take(i + 1)));
            }
            i = i + 1;
        }
        proof {
            assert(all.take(i as int) =~= all);
        }
        let ghost ks = kept(all);
        let mut buf: PathBuf<T> = PathBuf::new();
        let mut j: usize = 0;
        while j < stack.len()
            invariant
                part_views(stack@) == ks,
                j <= stack@.len(),
                buf@ == push_all::<T>(Seq::empty(), ks.take(j as int)),
            decreases stack@.len() - j,
        {
            proof {
                assert(ks.take(j + 1).drop_last() =~= ks.take(j as int));
                assert(ks.take(j + 1).last() == ks[j as int]);
            }
            buf.push(Path::new(stack[j].1));
            j = j + 1;
        }
        proof {
            assert(ks.take(j as int) =~= ks);
        }
        buf
    }

    /// Makes the path absolute against the current directory `cwd`: an absolute path is only
    /// normalized; a relative one is joined onto `cwd` and normalized, and `None` comes back when
    /// `cwd` is not absolute
    pub fn absolutize_against(&self, cwd: Path<'_, T>) -> (res: Option<PathBuf<T>>)
        ensures
            match res {
                Some(p) => spec_absolutize::<T>(self@, cwd@) == Some(p@),
                None => spec_absolutize::<T>(self@, cwd@) is None,
            },
    {
        if self.is_absolute() {
            Some(self.normalize())
        } else if !cwd.is_absolute() {
            None
        } else {
            let joined = cwd.join(Path::new(self.as_bytes()));
            Some(joined.as_path().normalize())
        }
    }
}


/// Normalizing drops every `.`, wherever it stands: none of the parts kept from `cs` is a `.`
pub proof fn law_kept_has_no_cur_dir<X>(cs: Seq<(ComponentKind, X)>)
    ensures
        forall|i: int| 0 <= i < kept(cs).len() ==> (#[trigger] kept(cs)[i]).0 != ComponentKind::CurDir,
    decreases cs.len(),
{
    if cs.len() > 0 {
        let stack = kept(cs.drop_last());
        law_kept_has_no_cur_dir(cs.drop_last());
        let k = kept(cs);
        assert forall|i: int| 0 <= i < k.len() implies (#[trigger] k[i]).0 != ComponentKind::CurDir by {
            if cs.last().0 == ComponentKind::ParentDir && stack.len() > 0 && stack.last().0
                == ComponentKind::Normal {
                assert(k[i] == stack[i]);
            } else if cs.last().0 != ComponentKind::CurDir && cs.last().0 != ComponentKind::ParentDir {
                if i < stack.len() {
                    assert(k[i] == stack[i]);
                }
            }
        }
    }
}

/// A normalized path is built from parts of the path none of which is `.`: pushing them in turn
/// onto an empty path gives it, so every `.` of the path is resolved away, wherever it stands
pub proof fn law_normalize_resolves_every_cur_dir<T: Encoding>(path: Seq<u8>)
    ensures
        spec_normalize::<T>(path) == push_all::<T>(Seq::empty(), kept(parts::<T>(path))),
        forall|i: int|
            0 <= i < kept(parts::<T>(path)).len() ==> (#[trigger] kept(parts::<T>(path))[i]).0
                != ComponentKind::CurDir,
{
    law_kept_has_no_cur_dir(parts::<T>(path));
}

} // verus!
