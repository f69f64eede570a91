//! Borrowed paths whose bytes are given meaning by an [`Encoding`].
use core::marker::PhantomData;
use vstd::prelude::*;
use vstd::slice::slice_subrange;

use crate::common::components::{file_name_span, parent_len, span_of, spans_wf, ComponentKind};
use crate::common::encoding::Encoding;
use crate::common::errors::StripPrefixError;
use crate::constants::DOT_BYTE;
use crate::parser::{lemma_rev_run_len, rev_run_len};

verus! {

/// Contents of an optional byte slice
pub open spec fn opt_bytes(o: Option<&[u8]>) -> Option<Seq<u8>> {
    match o {
        Some(x) => Some(x@),
        None => None,
    }
}

/// Predicate that stops a scan at a `.`
pub open spec fn dot_fn() -> spec_fn(u8) -> bool {
    |b: u8| b == DOT_BYTE
}

/// `s` is `..`
pub open spec fn is_dot_dot(s: Seq<u8>) -> bool {
    s.len() == 2 && s[0] == DOT_BYTE && s[1] == DOT_BYTE
}

/// Splits a file name at its last `.`: the part before it and the part after it. A name without
/// a `.` has no part before it, and `..` or a name whose only `.` comes first has no part after
pub open spec fn spec_rsplit_file_at_dot(file: Seq<u8>) -> (Option<Seq<u8>>, Option<Seq<u8>>) {
    if is_dot_dot(file) {
        (Some(file), None)
    } else {
        let r = rev_run_len(file, dot_fn());
        if r == file.len() {
            (None, Some(file))
        } else {
            let i = file.len() - r - 1;
            if i == 0 {
                (Some(file), None)
            } else {
                (Some(file.take(i)), Some(file.skip(i + 1)))
            }
        }
    }
}

/// The stem of a file name: the part before the last `.`, or the whole name
pub open spec fn spec_stem(file: Seq<u8>) -> Option<Seq<u8>> {
    match spec_rsplit_file_at_dot(file) {
        (Some(before), _) => Some(before),
        (None, after) => after,
    }
}

/// The extension of a file name: the part after the last `.`, when there is a part before it
pub open spec fn spec_extension(file: Seq<u8>) -> Option<Seq<u8>> {
    match spec_rsplit_file_at_dot(file) {
        (Some(_), after) => after,
        (None, _) => None,
    }
}

/// The run measured by `rev_run_len` lies within `s`
pub proof fn lemma_rev_run_len_le(s: Seq<u8>, stop: spec_fn(u8) -> bool)
    ensures
        rev_run_len(s, stop) <= s.len(),
    decreases s.len(),
{
    if s.len() > 0 && !stop(s.last()) {
        lemma_rev_run_len_le(s.drop_last(), stop);
    }
}

/// The stem of a file name is a prefix of it
pub proof fn lemma_stem_prefix(file: Seq<u8>)
    ensures
        spec_stem(file) matches Some(stem) && stem.len() <= file.len() && stem == file.take(
            stem.len() as int,
        ),
{
    lemma_rev_run_len_le(file, dot_fn());
    assert(file.take(file.len() as int) =~= file);
}

/// A file name made of a stem that is not empty, a `.` and an extension without a `.` splits
/// back into that stem and that extension
pub proof fn lemma_split_stem_and_extension(stem: Seq<u8>, ext: Seq<u8>)
    requires
        stem.len() > 0,
        ext.len() > 0,
        forall|i: int| 0 <= i < ext.len() ==> #[trigger] ext[i] != DOT_BYTE,
    ensures
        spec_stem(stem.push(DOT_BYTE) + ext) == Some(stem),
        spec_extension(stem.push(DOT_BYTE) + ext) == Some(ext),
{
    let nm = stem.push(DOT_BYTE) + ext;
    let k = stem.len() as int;
    assert forall|j: int| nm.len() - ext.len() <= j < nm.len() implies !(dot_fn())(#[trigger] nm[j]) by {
        assert(nm[j] == ext[j - k - 1]);
    }
    assert(nm[nm.len() - ext.len() - 1] == DOT_BYTE);
    lemma_rev_run_len(nm, dot_fn(), ext.len() as int);
    assert(nm.take(k) =~= stem);
    assert(nm.skip(k + 1) =~= ext);
}

/// The stem of a file name that is not empty is not empty
pub proof fn lemma_stem_not_empty(name: Seq<u8>)
    requires
        name.len() > 0,
    ensures
        spec_stem(name) matches Some(stem) && stem.len() > 0,
{
    lemma_rev_run_len_le(name, dot_fn());
}

/// Splits `file` at its last `.`; see [`spec_rsplit_file_at_dot`]
pub fn rsplit_file_at_dot(file: &[u8]) -> (res: (Option<&[u8]>, Option<&[u8]>))
    ensures
        (opt_bytes(res.0), opt_bytes(res.1)) == spec_rsplit_file_at_dot(file@),
{
    if file.len() == 2 && file[0] == DOT_BYTE && file[1] == DOT_BYTE {
        return (Some(file), None);
    }
    let mut r: usize = 0;
    while r < file.len() && file[file.len() - 1 - r] != DOT_BYTE
        invariant
            r <= file@.len(),
            forall|j: int| file@.len() - r <= j < file@.len() ==> !(dot_fn())(#[trigger] file@[j]),
        decreases file@.len() - r,
    {
        r = r + 1;
    }
    proof {
        lemma_rev_run_len(file@, dot_fn(), r as int);
    }
    if r == file.len() {
        return (None, Some(file));
    }
    let i = file.len() - r - 1;
    if i == 0 {
        (Some(file), None)
    } else {
        (Some(slice_subrange(file, 0, i)), Some(slice_subrange(file, i + 1, file.len())))
    }
}

/// The file name in `path`, if its last component is a name
pub open spec fn spec_file_name<T: Encoding>(path: Seq<u8>) -> Option<Seq<u8>> {
    match file_name_span(T::spec_spans(path)) {
        Some((a, b)) => Some(path.subrange(a, b)),
        None => None,
    }
}

/// The parent of `path`: the path without its last component, which must be a name, `.` or `..`
pub open spec fn spec_parent<T: Encoding>(path: Seq<u8>) -> Option<Seq<u8>> {
    match parent_len(T::spec_spans(path)) {
        Some(n) => Some(path.take(n)),
        None => None,
    }
}

/// Component `off + i` of `path` is the same as component `i` of `other`
pub open spec fn matches_from<T: Encoding>(path: Seq<u8>, other: Seq<u8>, off: int, i: int) -> bool {
    let sp = T::spec_spans(path);
    let so = T::spec_spans(other);
    T::spec_same_component(
        sp[off + i].0,
        path.subrange(sp[off + i].1, sp[off + i].2),
        so[i].0,
        other.subrange(so[i].1, so[i].2),
    )
}

/// The components of `other` are, one for one, the components of `path` from its component `off`
/// on
pub open spec fn components_from<T: Encoding>(path: Seq<u8>, other: Seq<u8>, off: int) -> bool {
    let n = T::spec_spans(other).len();
    &&& 0 <= off
    &&& off + n <= T::spec_spans(path).len()
    &&& forall|i: int| 0 <= i < n ==> #[trigger] matches_from::<T>(path, other, off, i)
}

/// `base` is a prefix of `path`: its components are the first components of `path`
pub open spec fn spec_starts_with<T: Encoding>(path: Seq<u8>, base: Seq<u8>) -> bool {
    components_from::<T>(path, base, 0)
}

/// `child` is a suffix of `path`: its components are the last components of `path`
pub open spec fn spec_ends_with<T: Encoding>(path: Seq<u8>, child: Seq<u8>) -> bool {
    components_from::<T>(
        path,
        child,
        T::spec_spans(path).len() - T::spec_spans(child).len(),
    )
}

/// What is left of `path` once its first `k` components are taken away: the whole path when `k`
/// is 0, nothing when no component is left, and otherwise the bytes from the start of component
/// `k` to the end
pub open spec fn rest_after<T: Encoding>(path: Seq<u8>, k: int) -> Seq<u8> {
    let sp = T::spec_spans(path);
    if k == 0 {
        path
    } else if k < sp.len() {
        path.skip(sp[k].1)
    } else {
        Seq::<u8>::empty()
    }
}

/// `p` and `q` have the same components, one for one, which is what makes paths equal
pub open spec fn spec_same_components<T: Encoding>(p: Seq<u8>, q: Seq<u8>) -> bool {
    T::spec_spans(p).len() == T::spec_spans(q).len() && components_from::<T>(p, q, 0)
}

/// The path that, joined onto `base`, yields `path`, if `base` is a prefix of `path`
pub open spec fn spec_strip_prefix<T: Encoding>(path: Seq<u8>, base: Seq<u8>) -> Option<Seq<u8>> {
    if spec_starts_with::<T>(path, base) {
        Some(rest_after::<T>(path, T::spec_spans(base).len() as int))
    } else {
        None
    }
}

/// Whether the components of `q` are, one for one, the components of `p` from its component
/// `off` on; `sp` and `sq` are the components of `p` and `q`
fn components_match<T: Encoding>(
    p: &[u8],
    sp: &Vec<(ComponentKind, usize, usize)>,
    off: usize,
    q: &[u8],
    sq: &Vec<(ComponentKind, usize, usize)>,
) -> (res: bool)
    requires
        sp@.map_values(|t: (ComponentKind, usize, usize)| span_of(t)) == T::spec_spans(p@),
        sq@.map_values(|t: (ComponentKind, usize, usize)| span_of(t)) == T::spec_spans(q@),
        off + sq@.len() <= sp@.len(),
    ensures
        res == components_from::<T>(p@, q@, off as int),
{
    proof {
        T::lemma_spans_wf(p@);
        T::lemma_spans_wf(q@);
    }
    let ghost msp = sp@.map_values(|t: (ComponentKind, usize, usize)| span_of(t));
    let ghost msq = sq@.map_values(|t: (ComponentKind, usize, usize)| span_of(t));
    let n = sp.len();
    let mut i: usize = 0;
    while i < sq.len()
        invariant
            n == sp@.len(),
            msp == T::spec_spans(p@),
            msq == T::spec_spans(q@),
            msp == sp@.map_values(|t: (ComponentKind, usize, usize)| span_of(t)),
            msq == sq@.map_values(|t: (ComponentKind, usize, usize)| span_of(t)),
            spans_wf(msp, p@.len() as int),
            spans_wf(msq, q@.len() as int),
            off + sq@.len() <= sp@.len(),
            i <= sq@.len(),
            forall|j: int| 0 <= j < i ==> #[trigger] matches_from::<T>(p@, q@, off as int, j),
        decreases sq@.len() - i,
    {
        let (ka, a1, a2) = sp[off + i];
        let (kb, b1, b2) = sq[i];
        proof {
            assert(msp[off + i] == span_of(sp@[off + i]));
            assert(msq[i as int] == span_of(sq@[i as int]));
            assert(0 <= msp[off + i].1 <= msp[off + i].2 <= p@.len());
            assert(0 <= msq[i as int].1 <= msq[i as int].2 <= q@.len());
        }
        let same = T::same_component(ka, slice_subrange(p, a1, a2), kb, slice_subrange(q, b1, b2));
        if !same {
            proof {
                assert(!matches_from::<T>(p@, q@, off as int, i as int));
            }
            return false;
        }
        i = i + 1;
    }
    true
}

/// A borrowed path: a byte slice whose meaning is given by the encoding `T`
#[derive(Copy, Debug)]
pub struct Path<'a, T: Encoding> {
    /// Encoding associated with the path
    _encoding: PhantomData<T>,
    /// Path as an unparsed byte slice
    inner: &'a [u8],
}

impl<'a, T: Encoding> Clone for Path<'a, T> {
    fn clone(&self) -> (res: Self)
        ensures
            res@ == self@,
    {
        Path { _encoding: PhantomData, inner: self.inner }
    }
}

/// Paths are equal when they have the same components, so that `a//b` and `a/b` are equal
impl<'a, T: Encoding> PartialEq for Path<'a, T> {
    fn eq(&self, other: &Self) -> (res: bool) {
        self.same_components(Path::new(other.inner))
    }
}

impl<'a, T: Encoding> Eq for Path<'a, T> {}

impl<'a, T: Encoding> vstd::std_specs::cmp::PartialEqSpecImpl for Path<'a, T> {
    open spec fn obeys_eq_spec() -> bool {
        true
    }

    open spec fn eq_spec(&self, other: &Self) -> bool {
        spec_same_components::<T>(self@, other@)
    }
}

impl<'a, T: Encoding> View for Path<'a, T> {
    type V = Seq<u8>;

    closed spec fn view(&self) -> Seq<u8> {
        self.inner@
    }
}

impl<'a, T: Encoding> Path<'a, T> {
    /// Directly wraps a byte slice as a path; this is a cost-free conversion
    pub fn new(inner: &'a [u8]) -> (res: Self)
        ensures
            res@ == inner@,
    {
        Path { _encoding: PhantomData, inner }
    }

    /// Yields the underlying bytes
    pub fn as_bytes(&self) -> (res: &'a [u8])
        ensures
            res@ == self@,
    {
        self.inner
    }

    /// Returns `true` if the path has a root; see [`Encoding::has_root`]
    pub fn has_root(&self) -> (res: bool)
        ensures
            res == T::spec_has_root(self@),
    {
        T::has_root(self.inner)
    }

    /// Returns `true` if the path is absolute, i.e., independent of the current directory
    pub fn is_absolute(&self) -> (res: bool)
        ensures
            res == T::spec_is_absolute(self@),
    {
        T::is_absolute(self.inner)
    }

    /// Returns `true` if the path is relative, i.e., not absolute
    pub fn is_relative(&self) -> (res: bool)
        ensures
            res == !T::spec_is_absolute(self@),
    {
        !self.is_absolute()
    }

    /// Returns the path without its final component, if there is one; returns `None` if the path
    /// terminates in a root or prefix, or is empty
    pub fn parent(&self) -> (res: Option<Path<'a, T>>)
        ensures
            match res {
                Some(p) => spec_parent::<T>(self@) == Some(p@),
                None => spec_parent::<T>(self@) is None,
            },
    {
        match T::last_component(self.inner) {
            None => None,
            Some((kind, _, _, e)) => {
                proof {
                    T::lemma_spans_wf(self.inner@);
                    let spans = T::spec_spans(self.inner@);
                    if spans.len() >= 2 {
                        assert(0 <= spans[spans.len() - 2].2 <= self.inner@.len());
                    }
                }
                match kind {
                    ComponentKind::Normal | ComponentKind::CurDir | ComponentKind::ParentDir => {
                        Some(Path::new(slice_subrange(self.inner, 0, e)))
                    },
                    _ => None,
                }
            },
        }
    }

    /// Returns the final component of the path if it is a file or directory name; returns `None`
    /// if the path terminates in `..`, a root or a prefix
    pub fn file_name(&self) -> (res: Option<&'a [u8]>)
        ensures
            opt_bytes(res) == spec_file_name::<T>(self@),
    {
        match T::last_component(self.inner) {
            Some((ComponentKind::Normal, a, b, _)) => {
                proof {
                    T::lemma_spans_wf(self.inner@);
                    let spans = T::spec_spans(self.inner@);
                    assert(0 <= spans[spans.len() - 1].1 <= spans[spans.len() - 1].2
                        <= self.inner@.len());
                }
                Some(slice_subrange(self.inner, a, b))
            },
            _ => None,
        }
    }

    /// Extracts the stem (non-extension) portion of the file name: the whole name if it has no
    /// `.` or only a leading one, and otherwise the part before the final `.`
    pub fn file_stem(&self) -> (res: Option<&'a [u8]>)
        ensures
            opt_bytes(res) == match spec_file_name::<T>(self@) {
                Some(name) => spec_stem(name),
                None => None,
            },
    {
        match self.file_name() {
            None => None,
            Some(name) => {
                let (before, after) = rsplit_file_at_dot(name);
                match before {
                    Some(b) => Some(b),
                    None => after,
                }
            },
        }
    }

    /// Extracts the extension of the file name: the part after the final `.`, if there is one
    /// and the name does not start with it
    pub fn extension(&self) -> (res: Option<&'a [u8]>)
        ensures
            opt_bytes(res) == match spec_file_name::<T>(self@) {
                Some(name) => spec_extension(name),
                None => None,
            },
    {
        match self.file_name() {
            None => None,
            Some(name) => {
                let (before, after) = rsplit_file_at_dot(name);
                match before {
                    Some(_) => after,
                    None => None,
                }
            },
        }
    }

    /// Whether `self` and `other` have the same components, one for one
    pub fn same_components(&self, other: Path<'_, T>) -> (res: bool)
        ensures
            res == spec_same_components::<T>(self@, other@),
    {
        let sp = T::component_spans(self.inner);
        let so = T::component_spans(other.inner);
        sp.len() == so.len() && components_match::<T>(self.inner, &sp, 0, other.inner, &so)
    }

    /// Determines whether `base` is a prefix of `self`; only whole components match
    pub fn starts_with(&self, base: Path<'_, T>) -> (res: bool)
        ensures
            res == spec_starts_with::<T>(self@, base@),
    {
        let sp = T::component_spans(self.inner);
        let sb = T::component_spans(base.inner);
        sb.len() <= sp.len() && components_match::<T>(self.inner, &sp, 0, base.inner, &sb)
    }

    /// Determines whether `child` is a suffix of `self`; only whole components match
    pub fn ends_with(&self, child: Path<'_, T>) -> (res: bool)
        ensures
            res == spec_ends_with::<T>(self@, child@),
    {
        let sp = T::component_spans(self.inner);
        let sc = T::component_spans(child.inner);
        sc.len() <= sp.len() && components_match::<T>(
            self.inner,
            &sp,
            sp.len() - sc.len(),
            child.inner,
            &sc,
        )
    }

    /// Returns a path that, when joined onto `base`, yields `self`; fails if `base` is not a
    /// prefix of `self`
    pub fn strip_prefix(&self, base: Path<'_, T>) -> (res: Result<Path<'a, T>, StripPrefixError>)
        ensures
            match res {
                Ok(p) => spec_strip_prefix::<T>(self@, base@) == Some(p@),
                Err(_) => spec_strip_prefix::<T>(self@, base@) is None,
            },
    {
        let sp = T::component_spans(self.inner);
        let sb = T::component_spans(base.inner);
        if sb.len() > sp.len() || !components_match::<T>(self.inner, &sp, 0, base.inner, &sb) {
            return Err(StripPrefixError(()));
        }
        let k = sb.len();
        if k == 0 {
            Ok(Path::new(self.inner))
        } else if k < sp.len() {
            let (_, a, _) = sp[k];
            proof {
                T::lemma_spans_wf(self.inner@);
                let m = sp@.map_values(|t: (ComponentKind, usize, usize)| span_of(t));
                assert(m[k as int] == span_of(sp@[k as int]));
                assert(0 <= m[k as int].1 <= self.inner@.len());
            }
            Ok(Path::new(slice_subrange(self.inner, a, self.inner.len())))
        } else {
            Ok(Path::new(slice_subrange(self.inner, 0, 0)))
        }
    }
}

/// A path starts with itself, and taking itself away leaves nothing, or the path itself when it
/// has no components
pub proof fn law_strip_prefix_itself<T: Encoding>(path: Seq<u8>)
    ensures
        spec_starts_with::<T>(path, path),
        spec_strip_prefix::<T>(path, path) == Some(
            if T::spec_spans(path).len() == 0 {
                path
            } else {
                Seq::<u8>::empty()
            },
        ),
{
    assert forall|i: int| 0 <= i < T::spec_spans(path).len() implies #[trigger] matches_from::<T>(
        path,
        path,
        0,
        i,
    ) by {
        let sp = T::spec_spans(path);
        T::lemma_same_component_refl(sp[i].0, path.subrange(sp[i].1, sp[i].2));
    }
}

/// Every path has the same components as itself
pub proof fn law_same_components_reflexive<T: Encoding>(path: Seq<u8>)
    ensures
        spec_same_components::<T>(path, path),
{
    law_strip_prefix_itself::<T>(path);
}

/// A path has the same components as another exactly when the other has the same as it
pub proof fn law_same_components_symmetric<T: Encoding>(p: Seq<u8>, q: Seq<u8>)
    ensures
        spec_same_components::<T>(p, q) == spec_same_components::<T>(q, p),
{
    let sp = T::spec_spans(p);
    let sq = T::spec_spans(q);
    if sp.len() == sq.len() {
        assert forall|i: int| 0 <= i < sp.len() implies #[trigger] matches_from::<T>(p, q, 0, i)
            == matches_from::<T>(q, p, 0, i) by {
            T::lemma_same_component_sym(
                sp[i].0,
                p.subrange(sp[i].1, sp[i].2),
                sq[i].0,
                q.subrange(sq[i].1, sq[i].2),
            );
        }
        if spec_same_components::<T>(p, q) {
            assert forall|i: int| 0 <= i < sq.len() implies #[trigger] matches_from::<T>(q, p, 0, i) by {
                assert(matches_from::<T>(p, q, 0, i));
            }
        }
        if spec_same_components::<T>(q, p) {
            assert forall|i: int| 0 <= i < sp.len() implies #[trigger] matches_from::<T>(p, q, 0, i) by {
                assert(matches_from::<T>(q, p, 0, i));
            }
        }
    }
}

/// Paths with the same components as a third have the same components as each other
pub proof fn law_same_components_transitive<T: Encoding>(p: Seq<u8>, q: Seq<u8>, r: Seq<u8>)
    requires
        spec_same_components::<T>(p, q),
        spec_same_components::<T>(q, r),
    ensures
        spec_same_components::<T>(p, r),
{
    let sp = T::spec_spans(p);
    let sq = T::spec_spans(q);
    let sr = T::spec_spans(r);
    assert forall|i: int| 0 <= i < sr.len() implies #[trigger] matches_from::<T>(p, r, 0, i) by {
        assert(matches_from::<T>(p, q, 0, i));
        assert(matches_from::<T>(q, r, 0, i));
        T::lemma_same_component_trans(
            sp[i].0,
            p.subrange(sp[i].1, sp[i].2),
            sq[i].0,
            q.subrange(sq[i].1, sq[i].2),
            sr[i].0,
            r.subrange(sr[i].1, sr[i].2),
        );
    }
}

/// A path ends with itself
pub proof fn law_ends_with_itself<T: Encoding>(path: Seq<u8>)
    ensures
        spec_ends_with::<T>(path, path),
{
    assert forall|i: int| 0 <= i < T::spec_spans(path).len() implies #[trigger] matches_from::<T>(
        path,
        path,
        0,
        i,
    ) by {
        let sp = T::spec_spans(path);
        T::lemma_same_component_refl(sp[i].0, path.subrange(sp[i].1, sp[i].2));
    }
}

/// Stripping `base` off a path succeeds exactly when the path starts with `base`
pub proof fn law_strip_prefix_iff_starts_with<T: Encoding>(path: Seq<u8>, base: Seq<u8>)
    ensures
        spec_strip_prefix::<T>(path, base) is Some <==> spec_starts_with::<T>(path, base),
{
}

/// A file name with an extension is its stem, a `.` and the extension
pub proof fn law_stem_dot_extension(file: Seq<u8>)
    requires
        spec_extension(file) is Some,
    ensures
        file == spec_stem(file).unwrap() + seq![DOT_BYTE] + spec_extension(file).unwrap(),
{
    lemma_rev_run_len_le(file, dot_fn());
    let r = rev_run_len(file, dot_fn());
    let i = file.len() - r - 1;
    assert(file =~= file.take(i) + seq![DOT_BYTE] + file.skip(i + 1)) by {
        lemma_rev_run_len_dot(file);
    }
}

/// The byte before the run measured by `rev_run_len` is the one that stops it
proof fn lemma_rev_run_len_dot(file: Seq<u8>)
    requires
        rev_run_len(file, dot_fn()) < file.len(),
    ensures
        file[file.len() - rev_run_len(file, dot_fn()) - 1] == DOT_BYTE,
    decreases file.len(),
{
    if file.len() > 0 && !(dot_fn())(file.last()) {
        lemma_rev_run_len_dot(file.drop_last());
        assert(file.drop_last()[file.drop_last().len() - rev_run_len(file.drop_last(), dot_fn()) - 1]
            == file[file.len() - rev_run_len(file, dot_fn()) - 1]);
    }
}


/// A path ends with `child` exactly when `child` has no more components than the path and, counted
/// from the end, each component of `child` is the same as the component of the path in the same
/// place from the end; this holds whether or not `child` is absolute
pub proof fn law_ends_with_compares_from_the_end<T: Encoding>(path: Seq<u8>, child: Seq<u8>)
    ensures
        spec_ends_with::<T>(path, child) <==> ({
            let sp = T::spec_spans(path);
            let sc = T::spec_spans(child);
            &&& sc.len() <= sp.len()
            &&& forall|j: int|
                1 <= j <= sc.len() ==> #[trigger] T::spec_same_component(
                    sp[sp.len() - j].0,
                    path.subrange(sp[sp.len() - j].1, sp[sp.len() - j].2),
                    sc[sc.len() - j].0,
                    child.subrange(sc[sc.len() - j].1, sc[sc.len() - j].2),
                )
        }),
{
    let sp = T::spec_spans(path);
    let sc = T::spec_spans(child);
    let off = sp.len() - sc.len();
    if spec_ends_with::<T>(path, child) {
        assert forall|j: int| 1 <= j <= sc.len() implies #[trigger] T::spec_same_component(
            sp[sp.len() - j].0,
            path.subrange(sp[sp.len() - j].1, sp[sp.len() - j].2),
            sc[sc.len() - j].0,
            child.subrange(sc[sc.len() - j].1, sc[sc.len() - j].2),
        ) by {
            let i = sc.len() - j;
            assert(matches_from::<T>(path, child, off, i));
            assert(off + i == sp.len() - j);
        }
    }
    if sc.len() <= sp.len() && (forall|j: int|
        1 <= j <= sc.len() ==> #[trigger] T::spec_same_component(
            sp[sp.len() - j].0,
            path.subrange(sp[sp.len() - j].1, sp[sp.len() - j].2),
            sc[sc.len() - j].0,
            child.subrange(sc[sc.len() - j].1, sc[sc.len() - j].2),
        )) {
        assert forall|i: int| 0 <= i < sc.len() implies #[trigger] matches_from::<T>(
            path,
            child,
            off,
            i,
        ) by {
            let j = sc.len() - i;
            assert(T::spec_same_component(
                sp[sp.len() - j].0,
                path.subrange(sp[sp.len() - j].1, sp[sp.len() - j].2),
                sc[sc.len() - j].0,
                child.subrange(sc[sc.len() - j].1, sc[sc.len() - j].2),
            ));
            assert(off + i == sp.len() - j);
        }
    }
}


/// A path starts with `base` exactly when `base` has no more components than the path and each
/// component of `base` is the same as the component of the path in the same place from the start
pub proof fn law_starts_with_compares_from_the_start<T: Encoding>(path: Seq<u8>, base: Seq<u8>)
    ensures
        spec_starts_with::<T>(path, base) <==> ({
            let sp = T::spec_spans(path);
            let sb = T::spec_spans(base);
            &&& sb.len() <= sp.len()
            &&& forall|i: int|
                0 <= i < sb.len() ==> #[trigger] T::spec_same_component(
                    sp[i].0,
                    path.subrange(sp[i].1, sp[i].2),
                    sb[i].0,
                    base.subrange(sb[i].1, sb[i].2),
                )
        }),
{
    let sp = T::spec_spans(path);
    let sb = T::spec_spans(base);
    if spec_starts_with::<T>(path, base) {
        assert forall|i: int| 0 <= i < sb.len() implies #[trigger] T::spec_same_component(
            sp[i].0,
            path.subrange(sp[i].1, sp[i].2),
            sb[i].0,
            base.subrange(sb[i].1, sb[i].2),
        ) by {
            assert(matches_from::<T>(path, base, 0, i));
        }
    }
    if sb.len() <= sp.len() && (forall|i: int|
        0 <= i < sb.len() ==> #[trigger] T::spec_same_component(
            sp[i].0,
            path.subrange(sp[i].1, sp[i].2),
            sb[i].0,
            base.subrange(sb[i].1, sb[i].2),
        )) {
        assert forall|i: int| 0 <= i < sb.len() implies #[trigger] matches_from::<T>(
            path,
            base,
            0,
            i,
        ) by {
            assert(T::spec_same_component(
                sp[i].0,
                path.subrange(sp[i].1, sp[i].2),
                sb[i].0,
                base.subrange(sb[i].1, sb[i].2),
            ));
        }
    }
}

} // verus!
