//! Separators of byte strings: finding them and splitting around them.
use core::marker::PhantomData;
use vstd::prelude::*;
use vstd::slice::slice_subrange;

verus! {

/// `sep` occurs in `bytes` at offset `i`
pub open spec fn occurs_at(bytes: Seq<u8>, sep: Seq<u8>, i: int) -> bool {
    0 <= i && i + sep.len() <= bytes.len() && bytes.subrange(i, i + sep.len()) == sep
}

/// First offset at or after `i` where `sep` occurs in `bytes`
pub open spec fn find_from(bytes: Seq<u8>, sep: Seq<u8>, i: int) -> Option<int>
    decreases bytes.len() + 1 - i,
{
    if i < 0 || i + sep.len() > bytes.len() {
        None
    } else if occurs_at(bytes, sep, i) {
        Some(i)
    } else {
        find_from(bytes, sep, i + 1)
    }
}

/// Last offset at or before `i` where `sep` occurs in `bytes`
pub open spec fn rfind_from(bytes: Seq<u8>, sep: Seq<u8>, i: int) -> Option<int>
    decreases i + 1,
{
    if i < 0 {
        None
    } else if occurs_at(bytes, sep, i) {
        Some(i)
    } else {
        rfind_from(bytes, sep, i - 1)
    }
}

/// First offset where a non-empty `sep` occurs in `bytes`
pub open spec fn spec_find(bytes: Seq<u8>, sep: Seq<u8>) -> Option<int> {
    if sep.len() == 0 || bytes.len() == 0 || sep.len() > bytes.len() {
        None
    } else {
        find_from(bytes, sep, 0)
    }
}

/// Last offset where a non-empty `sep` occurs in `bytes`
pub open spec fn spec_rfind(bytes: Seq<u8>, sep: Seq<u8>) -> Option<int> {
    if sep.len() == 0 || bytes.len() == 0 || sep.len() > bytes.len() {
        None
    } else {
        rfind_from(bytes, sep, bytes.len() - sep.len())
    }
}

/// The bytes before and after the first occurrence of `sep`
pub open spec fn spec_split_once(bytes: Seq<u8>, sep: Seq<u8>) -> Option<(Seq<u8>, Seq<u8>)> {
    match spec_find(bytes, sep) {
        Some(i) => Some((bytes.take(i), bytes.skip(i + sep.len()))),
        None => None,
    }
}

/// The bytes before and after the last occurrence of `sep`
pub open spec fn spec_rsplit_once(bytes: Seq<u8>, sep: Seq<u8>) -> Option<(Seq<u8>, Seq<u8>)> {
    match spec_rfind(bytes, sep) {
        Some(i) => Some((bytes.take(i), bytes.skip(i + sep.len()))),
        None => None,
    }
}

/// `find_from` gives an occurrence, the first one
pub proof fn lemma_find_from(bytes: Seq<u8>, sep: Seq<u8>, i: int)
    requires
        0 <= i,
    ensures
        match find_from(bytes, sep, i) {
            Some(j) => i <= j && occurs_at(bytes, sep, j) && forall|k: int|
                i <= k < j ==> !occurs_at(bytes, sep, k),
            None => forall|k: int| i <= k ==> !occurs_at(bytes, sep, k),
        },
    decreases bytes.len() + 1 - i,
{
    if i + sep.len() <= bytes.len() && !occurs_at(bytes, sep, i) {
        lemma_find_from(bytes, sep, i + 1);
    }
}

/// Whether `sep` occurs in `bytes` at offset `i`
fn matches_at(bytes: &[u8], sep: &[u8], i: usize) -> (res: bool)
    requires
        i + sep@.len() <= bytes@.len(),
    ensures
        res == occurs_at(bytes@, sep@, i as int),
{
    let n: usize = bytes.len();
    let mut j: usize = 0;
    while j < sep.len()
        invariant
            n == bytes@.len(),
            i + sep@.len() <= bytes@.len(),
            j <= sep@.len(),
            forall|k: int| 0 <= k < j ==> bytes@[i + k] == sep@[k],
        decreases sep@.len() - j,
    {
        if bytes[i + j] != sep[j] {
            proof {
                assert(bytes@.subrange(i as int, i + sep@.len())[j as int] != sep@[j as int]);
            }
            return false;
        }
        j = j + 1;
    }
    proof {
        assert(bytes@.subrange(i as int, i + sep@.len()) =~= sep@);
    }
    true
}

/// Something that separates a byte string into parts
pub trait Separator: Sized {
    /// Bytes of the separator
    spec fn spec_bytes() -> Seq<u8>;

    /// Bytes of the separator
    fn as_bytes() -> (res: &'static [u8])
        ensures
            res@ == Self::spec_bytes(),
    ;

    /// Length of the separator in bytes
    fn len() -> (res: usize)
        ensures
            res == Self::spec_bytes().len(),
    {
        Self::as_bytes().len()
    }

    /// Offset of the first occurrence of the separator in `bytes`
    fn find(bytes: &[u8]) -> (res: Option<usize>)
        ensures
            match res {
                Some(i) => spec_find(bytes@, Self::spec_bytes()) == Some(i as int),
                None => spec_find(bytes@, Self::spec_bytes()) is None,
            },
    {
        let len = bytes.len();
        let sep_bytes = Self::as_bytes();
        let sep_len = sep_bytes.len();
        if sep_len == 0 || len == 0 || sep_len > len {
            return None;
        }
        let mut i: usize = 0;
        while i <= len - sep_len
            invariant
                len == bytes@.len(),
                sep_len == sep_bytes@.len(),
                sep_bytes@ == Self::spec_bytes(),
                0 < sep_len <= len,
                i <= len - sep_len + 1,
                find_from(bytes@, sep_bytes@, 0) == find_from(bytes@, sep_bytes@, i as int),
            decreases len - sep_len + 1 - i,
        {
            if matches_at(bytes, sep_bytes, i) {
                return Some(i);
            }
            i = i + 1;
        }
        None
    }

    /// Offset of the last occurrence of the separator in `bytes`
    fn rfind(bytes: &[u8]) -> (res: Option<usize>)
        ensures
            match res {
                Some(i) => spec_rfind(bytes@, Self::spec_bytes()) == Some(i as int),
                None => spec_rfind(bytes@, Self::spec_bytes()) is None,
            },
    {
        let len = bytes.len();
        let sep_bytes = Self::as_bytes();
        let sep_len = sep_bytes.len();
        if sep_len == 0 || len == 0 || sep_len > len {
            return None;
        }
        let mut i: usize = len - sep_len + 1;
        while i > 0
            invariant
                len == bytes@.len(),
                sep_len == sep_bytes@.len(),
                sep_bytes@ == Self::spec_bytes(),
                0 < sep_len <= len,
                i <= len - sep_len + 1,
                rfind_from(bytes@, sep_bytes@, len - sep_len) == rfind_from(
                    bytes@,
                    sep_bytes@,
                    i - 1,
                ),
            decreases i,
        {
            if matches_at(bytes, sep_bytes, i - 1) {
                return Some(i - 1);
            }
            i = i - 1;
        }
        None
    }

    /// Whether `bytes` starts with the separator
    fn starts_with(bytes: &[u8]) -> (res: bool)
        ensures
            res == occurs_at(bytes@, Self::spec_bytes(), 0),
    {
        let sep = Self::as_bytes();
        if sep.len() > bytes.len() {
            return false;
        }
        matches_at(bytes, sep, 0)
    }

    /// Whether `bytes` ends with the separator
    fn ends_with(bytes: &[u8]) -> (res: bool)
        ensures
            res == occurs_at(bytes@, Self::spec_bytes(), bytes@.len() - Self::spec_bytes().len()),
    {
        let sep = Self::as_bytes();
        if sep.len() > bytes.len() {
            return false;
        }
        matches_at(bytes, sep, bytes.len() - sep.len())
    }

    /// The bytes before and after the first occurrence of the separator
    fn split_once(bytes: &[u8]) -> (res: Option<(&[u8], &[u8])>)
        ensures
            match res {
                Some((a, b)) => spec_split_once(bytes@, Self::spec_bytes()) == Some((a@, b@)),
                None => spec_split_once(bytes@, Self::spec_bytes()) is None,
            },
    {
        let n = Self::len();
        if bytes.len() < n {
            return None;
        }
        match Self::find(bytes) {
            Some(i) => {
                proof {
                    lemma_find_from(bytes@, Self::spec_bytes(), 0);
                }
                Some((slice_subrange(bytes, 0, i), slice_subrange(bytes, i + n, bytes.len())))
            },
            None => None,
        }
    }

    /// The bytes before and after the last occurrence of the separator
    fn rsplit_once(bytes: &[u8]) -> (res: Option<(&[u8], &[u8])>)
        ensures
            match res {
                Some((a, b)) => spec_rsplit_once(bytes@, Self::spec_bytes()) == Some((a@, b@)),
                None => spec_rsplit_once(bytes@, Self::spec_bytes()) is None,
            },
    {
        let n = Self::len();
        if bytes.len() < n {
            return None;
        }
        match Self::rfind(bytes) {
            Some(i) => {
                proof {
                    lemma_rfind_from(bytes@, Self::spec_bytes(), bytes@.len() - Self::spec_bytes().len());
                }
                Some((slice_subrange(bytes, 0, i), slice_subrange(bytes, i + n, bytes.len())))
            },
            None => None,
        }
    }

    /// Iterator over the parts of `bytes` between occurrences of the separator, from the front
    fn split(bytes: &[u8]) -> (res: SeparatorSplit<'_, Self>)
        ensures
            res@ == Some(bytes@),
    {
        SeparatorSplit { _separator: PhantomData, inner: Some(bytes) }
    }

    /// Iterator over the parts of `bytes` between occurrences of the separator, from the back
    fn rsplit(bytes: &[u8]) -> (res: SeparatorRSplit<'_, Self>)
        ensures
            res@ == Some(bytes@),
    {
        SeparatorRSplit { _separator: PhantomData, inner: Some(bytes) }
    }
}

/// `rfind_from` gives an occurrence, the last one
pub proof fn lemma_rfind_from(bytes: Seq<u8>, sep: Seq<u8>, i: int)
    ensures
        match rfind_from(bytes, sep, i) {
            Some(j) => j <= i && occurs_at(bytes, sep, j) && forall|k: int|
                j < k <= i ==> !occurs_at(bytes, sep, k),
            None => forall|k: int| k <= i ==> !occurs_at(bytes, sep, k),
        },
    decreases i + 1,
{
    if i >= 0 && !occurs_at(bytes, sep, i) {
        lemma_rfind_from(bytes, sep, i - 1);
    }
}

/// Iterator over the parts of a byte string between occurrences of a separator, from the front
pub struct SeparatorSplit<'a, S> {
    _separator: PhantomData<S>,
    inner: Option<&'a [u8]>,
}

impl<'a, S> View for SeparatorSplit<'a, S> {
    /// What is left to split, if anything
    type V = Option<Seq<u8>>;

    closed spec fn view(&self) -> Option<Seq<u8>> {
        match self.inner {
            Some(b) => Some(b@),
            None => None,
        }
    }
}

impl<'a, S: Separator> SeparatorSplit<'a, S> {
    /// The next part: everything before the first separator left, or all that is left
    pub fn next(&mut self) -> (res: Option<&'a [u8]>)
        ensures
            match old(self)@ {
                None => res is None && final(self)@ is None,
                Some(b) => match spec_split_once(b, S::spec_bytes()) {
                    Some((item, rest)) => (res matches Some(r) && r@ == item) && final(self)@
                        == Some(rest),
                    None => (res matches Some(r) && r@ == b) && final(self)@ is None,
                },
            },
    {
        match self.inner.take() {
            Some(bytes) => match S::split_once(bytes) {
                Some((item, remaining)) => {
                    self.inner = Some(remaining);
                    Some(item)
                },
                None => Some(bytes),
            },
            None => None,
        }
    }
}

/// Iterator over the parts of a byte string between occurrences of a separator, from the back
pub struct SeparatorRSplit<'a, S> {
    _separator: PhantomData<S>,
    inner: Option<&'a [u8]>,
}

impl<'a, S> View for SeparatorRSplit<'a, S> {
    /// What is left to split, if anything
    type V = Option<Seq<u8>>;

    closed spec fn view(&self) -> Option<Seq<u8>> {
        match self.inner {
            Some(b) => Some(b@),
            None => None,
        }
    }
}

impl<'a, S: Separator> SeparatorRSplit<'a, S> {
    /// The next part from the back: everything after the last separator left, or all that is
    /// left
    pub fn next(&mut self) -> (res: Option<&'a [u8]>)
        ensures
            match old(self)@ {
                None => res is None && final(self)@ is None,
                Some(b) => match spec_rsplit_once(b, S::spec_bytes()) {
                    Some((rest, item)) => (res matches Some(r) && r@ == item) && final(self)@
                        == Some(rest),
                    None => (res matches Some(r) && r@ == b) && final(self)@ is None,
                },
            },
    {
        match self.inner.take() {
            Some(bytes) => match S::rsplit_once(bytes) {
                Some((remaining, item)) => {
                    self.inner = Some(remaining);
                    Some(item)
                },
                None => Some(bytes),
            },
            None => None,
        }
    }
}

/// A separator made of the single byte `B`
pub struct ByteSeparator<const B: u8>;

impl<const B: u8> Separator for ByteSeparator<B> {
    open spec fn spec_bytes() -> Seq<u8> {
        seq![B]
    }

    fn as_bytes() -> (res: &'static [u8]) {
        let r: &'static [u8] = &[B];
        proof {
            assert(r@ =~= seq![B]);
        }
        r
    }
}

/// A separator made of the single ASCII character whose code is `C`
pub struct CharSeparator<const C: u8>;

impl<const C: u8> Separator for CharSeparator<C> {
    open spec fn spec_bytes() -> Seq<u8> {
        seq![C]
    }

    fn as_bytes() -> (res: &'static [u8]) {
        let r: &'static [u8] = &[C];
        proof {
            assert(r@ =~= seq![C]);
        }
        r
    }
}

} // verus!
