//! Types marking slices as being sorted.
use vstd::prelude::*;

verus! {

/// `s` is in ascending order (equal items allowed).
pub open spec fn is_sorted(s: Seq<u32>) -> bool {
    forall|a: int, b: int| 0 <= a <= b < s.len() ==> s[a] <= s[b]
}

/// `s` is in strictly ascending order: no item occurs twice.
pub open spec fn is_strictly_sorted(s: Seq<u32>) -> bool {
    forall|a: int, b: int| 0 <= a < b < s.len() ==> s[a] < s[b]
}

/// The keys of `s` are in ascending order (equal keys allowed).
pub open spec fn is_key_sorted<V>(s: Seq<(u32, V)>) -> bool {
    forall|a: int, b: int| 0 <= a <= b < s.len() ==> s[a].0 <= s[b].0
}

/// Calls `<[u32]>::sort_unstable`, which the standard library documents as
/// sorting the slice in ascending order; the items are only moved around.
#[verifier::external_body]
fn sort_u32(v: &mut Vec<u32>)
    ensures
        is_sorted(final(v)@),
        final(v)@.to_multiset() == old(v)@.to_multiset(),
{
    v.sort_unstable();
}

/// Calls `<[(K, V)]>::sort_unstable_by` with a comparison of the keys, which
/// the standard library documents as sorting the slice so that the keys are
/// in ascending order; the items are only moved around.
#[verifier::external_body]
fn sort_by_key_u32<V>(v: &mut Vec<(u32, V)>)
    ensures
        is_key_sorted(final(v)@),
        final(v)@.to_multiset() == old(v)@.to_multiset(),
{
    v.sort_unstable_by(|l, r| l.0.cmp(&r.0));
}

/// What `<[u32]>::binary_search` returns when looking for `x` in `s`.
pub uninterp spec fn binary_search_result(s: Seq<u32>, x: u32) -> Result<usize, usize>;

/// Calls `<[u32]>::binary_search`. The standard library documents that, on a
/// sorted slice, it returns `Ok` with the index of one of the items equal to
/// `x`, or `Err` with the index where `x` could be inserted while keeping the
/// slice sorted when no item is equal to `x`. Which index among several equal
/// items is left unsaid by the documentation; the call depends only on its
/// arguments.
#[verifier::external_body]
pub(crate) fn binary_search(s: &[u32], x: u32) -> (r: Result<usize, usize>)
    requires
        is_sorted(s@),
    ensures
        r == binary_search_result(s@, x),
        r matches Ok(i) ==> i < s@.len() && s@[i as int] == x,
        r matches Err(i) ==> i <= s@.len() && !s@.contains(x) && (forall|k: int|
            0 <= k < i ==> #[trigger] s@[k] < x) && (forall|k: int|
            i <= k < s@.len() ==> #[trigger] s@[k] > x),
{
    s.binary_search(&x)
}

/// A `Vec<u32>` where all elements are sorted in ascending order.
#[derive(Debug, PartialEq, Eq, Default)]
pub struct Sorted(Vec<u32>);

impl View for Sorted {
    type V = Seq<u32>;

    closed spec fn view(&self) -> Seq<u32> {
        self.0@
    }
}

impl Sorted {
    #[verifier::type_invariant]
    closed spec fn inv(self) -> bool {
        is_sorted(self.0@)
    }

    /// A [`Sorted`] of `value`, which is already sorted.
    pub fn from_sorted(value: Vec<u32>) -> (r: Self)
        requires
            is_sorted(value@),
        ensures
            r@ == value@,
    {
        Sorted(value)
    }

    /// Sort `value` into a [`Sorted`].
    pub fn from_vec(value: Vec<u32>) -> (r: Self)
        ensures
            is_sorted(r@),
            r@.to_multiset() == value@.to_multiset(),
    {
        let mut value = value;
        sort_u32(&mut value);
        Sorted(value)
    }

    /// The sorted items.
    pub fn slice(&self) -> (r: &[u32])
        ensures
            r@ == self@,
            is_sorted(r@),
    {
        proof {
            use_type_invariant(self);
        }
        self.0.as_slice()
    }

    /// How many items this holds.
    pub fn len(&self) -> (r: usize)
        ensures
            r == self@.len(),
    {
        self.0.len()
    }

    /// The item at index `i`, `None` when `i` is out of bound.
    pub fn get(&self, i: usize) -> (r: Option<u32>)
        ensures
            r is Some <==> i < self@.len(),
            r matches Some(v) ==> v == self@[i as int],
    {
        if i < self.0.len() {
            Some(self.0[i])
        } else {
            None
        }
    }

    /// Like [`binary_search`], on the sorted items.
    pub fn binary_search(&self, x: u32) -> (r: Result<usize, usize>)
        ensures
            r == binary_search_result(self@, x),
            r matches Ok(i) ==> i < self@.len() && self@[i as int] == x,
            r matches Err(i) ==> i <= self@.len() && !self@.contains(x),
            is_sorted(self@),
    {
        proof {
            use_type_invariant(self);
        }
        binary_search(self.0.as_slice(), x)
    }

    /// The sorted items.
    pub fn into_inner(self) -> (r: Vec<u32>)
        ensures
            r@ == self@,
    {
        self.0
    }
}

/// A `Vec<(u32, V)>` where all elements are sorted in ascending order
/// according to their key.
#[derive(Debug, PartialEq, Eq, Default)]
pub struct KeySorted<V>(Vec<(u32, V)>);

impl<V> View for KeySorted<V> {
    type V = Seq<(u32, V)>;

    closed spec fn view(&self) -> Seq<(u32, V)> {
        self.0@
    }
}

impl<V> KeySorted<V> {
    #[verifier::type_invariant]
    closed spec fn inv(self) -> bool {
        is_key_sorted(self.0@)
    }

    /// Sort `value` by key into a [`KeySorted`].
    pub fn from_vec(value: Vec<(u32, V)>) -> (r: Self)
        ensures
            is_key_sorted(r@),
            r@.to_multiset() == value@.to_multiset(),
    {
        let mut value = value;
        sort_by_key_u32(&mut value);
        KeySorted(value)
    }

    /// Iterate over the key-value pairs, by ascending keys.
    pub fn iter(&self) -> (r: KeysortedIter<'_, V>)
        ensures
            r.wf(),
            r@ == self@,
            is_key_sorted(r@),
    {
        proof {
            use_type_invariant(self);
        }
        KeysortedIter { items: self.0.as_slice(), pos: 0 }
    }

    /// The pairs, sorted by key.
    pub fn into_inner(self) -> (r: Vec<(u32, V)>)
        ensures
            r@ == self@,
    {
        self.0
    }
}

/// Iterator over the pairs of a [`KeySorted`], see [`KeySorted::iter`].
pub struct KeysortedIter<'a, V> {
    items: &'a [(u32, V)],
    pos: usize,
}

impl<'a, V> View for KeysortedIter<'a, V> {
    type V = Seq<(u32, V)>;

    closed spec fn view(&self) -> Seq<(u32, V)> {
        self.items@.subrange(self.pos as int, self.items@.len() as int)
    }
}

impl<'a, V> KeysortedIter<'a, V> {
    /// The position is within the pairs.
    pub closed spec fn wf(&self) -> bool {
        self.pos <= self.items@.len()
    }

    /// The next pair.
    pub fn next(&mut self) -> (r: Option<(&'a u32, &'a V)>)
        requires
            old(self).wf(),
        ensures
            final(self).wf(),
            old(self)@.len() == 0 ==> r is None && final(self)@ == old(self)@,
            old(self)@.len() > 0 ==> (r matches Some((k, v)) && (*k, *v) == old(self)@[0]),
            old(self)@.len() > 0 ==> final(self)@ == old(self)@.drop_first(),
    {
        if self.pos >= self.items.len() {
            return None;
        }
        let item = &self.items[self.pos];
        self.pos = self.pos + 1;
        proof {
            assert(final(self)@ =~= old(self)@.drop_first());
        }
        Some((&item.0, &item.1))
    }

    /// How many pairs are left.
    pub fn len(&self) -> (r: usize)
        requires
            self.wf(),
        ensures
            r == self@.len(),
    {
        self.items.len() - self.pos
    }
}

} // verus!
