//! An N-to-M mapping of small integers stored in a [`BitMatrix`].
use vstd::prelude::*;

use std::marker::PhantomData;

use crate::bitmatrix::{cell, BitMatrix};
use crate::bitset::{lemma_ones_seq, ones_seq};
use crate::Index;

verus! {

/// An N-to-M mapping of small integers, each key being a row of a
/// [`BitMatrix`] and each associated value a column enabled in that row.
#[derive(Debug)]
pub struct IndexMultimap<K: Index, V: From<usize>> {
    assocs: BitMatrix,
    width: usize,
    _idx_ty: PhantomData<(K, V)>,
}

impl<K: Index, V: From<usize>> IndexMultimap<K, V> {
    /// The association matrix.
    pub closed spec fn bits(&self) -> Seq<bool> {
        self.assocs@
    }

    /// The association matrix length fits a `usize`.
    pub closed spec fn wf(&self) -> bool {
        self.assocs.wf()
    }

    /// The width of the rows of the association matrix.
    pub closed spec fn row_width(&self) -> nat {
        self.width as nat
    }

    /// The values associated with `index`: `V::from(column)` for each enabled
    /// column of row `index`, in ascending column order.
    ///
    /// # Panics
    ///
    /// When row `index` goes beyond the association matrix.
    pub fn get(&self, index: K) -> (r: Vec<V>)
        requires
            self.wf(),
            index.spec_index() + 1 <= usize::MAX,
            (index.spec_index() + 1) * self.row_width() <= self.bits().len(),
            (index.spec_index() + 1) * self.row_width() <= 0x1_0000_0000,
        ensures
            r@.len() == ones_seq(
                self.bits(),
                (index.spec_index() * self.row_width()) as int,
                ((index.spec_index() + 1) * self.row_width()) as int,
            ).len(),
            forall|k: int|
                0 <= k < r@.len() ==> <V as vstd::std_specs::convert::FromSpec<usize>>::obeys_from_spec() ==> #[trigger] r@[k] == <V as vstd::std_specs::convert::FromSpec<usize>>::from_spec(
                    (ones_seq(
                        self.bits(),
                        (index.spec_index() * self.row_width()) as int,
                        ((index.spec_index() + 1) * self.row_width()) as int,
                    )[k] - index.spec_index() * self.row_width()) as usize,
                ),
    {
        let row = index.get();
        let cols = self.assocs.row(self.width, row);
        let ghost start = row * self.width;
        let mut out: Vec<V> = Vec::new();
        let mut i: usize = 0;
        while i < cols.len()
            invariant
                i <= cols@.len(),
                out@.len() == i,
                forall|k: int|
                    0 <= k < i ==> <V as vstd::std_specs::convert::FromSpec<usize>>::obeys_from_spec() ==> #[trigger] out@[k] == <V as vstd::std_specs::convert::FromSpec<usize>>::from_spec(
                        cols@[k],
                    ),
            decreases cols@.len() - i,
        {
            out.push(V::from(cols[i]));
            i = i + 1;
        }
        out
    }
}

impl<K: Index, V: From<usize> + Index> IndexMultimap<K, V> {
    /// Create a [`IndexMultimap`] with all associations of `pairs`.
    ///
    /// The rows are one column wider than the largest value, and there is
    /// one row per key up to the largest: the association `(k, v)` enables
    /// the cell at column `v` of row `k`, and no other cell is enabled.
    pub fn from_pairs(pairs: Vec<(K, V)>) -> (r: Self)
        requires
            pairs_fit(pairs@),
        ensures
            r.wf(),
            r.row_width() == max_value_of(pairs@) + 1,
            r.bits().len() == matrix_len(pairs@),
            (max_key_of(pairs@) + 1) * r.row_width() <= r.bits().len(),
            forall|k: int, v: int|
                0 <= k <= max_key_of(pairs@) && 0 <= v <= max_value_of(pairs@) ==> (#[trigger] cell(
                    r.bits(),
                    r.row_width() as int,
                    v,
                    k,
                ) <==> exists|j: int|
                    0 <= j < pairs@.len() && pairs@[j].0.spec_index() == k && pairs@[j].1.spec_index()
                        == v),
            forall|p: int|
                0 <= p < r.bits().len() ==> (#[trigger] r.bits()[p] <==> exists|j: int|
                    0 <= j < pairs@.len() && p == pairs@[j].0.spec_index() * (max_value_of(pairs@) + 1)
                        + pairs@[j].1.spec_index()),
    {
        let mut max_value: usize = 0;
        let mut max_key: usize = 0;
        let mut i: usize = 0;
        while i < pairs.len()
            invariant
                i <= pairs@.len(),
                max_value == max_value_of(pairs@.take(i as int)),
                max_key == max_key_of(pairs@.take(i as int)),
            decreases pairs@.len() - i,
        {
            let k = pairs[i].0.get();
            let v = pairs[i].1.get();
            proof {
                assert(pairs@.take(i + 1).drop_last() =~= pairs@.take(i as int));
            }
            if k > max_key {
                max_key = k;
            }
            if v > max_value {
                max_value = v;
            }
            i = i + 1;
        }
        proof {
            assert(pairs@.take(pairs@.len() as int) =~= pairs@);
            lemma_max_of(pairs@);
            let w = max_value_of(pairs@) + 1;
            let h = max_key_of(pairs@) + 1;
            assert(w <= w * h && h <= w * h) by (nonlinear_arith)
                requires
                    w >= 1,
                    h >= 1,
            ;
        }
        let width = max_value + 1;
        let height = max_key + 1;
        let mut assocs = BitMatrix::new_with_size(width, height);
        proof {
            assert(width * height <= ((width * height + 3) / 4) * 32) by (nonlinear_arith);
        }
        let mut i: usize = 0;
        while i < pairs.len()
            invariant
                i <= pairs@.len(),
                width == max_value_of(pairs@) + 1,
                height == max_key_of(pairs@) + 1,
                pairs_fit(pairs@),
                forall|j: int|
                    0 <= j < pairs@.len() ==> #[trigger] pairs@[j].0.spec_index() <= max_key_of(pairs@)
                        && pairs@[j].1.spec_index() <= max_value_of(pairs@),
                assocs.wf(),
                assocs.0.0@.len() == (width * height + 3) / 4,
                assocs@.len() == matrix_len(pairs@),
                width * height <= assocs@.len(),
                forall|p: int|
                    0 <= p < assocs@.len() ==> (#[trigger] assocs@[p] <==> exists|j: int|
                        0 <= j < i && p == pairs@[j].0.spec_index() * width
                            + pairs@[j].1.spec_index()),
            decreases pairs@.len() - i,
        {
            let k = pairs[i].0.get();
            let v = pairs[i].1.get();
            assert(pairs@[i as int].0.spec_index() <= max_key_of(pairs@));
            proof {
                assert(width * k == k * width) by (nonlinear_arith);
                assert(k * width + v < width * height) by (nonlinear_arith)
                    requires
                        k < height,
                        v < width,
                ;
            }
            let ghost before = assocs@;
            let _ = assocs.enable_bit(width, k, v);
            proof {
                let pos = k * width + v;
                assert forall|p: int|
                    0 <= p < assocs@.len() implies (#[trigger] assocs@[p] <==> exists|j: int|
                        0 <= j < i + 1 && p == pairs@[j].0.spec_index() * width
                            + pairs@[j].1.spec_index()) by {
                    if p == pos {
                        assert(p == pairs@[i as int].0.spec_index() * width
                            + pairs@[i as int].1.spec_index());
                    } else if exists|j: int|
                        0 <= j < i + 1 && p == pairs@[j].0.spec_index() * width
                            + pairs@[j].1.spec_index() {
                        let j = choose|j: int|
                            0 <= j < i + 1 && p == pairs@[j].0.spec_index() * width
                                + pairs@[j].1.spec_index();
                        assert(j < i);
                    }
                }
            }
            i = i + 1;
        }
        let ghost bits = assocs@;
        proof {
            assert(height * width == width * height) by (nonlinear_arith);
            assert forall|k: int, v: int|
                0 <= k < height && 0 <= v < width implies (#[trigger] cell(bits, width as int, v, k)
                <==> exists|j: int|
                0 <= j < pairs@.len() && pairs@[j].0.spec_index() == k && pairs@[j].1.spec_index()
                    == v) by {
                assert(v + k * width < width * height) by (nonlinear_arith)
                    requires
                        k < height,
                        v < width,
                ;
                assert(v + k * width == k * width + v);
                if bits[v + k * width] {
                    let j = choose|j: int|
                        0 <= j < pairs@.len() && v + k * width == pairs@[j].0.spec_index() * width
                            + pairs@[j].1.spec_index();
                    assert(pairs@[j].0.spec_index() <= max_key_of(pairs@));
                    crate::bitmultimap::lemma_pos_unique(
                        pairs@[j].0.spec_index() as int,
                        pairs@[j].1.spec_index() as int,
                        k,
                        v,
                        width as int,
                    );
                }
                if exists|j: int|
                    0 <= j < pairs@.len() && pairs@[j].0.spec_index() == k && pairs@[j].1.spec_index()
                        == v {
                    let j = choose|j: int|
                        0 <= j < pairs@.len() && pairs@[j].0.spec_index() == k
                            && pairs@[j].1.spec_index() == v;
                    assert(bits[pairs@[j].0.spec_index() * width + pairs@[j].1.spec_index()]);
                }
            }
        }
        IndexMultimap { assocs, width, _idx_ty: PhantomData }
    }
}

/// The index of every key and value of `pairs` is at most the largest.
proof fn lemma_max_of<K: Index, V: Index>(pairs: Seq<(K, V)>)
    ensures
        forall|j: int|
            0 <= j < pairs.len() ==> #[trigger] pairs[j].0.spec_index() <= max_key_of(pairs)
                && pairs[j].1.spec_index() <= max_value_of(pairs),
    decreases pairs.len(),
{
    if pairs.len() > 0 {
        lemma_max_of(pairs.drop_last());
        assert forall|j: int| 0 <= j < pairs.len() implies #[trigger] pairs[j].0.spec_index()
            <= max_key_of(pairs) && pairs[j].1.spec_index() <= max_value_of(pairs) by {
            if j < pairs.len() - 1 {
                assert(pairs.drop_last()[j] == pairs[j]);
            }
        }
    }
}

/// How many bits the matrix built from `pairs` holds: `⌈w × h / 4⌉` blocks of
/// 32 bits, for rows `w` wide (one more than the largest value) and `h` rows
/// (one more than the largest key).
pub open spec fn matrix_len<K: Index, V: Index>(pairs: Seq<(K, V)>) -> int {
    let w = max_value_of(pairs) + 1;
    let h = max_key_of(pairs) + 1;
    (((w * h + 3) / 4) * 32) as int
}

/// The largest key index of `pairs`, `0` when empty.
pub open spec fn max_key_of<K: Index, V: Index>(pairs: Seq<(K, V)>) -> nat
    decreases pairs.len(),
{
    if pairs.len() == 0 {
        0
    } else {
        let rest = max_key_of(pairs.drop_last());
        if pairs.last().0.spec_index() > rest {
            pairs.last().0.spec_index()
        } else {
            rest
        }
    }
}

/// The largest value index of `pairs`, `0` when empty.
pub open spec fn max_value_of<K: Index, V: Index>(pairs: Seq<(K, V)>) -> nat
    decreases pairs.len(),
{
    if pairs.len() == 0 {
        0
    } else {
        let rest = max_value_of(pairs.drop_last());
        if pairs.last().1.spec_index() > rest {
            pairs.last().1.spec_index()
        } else {
            rest
        }
    }
}

/// The matrix built from `pairs` can be allocated.
pub open spec fn pairs_fit<K: Index, V: Index>(pairs: Seq<(K, V)>) -> bool {
    let w = max_value_of(pairs) + 1;
    let h = max_key_of(pairs) + 1;
    &&& w * h + 4 <= usize::MAX
    &&& ((w * h + 3) / 4) * 32 <= usize::MAX
}

} // verus!
