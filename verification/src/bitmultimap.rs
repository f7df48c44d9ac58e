//! A sparse associative array, with lookups from keys to values and from
//! values to keys.
use vstd::prelude::*;

use crate::bitmatrix::{column_rows, lemma_column_rows, BitMatrix};
use crate::bitset::{lemma_ones_seq, ones_seq};
use crate::sorted::{binary_search_result, is_sorted, is_strictly_sorted, Sorted};

verus! {

/// Where the association `(k, v)` is stored in the matrix of a map whose
/// sorted keys are `keys` and sorted values are `values`: at row
/// `binary_search(keys, k)` and column `binary_search(values, v)`.
pub open spec fn assoc_pos(keys: Seq<u32>, values: Seq<u32>, k: u32, v: u32) -> int {
    binary_search_result(keys, k)->Ok_0 * values.len() + binary_search_result(values, v)->Ok_0
}

/// Every association is stored at its position, found back by binary search.
pub open spec fn assocs_stored(
    keys: Seq<u32>,
    values: Seq<u32>,
    bits: Seq<bool>,
    assocs: Set<(u32, u32)>,
) -> bool {
    forall|k: u32, v: u32|
        #![trigger assocs.contains((k, v))]
        assocs.contains((k, v)) ==> {
            &&& binary_search_result(keys, k) is Ok
            &&& binary_search_result(values, v) is Ok
            &&& binary_search_result(keys, k)->Ok_0 < keys.len()
            &&& binary_search_result(values, v)->Ok_0 < values.len()
            &&& keys[binary_search_result(keys, k)->Ok_0 as int] == k
            &&& values[binary_search_result(values, v)->Ok_0 as int] == v
            &&& bits[assoc_pos(keys, values, k, v)]
        }
}

/// Every enabled bit is the position of an association.
pub open spec fn bits_are_assocs(
    keys: Seq<u32>,
    values: Seq<u32>,
    bits: Seq<bool>,
    assocs: Set<(u32, u32)>,
) -> bool {
    forall|p: int|
        0 <= p < bits.len() && #[trigger] bits[p] ==> exists|k: u32, v: u32|
            #![trigger assocs.contains((k, v))]
            assocs.contains((k, v)) && p == assoc_pos(keys, values, k, v)
}

/// `i * w + j == i2 * w + j2` with `j, j2 < w` means `i == i2` and `j == j2`.
pub proof fn lemma_pos_unique(i: int, j: int, i2: int, j2: int, w: int)
    requires
        0 <= j < w,
        0 <= j2 < w,
        0 <= i,
        0 <= i2,
        i * w + j == i2 * w + j2,
    ensures
        i == i2,
        j == j2,
{
    if i < i2 {
        assert(i * w + w <= i2 * w) by (nonlinear_arith)
            requires
                i < i2,
                0 <= w,
        ;
    } else if i2 < i {
        assert(i2 * w + w <= i * w) by (nonlinear_arith)
            requires
                i2 < i,
                0 <= w,
        ;
    }
}

/// The items of `v`, each once, in ascending order.
fn distinct(v: Vec<u32>) -> (r: Sorted)
    ensures
        is_strictly_sorted(r@),
        forall|x: u32| #[trigger] r@.contains(x) <==> v@.contains(x),
        r@.len() <= v@.len(),
{
    let ghost input = v@;
    let s = Sorted::from_vec(v);
    let sl = s.slice();
    proof {
        broadcast use vstd::seq_lib::group_to_multiset_ensures;

        assert forall|x: u32| #[trigger] sl@.contains(x) <==> input.contains(x) by {
            assert(sl@.to_multiset().count(x) == input.to_multiset().count(x));
        }
        assert(sl@.len() == sl@.to_multiset().len());
        assert(input.len() == input.to_multiset().len());
    }
    let mut out: Vec<u32> = Vec::new();
    let mut i: usize = 0;
    while i < sl.len()
        invariant
            i <= sl@.len(),
            is_sorted(sl@),
            is_strictly_sorted(out@),
            out@.len() <= i,
            forall|x: u32| #[trigger] out@.contains(x) <==> sl@.take(i as int).contains(x),
            i == 0 <==> out@.len() == 0,
            i > 0 ==> out@.last() == sl@[i - 1],
        decreases sl@.len() - i,
    {
        let x = sl[i];
        let ghost before = out@;
        proof {
            assert(sl@.take(i + 1) =~= sl@.take(i as int).push(x));
        }
        if out.len() == 0 || out[out.len() - 1] < x {
            out.push(x);
            proof {
                assert forall|y: u32| #[trigger] out@.contains(y) <==> sl@.take(i + 1).contains(y) by {
                    let t0 = sl@.take(i as int);
                    let t1 = sl@.take(i + 1);
                    if t1.contains(y) && y != x {
                        let j = choose|j: int| 0 <= j < t1.len() && t1[j] == y;
                        assert(t0[j] == y);
                    }
                    if t0.contains(y) {
                        let j = choose|j: int| 0 <= j < t0.len() && t0[j] == y;
                        assert(t1[j] == y);
                    }
                    if y == x {
                        assert(t1[i as int] == y);
                        assert(out@[out@.len() - 1] == y);
                    }
                    if out@.contains(y) && y != x {
                        let j = choose|j: int| 0 <= j < out@.len() && out@[j] == y;
                        assert(before[j] == y);
                    }
                    if before.contains(y) {
                        let j = choose|j: int| 0 <= j < before.len() && before[j] == y;
                        assert(out@[j] == y);
                    }
                }
            }
        } else {
            proof {
                assert(sl@[i - 1] <= x);
                assert(out@.last() == x);
                assert(out@.contains(x));
            }
        }
        i = i + 1;
    }
    proof {
        assert(sl@.take(i as int) =~= sl@);
    }
    Sorted::from_sorted(out)
}

/// A sparse associative array.
///
/// This is a [multimap] with very good perf for small sets of key and values
/// that themselves shouldn't take much memory.
///
/// Furthermore, you can not only get all `values` associated with a given `key`,
/// but also all `keys` associated with a given `value`.
/// See [`BitMultiMap::get_keys_of`] and [`BitMultiMap::get`].
///
/// Keys and values are stored in two sorted lists, associations in a
/// [bitset matrix](BitMatrix): row `i` holds the values associated with the
/// key at index `i` of the sorted keys.
///
/// [multimap]: https://en.wikipedia.org/wiki/Multimap
pub struct BitMultiMap {
    sparse_keys: Sorted,
    sparse_values: Sorted,
    /// A `sparse_keys.len()` × `sparse_values.len()` bitfield array.
    associations: BitMatrix,
    assocs: Ghost<Set<(u32, u32)>>,
}

impl View for BitMultiMap {
    type V = Set<(u32, u32)>;

    closed spec fn view(&self) -> Set<(u32, u32)> {
        self.assocs@
    }
}

impl BitMultiMap {
    /// The keys, each once, sorted.
    pub closed spec fn keys_seq(&self) -> Seq<u32> {
        self.sparse_keys@
    }

    /// The values, each once, sorted.
    pub closed spec fn values_seq(&self) -> Seq<u32> {
        self.sparse_values@
    }

    #[verifier::type_invariant]
    closed spec fn inv(self) -> bool {
        &&& is_strictly_sorted(self.sparse_keys@)
        &&& is_strictly_sorted(self.sparse_values@)
        &&& is_sorted(self.sparse_keys@)
        &&& is_sorted(self.sparse_values@)
        &&& self.associations.wf()
        &&& self.sparse_keys@.len() * self.sparse_values@.len() <= self.associations@.len()
        &&& assocs_stored(self.sparse_keys@, self.sparse_values@, self.associations@, self.assocs@)
        &&& bits_are_assocs(
            self.sparse_keys@,
            self.sparse_values@,
            self.associations@,
            self.assocs@,
        )
    }

    /// Create a [`BitMultiMap`] with all associations of `pairs`.
    pub fn from_pairs(pairs: Vec<(u32, u32)>) -> (r: Self)
        requires
            pairs@.len() * pairs@.len() + 4 <= usize::MAX,
            ((pairs@.len() * pairs@.len() + 3) / 4) * 32 <= usize::MAX,
        ensures
            forall|k: u32, v: u32| #[trigger] r@.contains((k, v)) <==> pairs@.contains((k, v)),
            is_strictly_sorted(r.keys_seq()),
            is_strictly_sorted(r.values_seq()),
            forall|k: u32| #[trigger]
                r.keys_seq().contains(k) <==> pairs@.map_values(|p: (u32, u32)| p.0).contains(k),
            forall|v: u32| #[trigger]
                r.values_seq().contains(v) <==> pairs@.map_values(|p: (u32, u32)| p.1).contains(v),
            r.keys_seq().len() <= pairs@.len(),
            r.values_seq().len() <= pairs@.len(),
    {
        let n = pairs.len();
        let mut keys: Vec<u32> = Vec::new();
        let mut values: Vec<u32> = Vec::new();
        let mut i: usize = 0;
        while i < n
            invariant
                n == pairs@.len(),
                i <= n,
                keys@ == pairs@.take(i as int).map_values(|p: (u32, u32)| p.0),
                values@ == pairs@.take(i as int).map_values(|p: (u32, u32)| p.1),
            decreases n - i,
        {
            let (k, v) = pairs[i];
            keys.push(k);
            values.push(v);
            i = i + 1;
            proof {
                assert(keys@ =~= pairs@.take(i as int).map_values(|p: (u32, u32)| p.0));
                assert(values@ =~= pairs@.take(i as int).map_values(|p: (u32, u32)| p.1));
            }
        }
        proof {
            assert(pairs@.take(n as int) =~= pairs@);
        }
        let sparse_keys = distinct(keys);
        let sparse_values = distinct(values);
        let nk = sparse_keys.len();
        let nv = sparse_values.len();
        proof {
            assert(nv * nk <= n * n) by (nonlinear_arith)
                requires
                    nk <= n,
                    nv <= n,
            ;
            assert(((nv * nk + 3) / 4) * 32 <= ((n * n + 3) / 4) * 32) by (nonlinear_arith)
                requires
                    nv * nk <= n * n,
            ;
        }
        let mut associations = BitMatrix::new_with_size(nv, nk);
        let ghost mut assocs: Set<(u32, u32)> = Set::empty();
        let mut i: usize = 0;
        proof {
            assert(nk * nv <= associations@.len()) by (nonlinear_arith)
                requires
                    associations@.len() == ((nv * nk + 3) / 4) * 32,
            ;
        }
        while i < n
            invariant
                n == pairs@.len(),
                i <= n,
                nk == sparse_keys@.len(),
                nv == sparse_values@.len(),
                nk <= n,
                nv <= n,
                is_strictly_sorted(sparse_keys@),
                is_strictly_sorted(sparse_values@),
                is_sorted(sparse_keys@),
                is_sorted(sparse_values@),
                associations.wf(),
                nk * nv <= associations@.len(),
                associations@.len() + 4 <= usize::MAX,
                forall|k: u32| #[trigger]
                    sparse_keys@.contains(k) <==> pairs@.map_values(|p: (u32, u32)| p.0).contains(k),
                forall|v: u32| #[trigger]
                    sparse_values@.contains(v) <==> pairs@.map_values(|p: (u32, u32)| p.1).contains(v),
                forall|k: u32, v: u32| #[trigger]
                    assocs.contains((k, v)) <==> pairs@.take(i as int).contains((k, v)),
                assocs_stored(sparse_keys@, sparse_values@, associations@, assocs),
                bits_are_assocs(sparse_keys@, sparse_values@, associations@, assocs),
            decreases n - i,
        {
            let (key, value) = pairs[i];
            proof {
                assert(pairs@.map_values(|p: (u32, u32)| p.0)[i as int] == key);
                assert(pairs@.map_values(|p: (u32, u32)| p.0).contains(key));
                assert(sparse_keys@.contains(key));
                assert(pairs@.map_values(|p: (u32, u32)| p.1)[i as int] == value);
                assert(pairs@.map_values(|p: (u32, u32)| p.1).contains(value));
                assert(sparse_values@.contains(value));
            }
            let key_i = match sparse_keys.binary_search(key) {
                Ok(x) => x,
                Err(_) => {
                    proof {
                        assert(sparse_keys@.contains(key));
                    }
                    0
                },
            };
            let value_i = match sparse_values.binary_search(value) {
                Ok(x) => x,
                Err(_) => {
                    proof {
                        assert(sparse_values@.contains(value));
                    }
                    0
                },
            };
            proof {
                assert(key_i * nv + value_i < nk * nv) by (nonlinear_arith)
                    requires
                        key_i < nk,
                        value_i < nv,
                ;
            }
            let ghost before = associations@;
            let _ = associations.enable_bit(nv, key_i, value_i);
            proof {
                let pos = key_i * nv + value_i;
                assert(nv * key_i == key_i * nv) by (nonlinear_arith);
                assert(associations@ == before.update(pos, true));
                let t0 = pairs@.take(i as int);
                let t1 = pairs@.take(i + 1);
                assert(t1 =~= t0.push((key, value)));
                let new_assocs = assocs.insert((key, value));
                assert forall|k: u32, v: u32| #[trigger]
                    new_assocs.contains((k, v)) <==> t1.contains((k, v)) by {
                    if t1.contains((k, v)) && (k, v) != (key, value) {
                        let j = choose|j: int| 0 <= j < t1.len() && t1[j] == (k, v);
                        assert(t0[j] == (k, v));
                    }
                    if t0.contains((k, v)) {
                        let j = choose|j: int| 0 <= j < t0.len() && t0[j] == (k, v);
                        assert(t1[j] == (k, v));
                    }
                    if (k, v) == (key, value) {
                        assert(t1[i as int] == (k, v));
                    }
                }
                assert forall|p: int|
                    0 <= p < associations@.len() && #[trigger] associations@[p] implies exists|
                        k: u32,
                        v: u32,
                    |
                        #![trigger new_assocs.contains((k, v))]
                        new_assocs.contains((k, v)) && p == assoc_pos(
                            sparse_keys@,
                            sparse_values@,
                            k,
                            v,
                        ) by {
                    if p == pos {
                        assert(new_assocs.contains((key, value)));
                    } else {
                        assert(before[p]);
                        let (k, v) = choose|k: u32, v: u32|
                            #![trigger assocs.contains((k, v))]
                            assocs.contains((k, v)) && p == assoc_pos(
                                sparse_keys@,
                                sparse_values@,
                                k,
                                v,
                            );
                        assert(new_assocs.contains((k, v)));
                    }
                }
                assert forall|k: u32, v: u32| #[trigger] new_assocs.contains((k, v)) implies associations@[assoc_pos(sparse_keys@, sparse_values@, k, v)] by {
                    if (k, v) == (key, value) {
                        assert(assoc_pos(sparse_keys@, sparse_values@, k, v) == pos);
                    } else {
                        assert(assocs.contains((k, v)));
                        let ki = binary_search_result(sparse_keys@, k)->Ok_0;
                        let vi = binary_search_result(sparse_values@, v)->Ok_0;
                        assert(ki * nv + vi < nk * nv) by (nonlinear_arith)
                            requires
                                ki < nk,
                                vi < nv,
                        ;
                        assert(before[assoc_pos(sparse_keys@, sparse_values@, k, v)]);
                    }
                }
                assocs = new_assocs;
            }
            i = i + 1;
        }
        proof {
            assert(pairs@.take(n as int) =~= pairs@);
            assert(is_sorted(sparse_keys@));
            assert(is_sorted(sparse_values@));
            assert(associations.wf());
            assert(sparse_keys@.len() * sparse_values@.len() <= associations@.len());
        }
        BitMultiMap { sparse_keys, sparse_values, associations, assocs: Ghost(assocs) }
    }

    /// How many bits the association matrix holds.
    pub closed spec fn matrix_len(&self) -> nat {
        self.associations@.len()
    }

    /// Indices in the sorted values of the values associated with the key of
    /// index `row`, in ascending order.
    fn mapped_associates_of(&self, row: usize) -> (r: Vec<usize>)
        requires
            row < self.keys_seq().len(),
            self.keys_seq().len() * self.values_seq().len() <= 0x1_0000_0000,
        ensures
            ({
                let w = self.values_seq().len() as int;
                let ones = ones_seq(self.associations@, row * w, (row + 1) * w);
                &&& r@.len() == ones.len()
                &&& forall|k: int| 0 <= k < r@.len() ==> #[trigger] r@[k] + row * w == ones[k]
            }),
    {
        proof {
            use_type_invariant(self);
            let nk = self.sparse_keys@.len();
            let nv = self.sparse_values@.len();
            assert((row + 1) * nv <= nk * nv) by (nonlinear_arith)
                requires
                    row < nk,
            ;
        }
        let width = self.sparse_values.len();
        let _nk = self.sparse_keys.len();
        self.associations.row(width, row)
    }

    /// Get all values associated with `key`, in ascending order.
    pub fn get(&self, key: u32) -> (r: Vec<u32>)
        requires
            self.keys_seq().len() * self.values_seq().len() <= 0x1_0000_0000,
        ensures
            forall|a: int, b: int| 0 <= a < b < r@.len() ==> r@[a] < r@[b],
            forall|v: u32| #[trigger] r@.contains(v) <==> self@.contains((key, v)),
    {
        proof {
            use_type_invariant(self);
        }
        let mut out: Vec<u32> = Vec::new();
        let mapped = match self.sparse_keys.binary_search(key) {
            Ok(m) => m,
            Err(_) => {
                proof {
                    assert forall|v: u32| #[trigger] out@.contains(v) <==> self@.contains((key, v)) by {
                        if self@.contains((key, v)) {
                            assert(binary_search_result(self.sparse_keys@, key) is Ok);
                        }
                    }
                }
                return out;
            },
        };
        let cols = self.mapped_associates_of(mapped);
        let ghost keys = self.sparse_keys@;
        let ghost values = self.sparse_values@;
        let ghost bits = self.associations@;
        let ghost w = values.len() as int;
        let ghost start = mapped * w;
        let ghost ones = ones_seq(bits, start, start + w);
        proof {
            assert((mapped + 1) * w == start + w) by (nonlinear_arith)
                requires
                    start == mapped * w,
            ;
            assert(start + w <= keys.len() * w) by (nonlinear_arith)
                requires
                    mapped < keys.len(),
                    start == mapped * w,
                    0 <= w,
            ;
            lemma_ones_seq(bits, start, start + w);
        }
        let mut i: usize = 0;
        while i < cols.len()
            invariant
                i <= cols@.len(),
                cols@.len() == ones.len(),
                forall|k: int| 0 <= k < cols@.len() ==> #[trigger] cols@[k] + start == ones[k],
                forall|k: int| 0 <= k < ones.len() ==> start <= #[trigger] ones[k] < start + w,
                w == self.sparse_values@.len(),
                values == self.sparse_values@,
                out@.len() == i,
                forall|k: int| 0 <= k < i ==> #[trigger] out@[k] == values[cols@[k] as int],
            decreases cols@.len() - i,
        {
            let c = cols[i];
            let v = match self.sparse_values.get(c) {
                Some(v) => v,
                None => 0,
            };
            out.push(v);
            i = i + 1;
        }
        proof {
            // Each column found is the position of an association of `key`.
            assert forall|k: int| 0 <= k < out@.len() implies self@.contains((key, #[trigger] out@[k]))
                && binary_search_result(values, out@[k])->Ok_0 == cols@[k] by {
                let p = ones[k];
                assert(ones.contains(p));
                assert(bits[p]);
                let (k2, v2) = choose|k2: u32, v2: u32|
                    #![trigger self.assocs@.contains((k2, v2))]
                    self.assocs@.contains((k2, v2)) && p == assoc_pos(keys, values, k2, v2);
                let ki = binary_search_result(keys, k2)->Ok_0 as int;
                let vi = binary_search_result(values, v2)->Ok_0 as int;
                lemma_pos_unique(ki, vi, mapped as int, cols@[k] as int, w);
                assert(k2 == key);
                assert(out@[k] == v2);
            }
            assert forall|a: int, b: int| 0 <= a < b < out@.len() implies out@[a] < out@[b] by {
                assert(ones[a] < ones[b]);
                assert(self@.contains((key, out@[a])));
                assert(self@.contains((key, out@[b])));
            }
            assert forall|v: u32| #[trigger] out@.contains(v) <==> self@.contains((key, v)) by {
                if out@.contains(v) {
                    let k = choose|k: int| 0 <= k < out@.len() && out@[k] == v;
                    assert(self@.contains((key, out@[k])));
                }
                if self@.contains((key, v)) {
                    let vi = binary_search_result(values, v)->Ok_0 as int;
                    let p = assoc_pos(keys, values, key, v);
                    assert(p == start + vi);
                    assert(ones.contains(p));
                    let k = choose|k: int| 0 <= k < ones.len() && ones[k] == p;
                    assert(out@[k] == v);
                }
            }
        }
        out
    }

    /// Get all keys associated with `value`, in ascending order.
    pub fn get_keys_of(&self, value: u32) -> (r: Vec<u32>)
        requires
            self.matrix_len() + 2 * self.values_seq().len() <= usize::MAX,
        ensures
            forall|a: int, b: int| 0 <= a < b < r@.len() ==> r@[a] < r@[b],
            forall|k: u32| #[trigger] r@.contains(k) <==> self@.contains((k, value)),
    {
        proof {
            use_type_invariant(self);
        }
        let mut out: Vec<u32> = Vec::new();
        let mapped = match self.sparse_values.binary_search(value) {
            Ok(m) => m,
            Err(_) => {
                proof {
                    assert forall|k: u32| #[trigger] out@.contains(k) <==> self@.contains((k, value)) by {
                        if self@.contains((k, value)) {
                            assert(binary_search_result(self.sparse_values@, value) is Ok);
                        }
                    }
                }
                return out;
            },
        };
        let width = self.sparse_values.len();
        let ghost keys = self.sparse_keys@;
        let ghost values = self.sparse_values@;
        let ghost bits = self.associations@;
        let ghost w = values.len() as int;
        let mut column = self.associations.active_rows_in_column(width, mapped);
        let ghost rows = column@;
        proof {
            lemma_column_rows(bits, w, mapped as int, 0);
            assert(mapped as int + 0 * w == mapped);
        }
        let ghost mut taken: int = 0;
        loop
            invariant_except_break
                column.wf(),
                column@ == rows.subrange(taken, rows.len() as int),
            invariant
                0 <= taken <= rows.len(),
                rows == column_rows(bits, w, mapped as int + 0 * w),
                keys == self.sparse_keys@,
                values == self.sparse_values@,
                bits == self.associations@,
                w == values.len(),
                mapped < w,
                crate::bitset::strictly_ascending(rows),
                forall|r: int| #[trigger]
                    rows.contains(r) <==> (0 <= r && mapped + r * w < bits.len() && bits[mapped
                        + r * w]),
                out@.len() == taken,
                forall|k: int| 0 <= k < taken ==> #[trigger] out@[k] == keys[rows[k]],
                forall|k: int| 0 <= k < taken ==> 0 <= #[trigger] rows[k] < keys.len(),
            ensures
                taken == rows.len(),
            decreases rows.len() - taken,
        {
            let ghost before = column@;
            proof {
                use_type_invariant(self);
            }
            match column.next() {
                Some(row) => {
                    let ghost r = rows[taken];
                    proof {
                        assert(mapped as int + 0 * w == mapped);
                        assert(before[0] == r);
                        assert(rows.contains(r));
                        let p = mapped + r * w;
                        assert(bits[p]);
                        let (k2, v2) = choose|k2: u32, v2: u32|
                            #![trigger self.assocs@.contains((k2, v2))]
                            self.assocs@.contains((k2, v2)) && p == assoc_pos(keys, values, k2, v2);
                        let ki = binary_search_result(keys, k2)->Ok_0 as int;
                        let vi = binary_search_result(values, v2)->Ok_0 as int;
                        lemma_pos_unique(ki, vi, r, mapped as int, w);
                        assert(column@ =~= rows.subrange(taken + 1, rows.len() as int));
                    }
                    let k = match self.sparse_keys.get(row) {
                        Some(k) => k,
                        None => 0,
                    };
                    out.push(k);
                    proof {
                        taken = taken + 1;
                    }
                },
                None => {
                    proof {
                        assert(taken == rows.len());
                    }
                    break ;
                },
            }
        }
        proof {
            assert forall|k: int| 0 <= k < out@.len() implies self@.contains((#[trigger] out@[k], value))
                && binary_search_result(keys, out@[k])->Ok_0 == rows[k] by {
                let r = rows[k];
                assert(rows.contains(r));
                let p = mapped + r * w;
                let (k2, v2) = choose|k2: u32, v2: u32|
                    #![trigger self.assocs@.contains((k2, v2))]
                    self.assocs@.contains((k2, v2)) && p == assoc_pos(keys, values, k2, v2);
                let ki = binary_search_result(keys, k2)->Ok_0 as int;
                let vi = binary_search_result(values, v2)->Ok_0 as int;
                lemma_pos_unique(ki, vi, r, mapped as int, w);
                assert(v2 == value);
                assert(out@[k] == k2);
            }
            assert forall|a: int, b: int| 0 <= a < b < out@.len() implies out@[a] < out@[b] by {
                assert(rows[a] < rows[b]);
                assert(self@.contains((out@[a], value)));
                assert(self@.contains((out@[b], value)));
            }
            assert forall|k: u32| #[trigger] out@.contains(k) <==> self@.contains((k, value)) by {
                if out@.contains(k) {
                    let j = choose|j: int| 0 <= j < out@.len() && out@[j] == k;
                    assert(self@.contains((out@[j], value)));
                }
                if self@.contains((k, value)) {
                    let ki = binary_search_result(keys, k)->Ok_0 as int;
                    let p = assoc_pos(keys, values, k, value);
                    assert(ki * w + mapped < keys.len() * w) by (nonlinear_arith)
                        requires
                            ki < keys.len(),
                            mapped < w,
                    ;
                    assert(p == mapped + ki * w) by (nonlinear_arith)
                        requires
                            p == ki * w + mapped,
                    ;
                    assert(rows.contains(ki));
                    let j = choose|j: int| 0 <= j < rows.len() && rows[j] == ki;
                    assert(out@[j] == k);
                }
            }
        }
        out
    }

    /// All keys present in this map, each once, sorted.
    pub fn keys(&self) -> (r: &[u32])
        ensures
            r@ == self.keys_seq(),
            is_strictly_sorted(r@),
            forall|k: u32, v: u32| #[trigger] self@.contains((k, v)) ==> r@.contains(k),
    {
        proof {
            use_type_invariant(self);
            assert forall|k: u32, v: u32| #[trigger] self@.contains((k, v)) implies self.sparse_keys@.contains(k) by {
                let i = binary_search_result(self.sparse_keys@, k)->Ok_0 as int;
                assert(self.sparse_keys@[i] == k);
            }
        }
        self.sparse_keys.slice()
    }

    /// All values present in this map, each once, sorted.
    pub fn values(&self) -> (r: &[u32])
        ensures
            r@ == self.values_seq(),
            is_strictly_sorted(r@),
    {
        proof {
            use_type_invariant(self);
        }
        self.sparse_values.slice()
    }
}

} // verus!
