//! The dependency analysis of a resolver: which modifiers mask which
//! sections of their children, which depend on a root field, and which depend
//! on another modifier.
//!
//! A modifier is read here through what the analysis needs of it
//! ([`MakeModify`]): the range of sections it applies to, the set of fields
//! it reads (`depends`) and writes (`changes`), one bit per field, and the
//! binding it comes from, if any.
use vstd::prelude::*;

pub mod evaluate;
pub mod is_static;
pub mod minimal;

use std::ops::Range;

use crate::binding::Id;
use crate::bitmultimap::BitMultiMap;
use crate::sorted::{is_key_sorted, KeySorted};
use crate::bitset::{lemma_ones_seq, ones_seq, Bitset};
use crate::jagged_bitset::{row_of, Builder, JaggedBitset};
use is_static::{is_static_at, lemma_static_state, static_state, CheckStatic};
use crate::Index;

verus! {

/// Index in `modifiers`.
#[derive(Clone, Copy, PartialEq, Eq, Structural, PartialOrd, Ord, Debug)]
pub struct ModifyIndex(pub u32);

impl ModifyIndex {
    /// The index `value`, truncated to 32 bits.
    pub fn new(value: usize) -> (r: Self)
        ensures
            r.0 == value as u32,
    {
        ModifyIndex(value as u32)
    }
}

impl Index for ModifyIndex {
    open spec fn spec_index(&self) -> nat {
        self.0 as nat
    }

    fn get(&self) -> (r: usize) {
        self.0 as usize
    }
}

/// Whether the set of fields `set` (one bit per field) holds `field`.
pub open spec fn has_field(set: u64, field: u32) -> bool {
    field < 64 && (set >> field) & 1u64 == 1u64
}

/// Whether the set of fields `set` holds `field`.
pub fn contains_field(set: u64, field: u32) -> (r: bool)
    requires
        field < 64,
    ensures
        r == has_field(set, field),
{
    (set >> field) & 1u64 == 1u64
}

/// What the dependency analysis reads of a modifier.
#[derive(Debug)]
pub struct MakeModify {
    /// The sections the modifier applies to.
    pub range: Range<u32>,
    /// The fields the modifier reads, one bit per field.
    pub depends: u64,
    /// The fields the modifier writes, one bit per field.
    pub changes: u64,
    /// The binding the modifier comes from, `None` for a modifier given as a
    /// value.
    pub binding: Option<Id>,
}

impl MakeModify {
    /// Whether `other` ends within `self`.
    pub fn parent_of(&self, other: &MakeModify) -> (r: bool)
        ensures
            r == (other.range.end <= self.range.end),
    {
        other.range.end <= self.range.end
    }

    /// The fields this modifier reads.
    pub fn depends(&self) -> (r: u64)
        ensures
            r == self.depends,
    {
        self.depends
    }

    /// The fields this modifier writes.
    pub fn changes(&self) -> (r: u64)
        ensures
            r == self.changes,
    {
        self.changes
    }
}

/// The modifiers are ordered by the start of their range, and each range
/// starts before it ends.
pub open spec fn ordered(mods: Seq<MakeModify>) -> bool {
    &&& forall|a: int, b: int|
        0 <= a <= b < mods.len() ==> mods[a].range.start <= mods[b].range.start
    &&& forall|k: int| 0 <= k < mods.len() ==> #[trigger] mods[k].range.start <= mods[k].range.end
}

/// The sections, relative to `parent`'s start, that `child` masks: its
/// whole range when it writes a field that `parent` writes and it does not
/// read; none otherwise.
pub open spec fn mask_range_of(parent: MakeModify, child: MakeModify) -> (int, int) {
    if parent.changes & child.changes & !child.depends != 0 {
        (
            child.range.start - parent.range.start,
            child.range.end - parent.range.start,
        )
    } else {
        (0, 0)
    }
}

/// `child` masks section `x` (relative to `parent`'s start) of `parent`.
pub open spec fn in_mask_range(parent: MakeModify, child: MakeModify, x: int) -> bool {
    mask_range_of(parent, child).0 <= x < mask_range_of(parent, child).1
}

/// The sections of `parent` that `child` masks, relative to `parent`'s
/// start.
pub fn mask_range(parent: &MakeModify, child: &MakeModify) -> (r: Range<u32>)
    requires
        parent.range.start <= child.range.start <= child.range.end,
    ensures
        (r.start as int, r.end as int) == mask_range_of(*parent, *child),
{
    if parent.changes() & child.changes() & !child.depends() != 0 {
        let offset = parent.range.start;
        let r = child.range.start..child.range.end;
        (r.start - offset)..(r.end - offset)
    } else {
        0..0
    }
}

/// The first index from `k` on of a modifier that does not end within
/// `mods[i]`: the children of `mods[i]` are those between `i` and it.
pub open spec fn children_end(mods: Seq<MakeModify>, i: int, k: int) -> int
    decreases mods.len() - k,
{
    if k < 0 || k >= mods.len() || !(mods[k].range.end <= mods[i].range.end) {
        k
    } else {
        children_end(mods, i, k + 1)
    }
}

proof fn lemma_children_end(mods: Seq<MakeModify>, i: int, k: int)
    requires
        0 <= k <= mods.len(),
    ensures
        k <= children_end(mods, i, k) <= mods.len(),
        forall|j: int| k <= j < children_end(mods, i, k) ==> #[trigger] mods[j].range.end
            <= mods[i].range.end,
        children_end(mods, i, k) < mods.len() ==> !(mods[children_end(mods, i, k)].range.end
            <= mods[i].range.end),
    decreases mods.len() - k,
{
    if k < mods.len() && mods[k].range.end <= mods[i].range.end {
        lemma_children_end(mods, i, k + 1);
    }
}

/// Section `x` of `mods[i]` (relative to its start) is masked by one of its
/// children.
pub open spec fn masked(mods: Seq<MakeModify>, i: int, x: int) -> bool {
    exists|k: int| i < k < children_end(mods, i, i + 1) && #[trigger] in_mask_range(mods[i], mods[k], x)
}

/// Every relative section fits in a bitset whose length fits in a `usize`.
pub open spec fn fits(mods: Seq<MakeModify>) -> bool {
    forall|k: int| 0 <= k < mods.len() ==> #[trigger] mods[k].range.end + 32 <= usize::MAX
}

/// The sections of `mods[i]`, relative to its start, that its children mask.
pub fn mask(modifiers: &[MakeModify], i: usize) -> (r: Bitset)
    requires
        i < modifiers@.len(),
        ordered(modifiers@),
        fits(modifiers@),
    ensures
        r.wf(),
        r@.len() <= 0x1_0000_0000,
        r@.len() <= modifiers@[i as int].range.end - modifiers@[i as int].range.start + 32,
        forall|x: int| 0 <= x < r@.len() ==> #[trigger] r@[x] == masked(modifiers@, i as int, x),
        forall|x: int| masked(modifiers@, i as int, x) ==> 0 <= x < r@.len(),
{
    let ghost mods = modifiers@;
    let m = &modifiers[i];
    let capacity = if m.range.start < m.range.end {
        (m.range.end - m.range.start) as usize / 4
    } else {
        0
    };
    let mut mask = Bitset(Vec::with_capacity(capacity));
    proof {
        lemma_children_end(mods, i as int, i + 1);
    }
    let ghost end = children_end(mods, i as int, i + 1);
    let mut k = i + 1;
    while k < modifiers.len()
        invariant
            mods == modifiers@,
            ordered(mods),
            fits(mods),
            i < mods.len(),
            *m == mods[i as int],
            end == children_end(mods, i as int, i + 1),
            i + 1 <= end <= mods.len(),
            forall|j: int| i + 1 <= j < end ==> #[trigger] mods[j].range.end <= mods[i as int].range.end,
            end < mods.len() ==> !(mods[end].range.end <= mods[i as int].range.end),
            i + 1 <= k <= end,
            mask.wf(),
            mask@.len() <= 0x1_0000_0000,
            mask@.len() <= mods[i as int].range.end - mods[i as int].range.start + 32,
            forall|x: int|
                0 <= x < mask@.len() ==> #[trigger] mask@[x] == exists|j: int|
                    i < j < k && #[trigger] in_mask_range(mods[i as int], mods[j], x),
            forall|x: int, j: int|
                i < j < k && #[trigger] in_mask_range(mods[i as int], mods[j], x) ==> 0 <= x
                    < mask@.len(),
        ensures
            k == end,
            mask.wf(),
            mask@.len() <= 0x1_0000_0000,
            mask@.len() <= mods[i as int].range.end - mods[i as int].range.start + 32,
            forall|x: int|
                0 <= x < mask@.len() ==> #[trigger] mask@[x] == exists|j: int|
                    i < j < k && #[trigger] in_mask_range(mods[i as int], mods[j], x),
            forall|x: int, j: int|
                i < j < k && #[trigger] in_mask_range(mods[i as int], mods[j], x) ==> 0 <= x
                    < mask@.len(),
        decreases mods.len() - k,
    {
        let child = &modifiers[k];
        if !m.parent_of(child) {
            break;
        }
        let range = mask_range(m, child);
        let ghost before = mask@;
        let ghost kk = k as int;
        let mut x = range.start;
        while x < range.end
            invariant
                mods == modifiers@,
                i < kk < mods.len(),
                (range.start as int, range.end as int) == mask_range_of(mods[i as int], mods[kk]),
                range.start <= x,
                x <= range.end || x == range.start,
                range.end <= mods[kk].range.end,
                fits(mods),
                mask.wf(),
                mask@.len() <= 0x1_0000_0000,
                mods[i as int].range.start <= mods[kk].range.start,
                mods[kk].range.end <= mods[i as int].range.end,
                mask@.len() <= mods[i as int].range.end - mods[i as int].range.start + 32,
                before.len() <= mask@.len(),
                forall|y: int|
                    0 <= y < mask@.len() ==> #[trigger] mask@[y] == ((y < before.len()
                        && before[y]) || (range.start <= y < x)),
                x > range.start ==> x <= mask@.len(),
            decreases range.end - x,
        {
            assert(mods[kk].range.end + 32 <= usize::MAX);
            let ghost prev = mask@;
            mask.enable_bit_extending(x as usize);
            proof {
                assert forall|y: int| 0 <= y < mask@.len() implies #[trigger] mask@[y] == ((y
                    < before.len() && before[y]) || (range.start <= y < x + 1)) by {
                    if y == x {
                    } else if y < prev.len() {
                        assert(mask@[y] == prev[y]);
                        assert(prev[y] == ((y < before.len() && before[y]) || (range.start <= y
                            < x)));
                    } else {
                        assert(!mask@[y]);
                        assert(before.len() <= prev.len());
                        if range.start < x {
                            assert(x <= prev.len());
                        }
                    }
                }
            }
            x = x + 1;
        }
        proof {
            assert forall|y: int|
                0 <= y < mask@.len() implies #[trigger] mask@[y] == exists|j: int|
                i < j < k + 1 && #[trigger] in_mask_range(mods[i as int], mods[j], y) by {
                let e_old = exists|j: int|
                    i < j < k && #[trigger] in_mask_range(mods[i as int], mods[j], y);
                if y < before.len() {
                    assert(before[y] == e_old);
                } else if e_old {
                    let j = choose|j: int|
                        i < j < k && #[trigger] in_mask_range(mods[i as int], mods[j], y);
                    assert(0 <= y < before.len());
                }
                assert(in_mask_range(mods[i as int], mods[kk], y) == (range.start <= y
                    < range.end));
                if in_mask_range(mods[i as int], mods[kk], y) {
                    assert(mask@[y]);
                } else if e_old {
                    let j = choose|j: int|
                        i < j < k && #[trigger] in_mask_range(mods[i as int], mods[j], y);
                    assert(i < j < k + 1 && in_mask_range(mods[i as int], mods[j], y));
                } else {
                    assert(!mask@[y]);
                    assert forall|j: int| i < j < k + 1 implies !#[trigger] in_mask_range(
                        mods[i as int],
                        mods[j],
                        y,
                    ) by {
                        if j < k {
                            assert(!e_old);
                        }
                    }
                }
            }
            assert forall|y: int, j: int|
                i < j < k + 1 && #[trigger] in_mask_range(mods[i as int], mods[j], y) implies 0 <= y
                < mask@.len() by {
                if j < k {
                    assert(0 <= y < before.len());
                } else {
                    assert(range.start <= y < range.end);
                }
            }
        }
        k = k + 1;
    }
    proof {
        assert forall|x: int| masked(mods, i as int, x) implies 0 <= x < mask@.len() by {
            let j = choose|j: int| i < j < end && #[trigger] in_mask_range(mods[i as int], mods[j], x);
        }
    }
    mask
}

/// The masks of all modifiers, and the rows of the masks of the modifiers
/// kept so far.
pub struct MaskRange {
    masks: Vec<Bitset>,
    builder: Builder,
}

impl MaskRange {
    /// The mask of each modifier.
    pub closed spec fn masks(&self) -> Seq<Seq<bool>> {
        self.masks@.map_values(|b: Bitset| b@)
    }

    /// The rows added so far.
    pub closed spec fn rows(&self) -> Seq<Seq<bool>> {
        self.builder@
    }

    /// Where the next row starts in the bits of the rows.
    pub closed spec fn next_start(&self) -> int {
        self.builder.next_start()
    }

    pub closed spec fn wf(&self) -> bool {
        &&& self.builder.wf()
        &&& self.builder.next_start() >= 0
        &&& forall|i: int| 0 <= i < self.masks@.len() ==> #[trigger] self.masks@[i].wf() && self.masks@[i]@.len() <= 0x1_0000_0000
    }

    /// The masks of `modifiers`, and no row yet.
    pub fn new(modifiers: &[MakeModify]) -> (r: Self)
        requires
            ordered(modifiers@),
            fits(modifiers@),
        ensures
            r.wf(),
            r.masks().len() == modifiers@.len(),
            forall|i: int, x: int|
                0 <= i < modifiers@.len() && 0 <= x < r.masks()[i].len() ==> #[trigger] r.masks()[i][x]
                    == masked(modifiers@, i, x),
            forall|i: int, x: int|
                0 <= i < modifiers@.len() && #[trigger] masked(modifiers@, i, x) ==> 0 <= x
                    < r.masks()[i].len(),
            forall|i: int|
                0 <= i < modifiers@.len() ==> #[trigger] r.masks()[i].len()
                    <= modifiers@[i].range.end - modifiers@[i].range.start + 32,
            r.rows() == Seq::<Seq<bool>>::empty(),
            r.next_start() == 0,
    {
        let mut masks: Vec<Bitset> = Vec::new();
        let mut i: usize = 0;
        while i < modifiers.len()
            invariant
                ordered(modifiers@),
                fits(modifiers@),
                i <= modifiers@.len(),
                masks@.len() == i,
                forall|k: int| 0 <= k < i ==> #[trigger] masks@[k].wf() && masks@[k]@.len() <= 0x1_0000_0000,
                forall|k: int, x: int|
                    0 <= k < i && 0 <= x < masks@[k]@.len() ==> #[trigger] masks@[k]@[x] == masked(
                        modifiers@,
                        k,
                        x,
                    ),
                forall|k: int, x: int|
                    0 <= k < i && #[trigger] masked(modifiers@, k, x) ==> 0 <= x < masks@[k]@.len(),
                forall|k: int|
                    0 <= k < i ==> #[trigger] masks@[k]@.len() <= modifiers@[k].range.end
                        - modifiers@[k].range.start + 32,
            decreases modifiers@.len() - i,
        {
            let m = mask(modifiers, i);
            masks.push(m);
            i = i + 1;
        }
        let builder = Builder::with_capacity(modifiers.len());
        let r = MaskRange { masks, builder };
        assert(r.builder.wf());
        assert forall|i: int| 0 <= i < r.masks@.len() implies #[trigger] r.masks@[i].wf()
            && r.masks@[i]@.len() <= 0x1_0000_0000 by {
            assert(masks@[i].wf());
        }
        assert(r.masks().len() == modifiers@.len());
        assert forall|i: int| 0 <= i < modifiers@.len() implies #[trigger] r.masks()[i].len()
            <= modifiers@[i].range.end - modifiers@[i].range.start + 32 by {
            assert(r.masks()[i] == masks@[i]@);
        }
        r
    }

    /// Adds the mask of modifier `i` as the next row.
    pub fn add_index(&mut self, i: usize)
        requires
            old(self).wf(),
            i < old(self).masks().len(),
            old(self).next_start() + old(self).masks()[i as int].len() < u32::MAX,
            8 * (old(self).next_start() + old(self).masks()[i as int].len()) + 64 <= usize::MAX,
        ensures
            final(self).wf(),
            final(self).masks() == old(self).masks(),
            final(self).next_start() <= old(self).next_start() + old(self).masks()[i as int].len(),
            final(self).next_start() >= 0,
            final(self).rows() == old(self).rows().push(
                row_of(
                    ones_seq(old(self).masks()[i as int], 0, old(self).masks()[i as int].len() as int).map_values(
                        |x: int| x as u32,
                    ),
                ),
            ),
    {
        let mask = &self.masks[i];
        assert(self.masks@[i as int].wf());
        let len = mask.bit_len();
        let ghost bits = mask@;
        assert(bits == self.masks()[i as int]);
        let mut ones = mask.ones_in_range(0..len);
        let row = ones.to_vec();
        proof {
            lemma_ones_seq(bits, 0, len as int);
            assert(row@ =~= ones_seq(bits, 0, len as int).map_values(|x: int| x as u32));
            assert forall|k: int| 0 <= k < row@.len() implies #[trigger] row@[k] < len by {
                assert(ones_seq(bits, 0, len as int).contains(ones_seq(bits, 0, len as int)[k]));
            }
        }
        self.builder.add_row(row.as_slice());
        proof {
            lemma_row_width_bound(row@, len as int);
            assert(self.builder.next_start() >= old(self).builder.next_start());
            assert(self.masks@ == old(self).masks@);
            assert forall|k: int| 0 <= k < self.masks@.len() implies #[trigger] self.masks@[k].wf()
                && self.masks@[k]@.len() <= 0x1_0000_0000 by {
                assert(old(self).masks@[k].wf());
            }
        }
        assert(self.masks() =~= old(self).masks());
    }

    /// The rows added so far.
    pub fn build(self) -> (r: JaggedBitset)
        requires
            self.wf(),
        ensures
            r@ == self.rows(),
    {
        self.builder.build()
    }
}

/// The largest range end among the modifiers before `i` that write
/// `field`, `0` if none does.
pub open spec fn changing_end(mods: Seq<MakeModify>, field: u32, i: int) -> int
    decreases i,
{
    if i <= 0 {
        0
    } else {
        let prev = changing_end(mods, field, i - 1);
        let m = mods[i - 1];
        if has_field(m.changes, field) && prev < m.range.end {
            m.range.end as int
        } else {
            prev
        }
    }
}

/// Modifier `i` depends directly on the root value of `field`: it reads
/// `field`, and no modifier before it that writes `field` reaches its start.
pub open spec fn depends_on_root(mods: Seq<MakeModify>, field: u32, i: int) -> bool {
    has_field(mods[i].depends, field) && !(changing_end(mods, field, i) >= mods[i].range.start)
}

/// The indices, in ascending order, of the first `n` modifiers that depend
/// directly on the root value of `field`.
pub open spec fn f2m_spec(mods: Seq<MakeModify>, field: u32, n: int) -> Seq<ModifyIndex>
    decreases n,
{
    if n <= 0 {
        Seq::empty()
    } else {
        f2m_spec(mods, field, n - 1) + if depends_on_root(mods, field, n - 1) {
            seq![ModifyIndex((n - 1) as u32)]
        } else {
            Seq::empty()
        }
    }
}

/// The list of modifiers that directly depend on a root field.
///
/// `field` is the property in question. A root field is the "parent style".
pub fn field_f2m(modifiers: &[MakeModify], field: u32) -> (r: Vec<ModifyIndex>)
    requires
        field < 64,
    ensures
        r@ == f2m_spec(modifiers@, field, modifiers@.len() as int),
{
    let ghost mods = modifiers@;
    let mut parent_field_range_end: u32 = 0;
    let mut out: Vec<ModifyIndex> = Vec::new();
    let mut i: usize = 0;
    while i < modifiers.len()
        invariant
            mods == modifiers@,
            field < 64,
            i <= mods.len(),
            parent_field_range_end == changing_end(mods, field, i as int),
            out@ == f2m_spec(mods, field, i as int),
        decreases mods.len() - i,
    {
        let modify = &modifiers[i];
        let depends = contains_field(modify.depends(), field);
        let changes = contains_field(modify.changes(), field);

        let is_child = parent_field_range_end >= modify.range.start;
        let depends_on_parent = depends && is_child;

        if changes && parent_field_range_end < modify.range.end {
            parent_field_range_end = modify.range.end;
        }
        if depends && !depends_on_parent {
            out.push(ModifyIndex::new(i));
        }
        proof {
            let n = i + 1;
            assert(f2m_spec(mods, field, n as int) == f2m_spec(mods, field, i as int) + if depends_on_root(mods, field, i as int) {
                seq![ModifyIndex(i as u32)]
            } else {
                Seq::empty()
            });
            if !(depends && !depends_on_parent) {
                assert(out@ =~= f2m_spec(mods, field, n as int));
            }
        }
        i = i + 1;
    }
    out
}

/// Modifier `k` is a parent of modifier `i` for `field`: it writes `field`
/// and its range reaches past the start of `i`'s.
pub open spec fn writes_over(mods: Seq<MakeModify>, field: u32, k: int, i: int) -> bool {
    has_field(mods[k].changes, field) && mods[k].range.end > mods[i].range.start
}

/// The last modifier before `k` that is a parent of `i` for `field`.
pub open spec fn latest_parent(mods: Seq<MakeModify>, field: u32, i: int, k: int) -> Option<int>
    decreases k,
{
    if k <= 0 {
        None
    } else if writes_over(mods, field, k - 1, i) {
        Some(k - 1)
    } else {
        latest_parent(mods, field, i, k - 1)
    }
}

proof fn lemma_latest_parent(mods: Seq<MakeModify>, field: u32, i: int, k: int)
    ensures
        latest_parent(mods, field, i, k) matches Some(p) ==> 0 <= p < k && writes_over(
            mods,
            field,
            p,
            i,
        ) && forall|q: int| p < q < k ==> !#[trigger] writes_over(mods, field, q, i),
        latest_parent(mods, field, i, k) is None ==> forall|q: int|
            0 <= q < k ==> !#[trigger] writes_over(mods, field, q, i),
    decreases k,
{
    if k > 0 {
        lemma_latest_parent(mods, field, i, k - 1);
    }
}

/// The parent→child pair of modifier `i` for `field`: when it reads `field`
/// and has a parent for it, the last such parent.
pub open spec fn m2m_pair(mods: Seq<MakeModify>, field: u32, i: int) -> Option<
    (ModifyIndex, ModifyIndex),
> {
    if has_field(mods[i].depends, field) {
        match latest_parent(mods, field, i, i) {
            Some(p) => Some((ModifyIndex(p as u32), ModifyIndex(i as u32))),
            None => None,
        }
    } else {
        None
    }
}

/// The parent→child pairs of the first `n` modifiers for `field`.
pub open spec fn m2m_spec(mods: Seq<MakeModify>, field: u32, n: int) -> Seq<
    (ModifyIndex, ModifyIndex),
>
    decreases n,
{
    if n <= 0 {
        Seq::empty()
    } else {
        m2m_spec(mods, field, n - 1) + match m2m_pair(mods, field, n - 1) {
            Some(pair) => seq![pair],
            None => Seq::empty(),
        }
    }
}

/// The list of modifiers that depend on other modifiers for their value on
/// `field`.
///
/// This is a list of parent→child tuples.
pub fn field_m2m(modifiers: &[MakeModify], field: u32) -> (r: Vec<(ModifyIndex, ModifyIndex)>)
    requires
        field < 64,
        ordered(modifiers@),
    ensures
        r@ == m2m_spec(modifiers@, field, modifiers@.len() as int),
{
    let ghost mods = modifiers@;
    // The modifiers that write `field` and may still be a parent: their
    // index and the end of their range, the last one on top.
    let mut parent: Vec<(ModifyIndex, u32)> = Vec::new();
    let ghost mut stack: Seq<int> = Seq::empty();
    let mut out: Vec<(ModifyIndex, ModifyIndex)> = Vec::new();
    let mut i: usize = 0;
    while i < modifiers.len()
        invariant
            mods == modifiers@,
            ordered(mods),
            field < 64,
            i <= mods.len(),
            out@ == m2m_spec(mods, field, i as int),
            stack.len() == parent@.len(),
            forall|a: int, b: int| 0 <= a < b < stack.len() ==> stack[a] < stack[b],
            forall|a: int|
                0 <= a < stack.len() ==> 0 <= #[trigger] stack[a] < i && has_field(
                    mods[stack[a]].changes,
                    field,
                ) && parent@[a] == (ModifyIndex(stack[a] as u32), mods[stack[a]].range.end),
            i < mods.len() ==> forall|k: int|
                0 <= k < i && has_field(mods[k].changes, field) && !stack.contains(k) ==> #[trigger] mods[k].range.end <= mods[i as int].range.start,
        decreases mods.len() - i,
    {
        let modify = &modifiers[i];
        let depends = contains_field(modify.depends(), field);
        let changes = contains_field(modify.changes(), field);
        let ghost st0 = stack;

        let mut ret: Option<(ModifyIndex, ModifyIndex)> = None;
        loop
            invariant_except_break
                ret is None,
            invariant
                mods == modifiers@,
                *modify == mods[i as int],
                i < mods.len(),
                stack.len() == parent@.len(),
                stack.len() <= st0.len(),
                stack == st0.take(stack.len() as int),
                forall|a: int, b: int| 0 <= a < b < st0.len() ==> st0[a] < st0[b],
                forall|a: int|
                    0 <= a < stack.len() ==> 0 <= #[trigger] stack[a] < i && has_field(
                        mods[stack[a]].changes,
                        field,
                    ) && parent@[a] == (ModifyIndex(stack[a] as u32), mods[stack[a]].range.end),
                forall|a: int|
                    stack.len() <= a < st0.len() ==> #[trigger] mods[st0[a]].range.end
                        <= mods[i as int].range.start,
            ensures
                stack.len() == parent@.len(),
                stack.len() <= st0.len(),
                stack == st0.take(stack.len() as int),
                forall|a: int|
                    0 <= a < stack.len() ==> 0 <= #[trigger] stack[a] < i && has_field(
                        mods[stack[a]].changes,
                        field,
                    ) && parent@[a] == (ModifyIndex(stack[a] as u32), mods[stack[a]].range.end),
                forall|a: int|
                    stack.len() <= a < st0.len() ==> #[trigger] mods[st0[a]].range.end
                        <= mods[i as int].range.start,
                stack.len() > 0 ==> mods[stack.last()].range.end > mods[i as int].range.start,
                ret == if depends && stack.len() > 0 {
                    Some((ModifyIndex(stack.last() as u32), ModifyIndex(i as u32)))
                } else {
                    None
                },
            decreases stack.len(),
        {
            match parent.pop() {
                Some((parent_i, parent_end)) => {
                    if parent_end > modify.range.start {
                        parent.push((parent_i, parent_end));
                        if depends {
                            ret = Some((parent_i, ModifyIndex::new(i)));
                        }
                        break;
                    }
                    proof {
                        stack = stack.drop_last();
                    }
                },
                None => {
                    break;
                },
            }
        }
        proof {
            lemma_latest_parent(mods, field, i as int, i as int);
            // Any parent of `i` is still on the stack, so the top of the
            // stack is the last one.
            assert forall|q: int| 0 <= q < i && #[trigger] writes_over(mods, field, q, i as int) implies stack.contains(q) by {
                if !st0.contains(q) {
                } else {
                    let a = choose|a: int| 0 <= a < st0.len() && st0[a] == q;
                    if a >= stack.len() {
                        assert(mods[st0[a]].range.end <= mods[i as int].range.start);
                    } else {
                        assert(stack[a] == q);
                    }
                }
            }
            if stack.len() > 0 {
                let t = stack.last();
                assert(writes_over(mods, field, t, i as int));
                assert forall|q: int| t < q < i implies !#[trigger] writes_over(mods, field, q, i as int) by {
                    if writes_over(mods, field, q, i as int) {
                        let a = choose|a: int| 0 <= a < stack.len() && stack[a] == q;
                        assert(stack[a] <= t);
                    }
                }
                assert(latest_parent(mods, field, i as int, i as int) == Some(t));
            } else {
                assert forall|q: int| 0 <= q < i implies !#[trigger] writes_over(mods, field, q, i as int) by {
                    if writes_over(mods, field, q, i as int) {
                        assert(stack.contains(q));
                    }
                }
            }
            assert(ret == m2m_pair(mods, field, i as int));
        }
        let ghost st1 = stack;
        if changes {
            parent.push((ModifyIndex::new(i), modify.range.end));
            proof {
                stack = stack.push(i as int);
            }
        }
        match ret {
            Some(pair) => {
                out.push(pair);
            },
            None => {},
        }
        proof {
            assert(out@ =~= m2m_spec(mods, field, i + 1));
            if i + 1 < mods.len() {
                assert forall|k: int|
                    0 <= k < i + 1 && has_field(mods[k].changes, field) && !stack.contains(k) implies #[trigger] mods[k].range.end <= mods[i + 1].range.start by {
                    assert(mods[i as int].range.start <= mods[i + 1].range.start);
                    if k < i {
                        if st0.contains(k) {
                            let a = choose|a: int| 0 <= a < st0.len() && st0[a] == k;
                            if a < st1.len() {
                                assert(st1[a] == k);
                                assert(stack[a] == st1[a]);
                            }
                        }
                    } else {
                        assert(stack[stack.len() - 1] == k);
                    }
                }
            }
        }
        i = i + 1;
    }
    out
}

/// The list of modifiers that depend on other modifiers for their value,
/// for each of the `field_count` fields in turn.
///
/// This is a list of parent→child tuples.
pub fn m2m(modifiers: &[MakeModify], field_count: u32) -> (r: Vec<(ModifyIndex, ModifyIndex)>)
    requires
        field_count <= 64,
        ordered(modifiers@),
    ensures
        r@ == Seq::new(field_count as nat, |f: int| m2m_spec(modifiers@, f as u32, modifiers@.len() as int)).flatten(),
{
    let mut out: Vec<(ModifyIndex, ModifyIndex)> = Vec::new();
    let ghost all = Seq::new(field_count as nat, |f: int| m2m_spec(modifiers@, f as u32, modifiers@.len() as int));
    let mut field: u32 = 0;
    while field < field_count
        invariant
            field <= field_count <= 64,
            ordered(modifiers@),
            all == Seq::new(field_count as nat, |f: int| m2m_spec(modifiers@, f as u32, modifiers@.len() as int)),
            out@ == all.take(field as int).flatten(),
        decreases field_count - field,
    {
        let mut pairs = field_m2m(modifiers, field);
        proof {
            assert(all.take(field + 1) =~= all.take(field as int).push(pairs@));
            all.take(field as int).lemma_flatten_push(pairs@);
        }
        out.append(&mut pairs);
        field = field + 1;
    }
    assert(all.take(field_count as int) =~= all);
    out
}

/// A child of a modifier masks only sections of that modifier: every masked
/// section lies within the modifier's range.
pub proof fn law_mask_within_range(mods: Seq<MakeModify>, i: int, x: int)
    requires
        0 <= i < mods.len(),
        ordered(mods),
        masked(mods, i, x),
    ensures
        0 <= x < mods[i].range.end - mods[i].range.start,
{
    lemma_children_end(mods, i, i + 1);
    let k = choose|k: int| i < k < children_end(mods, i, i + 1) && #[trigger] in_mask_range(mods[i], mods[k], x);
    assert(mods[i].range.start <= mods[k].range.start);
    assert(mods[k].range.end <= mods[i].range.end);
}

/// `changing_end` is `0` or the end of a modifier before `i` that writes
/// `field`, and no such modifier ends past it.
proof fn lemma_changing_end(mods: Seq<MakeModify>, field: u32, i: int)
    requires
        0 <= i <= mods.len(),
    ensures
        changing_end(mods, field, i) == 0 || exists|k: int|
            0 <= k < i && has_field(mods[k].changes, field) && #[trigger] mods[k].range.end
                == changing_end(mods, field, i),
        forall|k: int|
            0 <= k < i && has_field(mods[k].changes, field) ==> #[trigger] mods[k].range.end
                <= changing_end(mods, field, i),
    decreases i,
{
    if i > 0 {
        lemma_changing_end(mods, field, i - 1);
        if changing_end(mods, field, i) != 0 && changing_end(mods, field, i) != changing_end(
            mods,
            field,
            i - 1,
        ) {
            assert(mods[i - 1].range.end == changing_end(mods, field, i));
        }
    }
}

/// A modifier that reads `field` either depends on its root value (it is
/// listed by [`field_f2m`]) or on a parent that writes it (it is listed by
/// [`field_m2m`]), never both, when it does not start at section `0` and no
/// modifier before it that writes `field` ends exactly where it starts.
pub proof fn law_root_or_parent(mods: Seq<MakeModify>, field: u32, i: int)
    requires
        0 <= i < mods.len(),
        has_field(mods[i].depends, field),
        mods[i].range.start > 0,
        forall|k: int|
            0 <= k < i && has_field(mods[k].changes, field) ==> #[trigger] mods[k].range.end
                != mods[i].range.start,
    ensures
        depends_on_root(mods, field, i) <==> m2m_pair(mods, field, i) is None,
{
    lemma_changing_end(mods, field, i);
    lemma_latest_parent(mods, field, i, i);
    if depends_on_root(mods, field, i) {
        if let Some(p) = latest_parent(mods, field, i, i) {
            assert(mods[p].range.end <= changing_end(mods, field, i));
        }
    } else {
        let e = changing_end(mods, field, i);
        assert(e >= mods[i].range.start);
        let k = choose|k: int|
            0 <= k < i && has_field(mods[k].changes, field) && #[trigger] mods[k].range.end == e;
        assert(writes_over(mods, field, k, i));
    }
}

/// A row whose positions are all below `b` is at most `b` wide.
proof fn lemma_row_width_bound(row: Seq<u32>, b: int)
    requires
        forall|k: int| 0 <= k < row.len() ==> #[trigger] row[k] < b,
        b >= 0,
    ensures
        crate::jagged_bitset::row_width(row) <= b,
    decreases row.len(),
{
    if row.len() > 0 {
        assert(row.last() == row[row.len() - 1]);
        lemma_row_width_bound(row.drop_last(), b);
    }
}

/// What the rows of the masks of the first `n` modifiers take at most: the
/// length of each range, plus 32.
pub open spec fn span(mods: Seq<MakeModify>, n: int) -> int
    decreases n,
{
    if n <= 0 {
        0
    } else {
        span(mods, n - 1) + (mods[n - 1].range.end - mods[n - 1].range.start) + 32
    }
}

proof fn lemma_span(mods: Seq<MakeModify>, a: int, b: int)
    requires
        0 <= a <= b <= mods.len(),
        ordered(mods),
    ensures
        span(mods, a) <= span(mods, b),
    decreases b - a,
{
    if a < b {
        lemma_span(mods, a, b - 1);
        assert(mods[b - 1].range.start <= mods[b - 1].range.end);
    }
}

/// The sections of modifier `i` that its children mask, as many as its
/// range spans.
pub open spec fn mask_bits(mods: Seq<MakeModify>, i: int) -> Seq<bool> {
    Seq::new((mods[i].range.end - mods[i].range.start) as nat, |x: int| masked(mods, i, x))
}

/// The row of the masks of modifier `i`.
pub open spec fn mask_row(mods: Seq<MakeModify>, i: int) -> Seq<bool> {
    let b = mask_bits(mods, i);
    row_of(ones_seq(b, 0, b.len() as int).map_values(|x: int| x as u32))
}

/// The rows of the masks of the modifiers, among the first `n`, that are not
/// static.
pub open spec fn kept_rows(mods: Seq<MakeModify>, n: int) -> Seq<Seq<bool>>
    decreases n,
{
    if n <= 0 {
        Seq::empty()
    } else {
        kept_rows(mods, n - 1) + if !is_static_at(mods, n - 1) {
            seq![mask_row(mods, n - 1)]
        } else {
            Seq::empty()
        }
    }
}

/// Tells which modifiers are static, when checked in order, and builds the
/// masks of the others, one row each, in order.
///
/// A static modifier can be applied once and for all to the sections it
/// covers and then forgotten; the others stay, with their mask.
pub fn purge_static(modifiers: &[MakeModify]) -> (r: (Vec<bool>, JaggedBitset))
    requires
        ordered(modifiers@),
        fits(modifiers@),
        span(modifiers@, modifiers@.len() as int) < u32::MAX,
        8 * span(modifiers@, modifiers@.len() as int) + 64 <= usize::MAX,
    ensures
        r.0@.len() == modifiers@.len(),
        forall|i: int| 0 <= i < modifiers@.len() ==> #[trigger] r.0@[i] == is_static_at(modifiers@, i),
        r.1@ == kept_rows(modifiers@, modifiers@.len() as int),
{
    let ghost mods = modifiers@;
    let mut checker = CheckStatic::new();
    let mut masker = MaskRange::new(modifiers);
    let ghost masks = masker.masks();
    let mut statics: Vec<bool> = Vec::new();
    let mut i: usize = 0;
    while i < modifiers.len()
        invariant
            mods == modifiers@,
            ordered(mods),
            span(mods, mods.len() as int) < u32::MAX,
            8 * span(mods, mods.len() as int) + 64 <= usize::MAX,
            i <= mods.len(),
            checker.wf(),
            checker.state() == static_state(mods, i as int),
            masker.wf(),
            masker.masks() == masks,
            masks.len() == mods.len(),
            forall|k: int, x: int|
                0 <= k < mods.len() && 0 <= x < masks[k].len() ==> #[trigger] masks[k][x]
                    == masked(mods, k, x),
            forall|k: int, x: int|
                0 <= k < mods.len() && #[trigger] masked(mods, k, x) ==> 0 <= x < masks[k].len(),
            forall|k: int|
                0 <= k < mods.len() ==> #[trigger] masks[k].len() <= mods[k].range.end
                    - mods[k].range.start + 32,
            masker.rows() == kept_rows(mods, i as int),
            0 <= masker.next_start() <= span(mods, i as int),
            statics@.len() == i,
            forall|k: int| 0 <= k < i ==> #[trigger] statics@[k] == is_static_at(mods, k),
        decreases mods.len() - i,
    {
        let modifier = &modifiers[i];
        proof {
            lemma_static_state(mods, i as int);
            lemma_span(mods, i + 1, mods.len() as int);
        }
        if !checker.is_static(modifier) {
            masker.add_index(i);
            proof {
                let b = masks[i as int];
                let mb = mask_bits(mods, i as int);
                lemma_ones_seq(b, 0, b.len() as int);
                lemma_ones_seq(mb, 0, mb.len() as int);
                assert forall|x: int| ones_seq(b, 0, b.len() as int).contains(x) <==> ones_seq(
                    mb,
                    0,
                    mb.len() as int,
                ).contains(x) by {
                    if masked(mods, i as int, x) {
                        law_mask_within_range(mods, i as int, x);
                        assert(0 <= x < b.len());
                        assert(b[x]);
                        assert(mb[x]);
                    }
                    if 0 <= x < b.len() && b[x] {
                        assert(masked(mods, i as int, x));
                    }
                    if 0 <= x < mb.len() && mb[x] {
                        assert(masked(mods, i as int, x));
                    }
                }
                crate::bitset::lemma_ascending_unique(
                    ones_seq(b, 0, b.len() as int),
                    ones_seq(mb, 0, mb.len() as int),
                );
            }
            statics.push(false);
        } else {
            statics.push(true);
        }
        proof {
            assert(span(mods, i + 1) == span(mods, i as int) + (mods[i as int].range.end
                - mods[i as int].range.start) + 32);
            assert(kept_rows(mods, i + 1) == kept_rows(mods, i as int) + if !is_static_at(mods, i as int) {
                seq![mask_row(mods, i as int)]
            } else {
                Seq::empty()
            });
            if is_static_at(mods, i as int) {
                assert(masker.rows() =~= kept_rows(mods, i + 1));
            }
        }
        i = i + 1;
    }
    (statics, masker.build())
}

/// The modifiers, among the first `n`, that are not static, in order.
pub open spec fn dynamic_mods(mods: Seq<MakeModify>, n: int) -> Seq<MakeModify>
    decreases n,
{
    if n <= 0 {
        Seq::empty()
    } else {
        dynamic_mods(mods, n - 1) + if !is_static_at(mods, n - 1) {
            seq![mods[n - 1]]
        } else {
            Seq::empty()
        }
    }
}

proof fn lemma_dynamic_mods(mods: Seq<MakeModify>, n: int)
    requires
        0 <= n <= mods.len(),
    ensures
        dynamic_mods(mods, n).len() <= n,
        forall|a: int|
            0 <= a < dynamic_mods(mods, n).len() ==> exists|k: int|
                0 <= k < n && #[trigger] dynamic_mods(mods, n)[a] == mods[k],
        ordered(mods) ==> forall|a: int, b: int|
            0 <= a <= b < dynamic_mods(mods, n).len() ==> exists|ka: int, kb: int|
                0 <= ka <= kb < n && #[trigger] dynamic_mods(mods, n)[a] == mods[ka]
                    && #[trigger] dynamic_mods(mods, n)[b] == mods[kb],
    decreases n,
{
    if n > 0 {
        lemma_dynamic_mods(mods, n - 1);
        let prev = dynamic_mods(mods, n - 1);
        let cur = dynamic_mods(mods, n);
        assert forall|a: int| 0 <= a < cur.len() implies exists|k: int|
            0 <= k < n && #[trigger] cur[a] == mods[k] by {
            if a < prev.len() {
                assert(cur[a] == prev[a]);
                let k = choose|k: int| 0 <= k < n - 1 && #[trigger] prev[a] == mods[k];
            } else {
                assert(cur[a] == mods[n - 1]);
            }
        }
        if ordered(mods) {
            assert forall|a: int, b: int| 0 <= a <= b < cur.len() implies exists|ka: int, kb: int|
                0 <= ka <= kb < n && #[trigger] cur[a] == mods[ka] && #[trigger] cur[b]
                    == mods[kb] by {
                if b < prev.len() {
                    assert(cur[a] == prev[a] && cur[b] == prev[b]);
                    let (ka, kb) = choose|ka: int, kb: int|
                        0 <= ka <= kb < n - 1 && #[trigger] prev[a] == mods[ka] && #[trigger] prev[b]
                            == mods[kb];
                } else {
                    assert(cur[b] == mods[n - 1]);
                    if a < prev.len() {
                        assert(cur[a] == prev[a]);
                        let ka = choose|ka: int| 0 <= ka < n - 1 && #[trigger] prev[a] == mods[ka];
                        assert(cur[a] == mods[ka] && cur[b] == mods[n - 1]);
                    } else {
                        assert(cur[a] == mods[n - 1]);
                    }
                }
            }
        }
    }
}

/// The bindings of `mods`, with the position of the modifier bound to each,
/// in order.
pub open spec fn bound_pairs(mods: Seq<MakeModify>, n: int) -> Seq<(u32, ModifyIndex)>
    decreases n,
{
    if n <= 0 {
        Seq::empty()
    } else {
        bound_pairs(mods, n - 1) + match mods[n - 1].binding {
            Some(id) => seq![(id.value(), ModifyIndex((n - 1) as u32))],
            None => Seq::empty(),
        }
    }
}

/// The dependency tables of a resolver, over the modifiers that are not
/// static.
pub struct Dependencies {
    /// The modifiers that depend on other modifiers: parent→child pairs.
    pub m2m: BitMultiMap,
    /// For each field, the modifiers that directly depend on its root value.
    pub f2m: Vec<Vec<ModifyIndex>>,
    /// The modifier each binding is bound to, by ascending binding id.
    pub b2m: KeySorted<ModifyIndex>,
    /// The sections each modifier must not update, one row per modifier.
    pub masks: JaggedBitset,
}

/// Splits off the static modifiers of `modifiers` and builds the dependency
/// tables of the others, for fields `0..field_count`.
///
/// Returns the tables, the modifiers that are not static (the tables
/// index them), and which of `modifiers` are static.
pub fn build(modifiers: Vec<MakeModify>, field_count: u32) -> (r: (Dependencies, Vec<MakeModify>, Vec<bool>))
    requires
        field_count <= 64,
        ordered(modifiers@),
        fits(modifiers@),
        span(modifiers@, modifiers@.len() as int) < u32::MAX,
        8 * span(modifiers@, modifiers@.len() as int) + 64 <= usize::MAX,
        (64 * modifiers@.len()) * (64 * modifiers@.len()) * 8 + 64 <= usize::MAX,
    ensures
        r.2@.len() == modifiers@.len(),
        forall|i: int| 0 <= i < modifiers@.len() ==> #[trigger] r.2@[i] == is_static_at(modifiers@, i),
        r.1@ == dynamic_mods(modifiers@, modifiers@.len() as int),
        r.0.masks@ == kept_rows(modifiers@, modifiers@.len() as int),
        r.0.f2m@.len() == field_count,
        forall|f: int| 0 <= f < field_count ==> #[trigger] r.0.f2m@[f]@ == f2m_spec(r.1@, f as u32, r.1@.len() as int),
        forall|p: u32, c: u32| #[trigger] r.0.m2m@.contains((p, c)) <==> Seq::new(
            field_count as nat,
            |f: int| m2m_spec(r.1@, f as u32, r.1@.len() as int),
        ).flatten().contains((ModifyIndex(p), ModifyIndex(c))),
        is_key_sorted(r.0.b2m@),
        r.0.b2m@.to_multiset() == bound_pairs(r.1@, r.1@.len() as int).to_multiset(),
        r.0.masks@.len() == r.1@.len(),
        forall|p: u32, c: u32| #[trigger] r.0.m2m@.contains((p, c)) ==> p < c < r.1@.len(),
        r.0.m2m.keys_seq().len() <= 64 * r.1@.len(),
        r.0.m2m.values_seq().len() <= 64 * r.1@.len(),
        forall|f: int, k: int|
            0 <= f < r.0.f2m@.len() && 0 <= k < r.0.f2m@[f]@.len() ==> (#[trigger] r.0.f2m@[f]@[k]).0
                < r.1@.len(),
        forall|k: int| 0 <= k < r.0.b2m@.len() ==> (#[trigger] r.0.b2m@[k]).1.0 < r.1@.len(),
{
    let ghost mods = modifiers@;
    proof {
        let m = mods.len() as int;
        assert(usize::MAX <= 0xffff_ffff_ffff_ffff);
        if m >= 0x800_0000 {
            assert((64 * m) * (64 * m) * 8 >= 0x2_0000_0000 * 0x2_0000_0000 * 8) by (nonlinear_arith)
                requires
                    m >= 0x800_0000,
            ;
        }
        assert(m < 0x800_0000);
    }
    let (statics, masks) = purge_static(modifiers.as_slice());
    let n = modifiers.len();
    // Keep the modifiers that are not static.
    let mut rest = modifiers;
    let mut kept: Vec<MakeModify> = Vec::new();
    let mut i: usize = 0;
    while i < n
        invariant
            n == mods.len(),
            i <= n,
            rest@.len() == n - i,
            forall|k: int| 0 <= k < rest@.len() ==> #[trigger] rest@[k] == mods[i + k],
            statics@.len() == n,
            forall|k: int| 0 <= k < n ==> #[trigger] statics@[k] == is_static_at(mods, k),
            kept@ == dynamic_mods(mods, i as int),
        decreases n - i,
    {
        let modifier = rest.remove(0);
        if !statics[i] {
            kept.push(modifier);
        }
        proof {
            assert(dynamic_mods(mods, i + 1) == dynamic_mods(mods, i as int) + if !is_static_at(mods, i as int) {
                seq![mods[i as int]]
            } else {
                Seq::empty()
            });
            assert(kept@ =~= dynamic_mods(mods, i + 1));
        }
        i = i + 1;
    }
    let ghost ks = kept@;
    proof {
        lemma_dynamic_mods(mods, n as int);
        assert(ordered(ks)) by {
            assert forall|a: int, b: int| 0 <= a <= b < ks.len() implies ks[a].range.start <= ks[b].range.start by {
                let (ka, kb) = choose|ka: int, kb: int|
                    0 <= ka <= kb < n && #[trigger] ks[a] == mods[ka] && #[trigger] ks[b] == mods[kb];
            }
            assert forall|a: int| 0 <= a < ks.len() implies #[trigger] ks[a].range.start <= ks[a].range.end by {
                let k = choose|k: int| 0 <= k < n && #[trigger] ks[a] == mods[k];
            }
        }
    }

    let pairs_by_field = m2m(kept.as_slice(), field_count);
    proof {
        lemma_m2m_len(ks, field_count);
    }
    let mut pairs: Vec<(u32, u32)> = Vec::new();
    let mut k: usize = 0;
    while k < pairs_by_field.len()
        invariant
            k <= pairs_by_field@.len(),
            pairs@.len() == k,
            forall|j: int| 0 <= j < k ==> #[trigger] pairs@[j] == ((pairs_by_field@[j].0).0, (pairs_by_field@[j].1).0),
        decreases pairs_by_field@.len() - k,
    {
        let (parent, child) = pairs_by_field[k];
        pairs.push((parent.0, child.0));
        k = k + 1;
    }
    let ghost all = Seq::new(field_count as nat, |f: int| m2m_spec(ks, f as u32, ks.len() as int)).flatten();
    assert(pairs@.len() <= 64 * n);
    proof {
        assert((64 * n) * (64 * n) * 8 + 64 <= usize::MAX);
        assert(pairs@.len() * pairs@.len() <= (64 * n) * (64 * n)) by (nonlinear_arith)
            requires
                pairs@.len() <= 64 * n,
        ;
    }
    let ghost pairs_v = pairs@;
    let m2m_map = BitMultiMap::from_pairs(pairs);
    proof {
        assert(pairs_v.len() <= 64 * ks.len());
    }
    proof {
        assert forall|p: u32, c: u32| #[trigger] m2m_map@.contains((p, c)) <==> all.contains((ModifyIndex(p), ModifyIndex(c))) by {
            if all.contains((ModifyIndex(p), ModifyIndex(c))) {
                let j = choose|j: int| 0 <= j < all.len() && all[j] == (ModifyIndex(p), ModifyIndex(c));
                assert(pairs@[j] == (p, c));
            }
            if m2m_map@.contains((p, c)) {
                let j = choose|j: int| 0 <= j < pairs@.len() && pairs@[j] == (p, c);
                assert(all[j] == (ModifyIndex(p), ModifyIndex(c)));
            }
        }
    }

    proof {
        lemma_dynamic_mods(mods, n as int);
        let per_field = Seq::new(field_count as nat, |f: int| m2m_spec(ks, f as u32, ks.len() as int));
        assert forall|f: int| 0 <= f < per_field.len() implies forall|j: int|
            0 <= j < #[trigger] per_field[f].len() ==> pair_fits(per_field[f][j], ks.len() as int) by {
            lemma_m2m_spec_fits(ks, f as u32, ks.len() as int);
        }
        lemma_flatten_pairs_fit(per_field, ks.len() as int);
        assert forall|p: u32, c: u32| #[trigger] m2m_map@.contains((p, c)) implies p < c < ks.len() by {
            let j = choose|j: int| 0 <= j < all.len() && all[j] == (ModifyIndex(p), ModifyIndex(c));
            assert(pair_fits(all[j], ks.len() as int));
        }
    }
    let mut f2m: Vec<Vec<ModifyIndex>> = Vec::new();
    let mut field: u32 = 0;
    while field < field_count
        invariant
            field <= field_count <= 64,
            ks == kept@,
            f2m@.len() == field,
            forall|f: int| 0 <= f < field ==> #[trigger] f2m@[f]@ == f2m_spec(ks, f as u32, ks.len() as int),
        decreases field_count - field,
    {
        f2m.push(field_f2m(kept.as_slice(), field));
        field = field + 1;
    }

    let mut b2m: Vec<(u32, ModifyIndex)> = Vec::new();
    let mut j: usize = 0;
    while j < kept.len()
        invariant
            ks == kept@,
            j <= ks.len(),
            ks.len() <= n,
            n < 0x800_0000,
            b2m@ == bound_pairs(ks, j as int),
        decreases ks.len() - j,
    {
        if let Some(id) = kept[j].binding {
            b2m.push((id.get_value(), ModifyIndex::new(j)));
        }
        proof {
            assert(bound_pairs(ks, j + 1) == bound_pairs(ks, j as int) + match ks[j as int].binding {
                Some(id) => seq![(id.value(), ModifyIndex(j as u32))],
                None => Seq::empty(),
            });
            assert(b2m@ =~= bound_pairs(ks, j + 1));
        }
        j = j + 1;
    }
    let ghost pairs_model = b2m@;
    let b2m = KeySorted::from_vec(b2m);
    proof {
        lemma_kept_rows_len(mods, n as int);
        lemma_bound_pairs_fit(ks, ks.len() as int);
        assert forall|k: int| 0 <= k < b2m@.len() implies (#[trigger] b2m@[k]).1.0 < ks.len() by {
            broadcast use vstd::seq_lib::to_multiset_contains;

            assert(b2m@.contains(b2m@[k]));
            assert(b2m@.to_multiset().count(b2m@[k]) > 0);
            assert(pairs_model.to_multiset().count(b2m@[k]) > 0);
            let j = choose|j: int| 0 <= j < pairs_model.len() && pairs_model[j] == b2m@[k];
        }
        assert forall|f: int, k: int|
            0 <= f < f2m@.len() && 0 <= k < f2m@[f]@.len() implies (#[trigger] f2m@[f]@[k]).0
            < ks.len() by {
            lemma_f2m_spec_fits(ks, f as u32, ks.len() as int);
        }
    }
    (Dependencies { m2m: m2m_map, f2m, b2m, masks }, kept, statics)
}

/// The pair goes from a modifier to a later one, both below `n`.
pub open spec fn pair_fits(x: (ModifyIndex, ModifyIndex), n: int) -> bool {
    x.0.0 < x.1.0 < n
}

proof fn lemma_m2m_spec_fits(mods: Seq<MakeModify>, field: u32, n: int)
    requires
        0 <= n <= mods.len(),
        mods.len() <= u32::MAX,
    ensures
        forall|j: int|
            0 <= j < m2m_spec(mods, field, n).len() ==> pair_fits(
                #[trigger] m2m_spec(mods, field, n)[j],
                mods.len() as int,
            ),
    decreases n,
{
    if n > 0 {
        lemma_m2m_spec_fits(mods, field, n - 1);
        lemma_latest_parent(mods, field, n - 1, n - 1);
        let prev = m2m_spec(mods, field, n - 1);
        let cur = m2m_spec(mods, field, n);
        assert forall|j: int| 0 <= j < cur.len() implies pair_fits(#[trigger] cur[j], mods.len() as int) by {
            if j < prev.len() {
                assert(cur[j] == prev[j]);
            }
        }
    }
}

proof fn lemma_f2m_spec_fits(mods: Seq<MakeModify>, field: u32, n: int)
    requires
        0 <= n <= mods.len(),
        mods.len() <= u32::MAX,
    ensures
        forall|j: int| 0 <= j < f2m_spec(mods, field, n).len() ==> (#[trigger] f2m_spec(mods, field, n)[j]).0 < mods.len(),
    decreases n,
{
    if n > 0 {
        lemma_f2m_spec_fits(mods, field, n - 1);
        let prev = f2m_spec(mods, field, n - 1);
        let cur = f2m_spec(mods, field, n);
        assert forall|j: int| 0 <= j < cur.len() implies (#[trigger] cur[j]).0 < mods.len() by {
            if j < prev.len() {
                assert(cur[j] == prev[j]);
            }
        }
    }
}

proof fn lemma_bound_pairs_fit(mods: Seq<MakeModify>, n: int)
    requires
        0 <= n <= mods.len(),
        mods.len() <= u32::MAX,
    ensures
        forall|j: int| 0 <= j < bound_pairs(mods, n).len() ==> (#[trigger] bound_pairs(mods, n)[j]).1.0 < mods.len(),
    decreases n,
{
    if n > 0 {
        lemma_bound_pairs_fit(mods, n - 1);
        let prev = bound_pairs(mods, n - 1);
        let cur = bound_pairs(mods, n);
        assert forall|j: int| 0 <= j < cur.len() implies (#[trigger] cur[j]).1.0 < mods.len() by {
            if j < prev.len() {
                assert(cur[j] == prev[j]);
            }
        }
    }
}

proof fn lemma_flatten_pairs_fit(ss: Seq<Seq<(ModifyIndex, ModifyIndex)>>, n: int)
    requires
        forall|i: int| 0 <= i < ss.len() ==> forall|j: int|
            0 <= j < #[trigger] ss[i].len() ==> pair_fits(ss[i][j], n),
    ensures
        forall|j: int| 0 <= j < ss.flatten().len() ==> pair_fits(#[trigger] ss.flatten()[j], n),
    decreases ss.len(),
{
    if ss.len() > 0 {
        let rest = ss.drop_first();
        assert forall|i: int| 0 <= i < rest.len() implies forall|j: int|
            0 <= j < #[trigger] rest[i].len() ==> pair_fits(rest[i][j], n) by {
            assert(rest[i] == ss[i + 1]);
        }
        lemma_flatten_pairs_fit(rest, n);
        assert(ss.flatten() == ss.first() + rest.flatten());
        assert forall|j: int| 0 <= j < ss.flatten().len() implies pair_fits(#[trigger] ss.flatten()[j], n) by {
            if j < ss.first().len() {
                assert(ss.flatten()[j] == ss[0][j]);
            } else {
                assert(ss.flatten()[j] == rest.flatten()[j - ss.first().len()]);
            }
        }
    }
}

proof fn lemma_kept_rows_len(mods: Seq<MakeModify>, n: int)
    requires
        0 <= n,
    ensures
        kept_rows(mods, n).len() == dynamic_mods(mods, n).len(),
    decreases n,
{
    if n > 0 {
        lemma_kept_rows_len(mods, n - 1);
    }
}

/// A modifier has at most one parent per field.
proof fn lemma_m2m_spec_len(mods: Seq<MakeModify>, field: u32, n: int)
    requires
        0 <= n,
    ensures
        m2m_spec(mods, field, n).len() <= n,
    decreases n,
{
    if n > 0 {
        lemma_m2m_spec_len(mods, field, n - 1);
    }
}

/// There are at most `mods.len()` parent→child pairs per field, over the
/// first `k` fields.
proof fn lemma_m2m_len_upto(mods: Seq<MakeModify>, field_count: u32, k: int)
    requires
        0 <= k <= field_count,
    ensures
        Seq::new(field_count as nat, |f: int| m2m_spec(mods, f as u32, mods.len() as int)).take(
            k,
        ).flatten().len() <= k * mods.len(),
    decreases k,
{
    let all = Seq::new(field_count as nat, |f: int| m2m_spec(mods, f as u32, mods.len() as int));
    if k == 0 {
        assert(all.take(0) =~= Seq::<Seq<(ModifyIndex, ModifyIndex)>>::empty());
    } else {
        lemma_m2m_len_upto(mods, field_count, k - 1);
        lemma_m2m_spec_len(mods, (k - 1) as u32, mods.len() as int);
        assert(all.take(k) =~= all.take(k - 1).push(all[k - 1]));
        all.take(k - 1).lemma_flatten_push(all[k - 1]);
        assert(k * mods.len() == (k - 1) * mods.len() + mods.len()) by (nonlinear_arith);
    }
}

/// There are at most `field_count` parent→child pairs per modifier.
proof fn lemma_m2m_len(mods: Seq<MakeModify>, field_count: u32)
    requires
        field_count <= 64,
    ensures
        Seq::new(field_count as nat, |f: int| m2m_spec(mods, f as u32, mods.len() as int)).flatten().len()
            <= 64 * mods.len(),
{
    let all = Seq::new(field_count as nat, |f: int| m2m_spec(mods, f as u32, mods.len() as int));
    lemma_m2m_len_upto(mods, field_count, field_count as int);
    assert(all.take(field_count as int) =~= all);
    assert(field_count * mods.len() <= 64 * mods.len()) by (nonlinear_arith)
        requires
            field_count <= 64,
    ;
}

} // verus!
