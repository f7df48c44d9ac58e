//! A resolver with minimal overhead: it applies the modifiers given as
//! values to their sections once, and keeps, for each binding that modifies
//! a single section, which section that is.
//!
//! Applying a modifier runs the user's code; here it is only decided which
//! modifier goes to which sections (see [`Action`]).
use vstd::prelude::*;

use crate::binding::Id;

use super::evaluate::{Action, ActionModel};
use super::{MakeModify, ModifyIndex};

verus! {

/// How many sections `mods` span: the largest end of their ranges, `0` when
/// there are none.
pub open spec fn section_count(mods: Seq<MakeModify>) -> int
    decreases mods.len(),
{
    if mods.len() == 0 {
        0
    } else {
        let rest = section_count(mods.drop_last());
        if mods.last().range.end > rest {
            mods.last().range.end as int
        } else {
            rest
        }
    }
}

/// `m` is bound to a binding and spans a single section.
pub open spec fn binds_one(m: MakeModify) -> bool {
    m.binding is Some && m.range.end == m.range.start + 1
}

/// The sections `start` to `end`, `end` excluded, in order.
pub open spec fn range_seq(start: u32, end: u32) -> Seq<u32> {
    Seq::new((end - start) as nat, |x: int| (start + x) as u32)
}

/// What is applied once for the modifiers `mods`: each one given as a value,
/// in order, to each section of its range.
pub open spec fn value_actions(mods: Seq<MakeModify>) -> Seq<ActionModel>
    decreases mods.len(),
{
    if mods.len() == 0 {
        Seq::empty()
    } else {
        let m = mods.last();
        value_actions(mods.drop_last()) + if m.binding is None {
            seq![((mods.len() - 1) as u32, range_seq(m.range.start, m.range.end), false, false)]
        } else {
            Seq::empty()
        }
    }
}

/// The bindings of `mods` that modify a single section: the number each
/// one's id holds, and that section, in order.
pub open spec fn bound_pairs(mods: Seq<MakeModify>) -> Seq<(u32, u32)>
    decreases mods.len(),
{
    if mods.len() == 0 {
        Seq::empty()
    } else {
        let m = mods.last();
        bound_pairs(mods.drop_last()) + if binds_one(m) {
            seq![(m.binding->Some_0.value(), m.range.start)]
        } else {
            Seq::empty()
        }
    }
}

/// How long a table indexed by the bindings of `pairs` is: one past the
/// largest, `0` when there are none.
pub open spec fn table_len(pairs: Seq<(u32, u32)>) -> int
    decreases pairs.len(),
{
    if pairs.len() == 0 {
        0
    } else {
        let rest = table_len(pairs.drop_last());
        if pairs.last().0 + 1 > rest {
            pairs.last().0 + 1
        } else {
            rest
        }
    }
}

/// The section that binding `b` modifies by `pairs`: the last one given.
pub open spec fn table_at(pairs: Seq<(u32, u32)>, b: int) -> Option<u32>
    decreases pairs.len(),
{
    if pairs.len() == 0 {
        None
    } else if pairs.last().0 == b {
        Some(pairs.last().1)
    } else {
        table_at(pairs.drop_last(), b)
    }
}

/// For each binding, the single section it modifies, if any.
pub struct MinResolver {
    indices: Vec<Option<u32>>,
}

/// The sections updated when the bindings `changed` change, with `indices`
/// and `item_count` sections: the position in `changed` of each binding that
/// modifies a section below `item_count`, and that section, in order.
pub open spec fn min_updates(indices: Seq<Option<u32>>, changed: Seq<Id>, item_count: int) -> Seq<
    (usize, u32),
>
    decreases changed.len(),
{
    if changed.len() == 0 {
        Seq::empty()
    } else {
        let k = changed.len() - 1;
        let b = changed.last().value() as int;
        let hit = 0 <= b < indices.len() && (indices[b] matches Some(s) && s < item_count);
        min_updates(indices, changed.drop_last(), item_count) + if hit {
            seq![(k as usize, indices[b]->Some_0)]
        } else {
            Seq::empty()
        }
    }
}

proof fn lemma_table_len(pairs: Seq<(u32, u32)>)
    ensures
        table_len(pairs) >= 0,
        forall|j: int| 0 <= j < pairs.len() ==> #[trigger] pairs[j].0 < table_len(pairs),
    decreases pairs.len(),
{
    if pairs.len() > 0 {
        lemma_table_len(pairs.drop_last());
        assert forall|j: int| 0 <= j < pairs.len() implies #[trigger] pairs[j].0 < table_len(pairs) by {
            if j < pairs.len() - 1 {
                assert(pairs.drop_last()[j] == pairs[j]);
            }
        }
    }
}

proof fn lemma_bound_pairs(mods: Seq<MakeModify>)
    requires
        forall|k: int|
            0 <= k < mods.len() && binds_one(#[trigger] mods[k]) ==> mods[k].binding->Some_0.value()
                < usize::MAX,
    ensures
        forall|j: int| 0 <= j < bound_pairs(mods).len() ==> #[trigger] bound_pairs(mods)[j].0 < usize::MAX,
    decreases mods.len(),
{
    if mods.len() > 0 {
        assert forall|k: int|
            0 <= k < mods.drop_last().len() && binds_one(#[trigger] mods.drop_last()[k]) implies mods.drop_last()[k].binding->Some_0.value()
                < usize::MAX by {
            assert(mods.drop_last()[k] == mods[k]);
        }
        lemma_bound_pairs(mods.drop_last());
        let r = bound_pairs(mods.drop_last());
        assert forall|j: int| 0 <= j < bound_pairs(mods).len() implies #[trigger] bound_pairs(mods)[j].0
            < usize::MAX by {
            if j < r.len() {
                assert(bound_pairs(mods)[j] == r[j]);
            } else {
                assert(binds_one(mods[mods.len() - 1]));
            }
        }
    }
}

proof fn lemma_table_at_len(pairs: Seq<(u32, u32)>, b: int)
    requires
        table_at(pairs, b) is Some,
    ensures
        0 <= b < table_len(pairs),
    decreases pairs.len(),
{
    if pairs.last().0 != b {
        lemma_table_at_len(pairs.drop_last(), b);
    }
}

proof fn lemma_table_at_last(mods: Seq<MakeModify>, k: int)
    requires
        0 <= k < mods.len(),
        binds_one(mods[k]),
        forall|j: int|
            k < j < mods.len() && binds_one(#[trigger] mods[j]) ==> mods[j].binding->Some_0.value()
                != mods[k].binding->Some_0.value(),
    ensures
        table_at(bound_pairs(mods), mods[k].binding->Some_0.value() as int) == Some(mods[k].range.start),
    decreases mods.len(),
{
    let v = mods[k].binding->Some_0.value() as int;
    let last = mods.last();
    if k < mods.len() - 1 {
        assert forall|j: int|
            k < j < mods.drop_last().len() && binds_one(#[trigger] mods.drop_last()[j]) implies mods.drop_last()[j].binding->Some_0.value()
                != mods.drop_last()[k].binding->Some_0.value() by {
            assert(mods.drop_last()[j] == mods[j]);
        }
        assert(mods.drop_last()[k] == mods[k]);
        lemma_table_at_last(mods.drop_last(), k);
        if binds_one(last) {
            assert(binds_one(mods[mods.len() - 1]));
            assert(bound_pairs(mods).drop_last() =~= bound_pairs(mods.drop_last()));
        } else {
            assert(bound_pairs(mods) =~= bound_pairs(mods.drop_last()));
        }
    }
}

/// A binding that modifies a single section is found again: when it alone
/// changes, the last section given to it is updated, if there is such a
/// section.
pub proof fn law_min_binding_found(mods: Seq<MakeModify>, k: int, item_count: int)
    requires
        0 <= k < mods.len(),
        binds_one(mods[k]),
        forall|j: int|
            k < j < mods.len() && binds_one(#[trigger] mods[j]) ==> mods[j].binding->Some_0.value()
                != mods[k].binding->Some_0.value(),
        mods[k].range.start < item_count,
    ensures
        ({
            let pairs = bound_pairs(mods);
            let indices = Seq::new(table_len(pairs) as nat, |b: int| table_at(pairs, b));
            min_updates(indices, seq![mods[k].binding->Some_0], item_count) == seq![
                (0usize, mods[k].range.start),
            ]
        }),
{
    let pairs = bound_pairs(mods);
    let indices = Seq::new(table_len(pairs) as nat, |b: int| table_at(pairs, b));
    let id = mods[k].binding->Some_0;
    lemma_table_at_last(mods, k);
    lemma_table_at_len(pairs, id.value() as int);
    let changed = seq![id];
    assert(changed.drop_last() =~= Seq::<Id>::empty());
    assert(indices[id.value() as int] == Some(mods[k].range.start));
    assert(changed.last() == id);
    assert(min_updates(indices, changed.drop_last(), item_count) =~= Seq::<(usize, u32)>::empty());
    assert(min_updates(indices, changed, item_count) =~= seq![(0usize, mods[k].range.start)]);
}

impl MinResolver {
    /// For each binding, by the number its id holds, the section it
    /// modifies, if any.
    pub closed spec fn indices(&self) -> Seq<Option<u32>> {
        self.indices@
    }

    /// The resolver for `modifiers`, the number of sections they span, and
    /// what to apply to the sections once (see [`value_actions`]). The
    /// resolver keeps, for each binding, the section it modifies (see
    /// [`bound_pairs`]; the last one given wins); a bound modifier that
    /// spans more than one section is skipped.
    pub fn new(modifiers: &[MakeModify]) -> (r: (Self, u32, Vec<Action>))
        requires
            modifiers@.len() <= u32::MAX,
            forall|k: int|
                0 <= k < modifiers@.len() && (#[trigger] modifiers@[k]).binding is None
                    ==> modifiers@[k].range.start <= modifiers@[k].range.end,
            forall|k: int|
                0 <= k < modifiers@.len() && binds_one(#[trigger] modifiers@[k])
                    ==> modifiers@[k].binding->Some_0.value() < usize::MAX,
        ensures
            r.0.indices().len() == table_len(bound_pairs(modifiers@)),
            forall|b: int|
                0 <= b < r.0.indices().len() ==> #[trigger] r.0.indices()[b] == table_at(
                    bound_pairs(modifiers@),
                    b,
                ),
            r.1 == section_count(modifiers@),
            r.2@.map_values(|a: Action| a.model()) == value_actions(modifiers@),
    {
        let mut count: u32 = 0;
        let mut actions: Vec<Action> = Vec::new();
        let mut bindings: Vec<(u32, u32)> = Vec::new();
        let mut k: usize = 0;
        while k < modifiers.len()
            invariant
                k <= modifiers@.len() <= u32::MAX,
                forall|j: int|
                    0 <= j < modifiers@.len() && (#[trigger] modifiers@[j]).binding is None
                        ==> modifiers@[j].range.start <= modifiers@[j].range.end,
                count == section_count(modifiers@.take(k as int)),
                actions@.map_values(|a: Action| a.model()) == value_actions(modifiers@.take(k as int)),
                bindings@ == bound_pairs(modifiers@.take(k as int)),
            decreases modifiers@.len() - k,
        {
            let m = &modifiers[k];
            proof {
                assert(modifiers@.take(k + 1).drop_last() =~= modifiers@.take(k as int));
                assert(modifiers@.take(k + 1).last() == modifiers@[k as int]);
            }
            if m.range.end > count {
                count = m.range.end;
            }
            match m.binding {
                Some(id) => {
                    if m.range.start < u32::MAX && m.range.end == m.range.start + 1 {
                        bindings.push((id.get_value(), m.range.start));
                    }
                },
                None => {
                    let mut sections: Vec<u32> = Vec::new();
                    let mut s: u32 = m.range.start;
                    while s < m.range.end
                        invariant
                            m.range.start <= s <= m.range.end,
                            sections@ == range_seq(m.range.start, s),
                        decreases m.range.end - s,
                    {
                        sections.push(s);
                        s = s + 1;
                        assert(sections@ =~= range_seq(m.range.start, s));
                    }
                    actions.push(Action { index: ModifyIndex(k as u32), sections, reset: false, bound: false });
                },
            }
            proof {
                assert(actions@.map_values(|a: Action| a.model()) =~= value_actions(modifiers@.take(k + 1)));
                assert(bindings@ =~= bound_pairs(modifiers@.take(k + 1)));
            }
            k = k + 1;
        }
        assert(modifiers@.take(k as int) =~= modifiers@);
        let ghost pairs = bindings@;
        proof {
            lemma_bound_pairs(modifiers@);
        }
        let mut len: usize = 0;
        let mut j: usize = 0;
        while j < bindings.len()
            invariant
                pairs == bindings@,
                forall|x: int| 0 <= x < pairs.len() ==> #[trigger] pairs[x].0 < usize::MAX,
                j <= pairs.len(),
                len == table_len(pairs.take(j as int)),
            decreases pairs.len() - j,
        {
            proof {
                assert(pairs.take(j + 1).drop_last() =~= pairs.take(j as int));
                assert(pairs.take(j + 1).last() == pairs[j as int]);
            }
            let b = bindings[j].0 as usize;
            if b + 1 > len {
                len = b + 1;
            }
            j = j + 1;
        }
        assert(pairs.take(j as int) =~= pairs);
        let mut indices: Vec<Option<u32>> = Vec::new();
        while indices.len() < len
            invariant
                indices@.len() <= len,
                forall|x: int| 0 <= x < indices@.len() ==> #[trigger] indices@[x] is None,
            decreases len - indices@.len(),
        {
            indices.push(None);
        }
        proof {
            lemma_table_len(pairs);
        }
        let mut j: usize = 0;
        while j < bindings.len()
            invariant
                pairs == bindings@,
                len == table_len(pairs),
                forall|x: int| 0 <= x < pairs.len() ==> #[trigger] pairs[x].0 < table_len(pairs),
                indices@.len() == len,
                j <= pairs.len(),
                forall|b: int| 0 <= b < len ==> #[trigger] indices@[b] == table_at(pairs.take(j as int), b),
            decreases pairs.len() - j,
        {
            proof {
                assert(pairs.take(j + 1).drop_last() =~= pairs.take(j as int));
                assert(pairs.take(j + 1).last() == pairs[j as int]);
            }
            let (b, s) = bindings[j];
            assert(pairs[j as int].0 < table_len(pairs));
            indices.set(b as usize, Some(s));
            j = j + 1;
        }
        assert(pairs.take(j as int) =~= pairs);
        (MinResolver { indices }, count, actions)
    }

    /// The sections to update when the bindings `changed` change, out of
    /// `item_count` (see [`min_updates`]): each with the position in
    /// `changed` of the binding whose value to apply to it.
    pub fn update(&self, changed: &[Id], item_count: usize) -> (r: Vec<(usize, u32)>)
        ensures
            r@ == min_updates(self.indices(), changed@, item_count as int),
    {
        let mut out: Vec<(usize, u32)> = Vec::new();
        let mut k: usize = 0;
        while k < changed.len()
            invariant
                k <= changed@.len(),
                out@ == min_updates(self.indices@, changed@.take(k as int), item_count as int),
            decreases changed@.len() - k,
        {
            proof {
                assert(changed@.take(k + 1).drop_last() =~= changed@.take(k as int));
                assert(changed@.take(k + 1).last() == changed@[k as int]);
            }
            let b = changed[k].get_value() as usize;
            if b < self.indices.len() {
                if let Some(s) = self.indices[b] {
                    if (s as usize) < item_count {
                        out.push((k, s));
                    }
                }
            }
            k = k + 1;
        }
        assert(changed@.take(k as int) =~= changed@);
        out
    }
}

} // verus!
