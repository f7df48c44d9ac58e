//! What a resolver does when fields or bindings change: which modifiers to
//! apply, in which order, to which sections.
//!
//! Applying a modifier runs the user's code; here it is only decided: each
//! decision is an [`Action`].
use vstd::prelude::*;

use crate::binding::Id;
use crate::jagged_bitset::JaggedBitset;
use crate::sorted::KeySorted;

use super::{has_field, Dependencies, MakeModify, ModifyIndex};

verus! {

/// Apply modifier `index` to `sections`.
#[derive(Debug, PartialEq, Eq)]
pub struct Action {
    /// The modifier to apply.
    pub index: ModifyIndex,
    /// The sections to apply it to, ascending.
    pub sections: Vec<u32>,
    /// Reset each section to the root value before applying.
    pub reset: bool,
    /// Apply the value of the modifier's binding rather than its own.
    pub bound: bool,
}

/// What an [`Action`] holds: the modifier, the sections, whether to reset,
/// whether to apply the binding's value.
pub type ActionModel = (u32, Seq<u32>, bool, bool);

impl Action {
    pub open spec fn model(&self) -> ActionModel {
        (self.index.0, self.sections@, self.reset, self.bound)
    }
}

/// Whether section `x` (relative to the modifier's start) is masked in
/// `row`.
pub open spec fn row_masks(row: Seq<bool>, x: int) -> bool {
    0 <= x < row.len() && row[x]
}

/// The sections of `m` from `from` on, in ascending order, but those its
/// mask `row` masks; nothing is masked when `m` spans a single section.
pub open spec fn unmasked_from(m: MakeModify, row: Seq<bool>, from: int) -> Seq<u32>
    decreases m.range.end - from,
{
    if from >= m.range.end {
        Seq::empty()
    } else if m.range.end - m.range.start > 1 && row_masks(row, from - m.range.start) {
        unmasked_from(m, row, from + 1)
    } else {
        seq![from as u32] + unmasked_from(m, row, from + 1)
    }
}

/// The sections `m` updates: its range, but those its mask `row` masks.
pub open spec fn unmasked(m: MakeModify, row: Seq<bool>) -> Seq<u32> {
    unmasked_from(m, row, m.range.start as int)
}

/// Whether `m` leaves section `s` out: it spans more than one section and
/// its mask `row` masks `s`.
pub open spec fn masked_out(m: MakeModify, row: Seq<bool>, s: int) -> bool {
    m.range.end - m.range.start > 1 && row_masks(row, s - m.range.start)
}

proof fn lemma_unmasked_from(m: MakeModify, row: Seq<bool>, from: int)
    requires
        0 <= from,
    ensures
        forall|k: int|
            0 <= k < unmasked_from(m, row, from).len() ==> from <= #[trigger] unmasked_from(
                m,
                row,
                from,
            )[k] < m.range.end,
        forall|k1: int, k2: int|
            0 <= k1 < k2 < unmasked_from(m, row, from).len() ==> #[trigger] unmasked_from(
                m,
                row,
                from,
            )[k1] < #[trigger] unmasked_from(m, row, from)[k2],
        forall|s: u32|
            #[trigger] unmasked_from(m, row, from).contains(s) <==> from <= s < m.range.end
                && !masked_out(m, row, s as int),
    decreases m.range.end - from,
{
    let u = unmasked_from(m, row, from);
    if from < m.range.end {
        lemma_unmasked_from(m, row, from + 1);
        let rest = unmasked_from(m, row, from + 1);
        if !masked_out(m, row, from) {
            assert(u == seq![from as u32] + rest);
            assert forall|k: int| 0 <= k < u.len() implies from <= #[trigger] u[k] < m.range.end by {
                if k > 0 {
                    assert(u[k] == rest[k - 1]);
                }
            }
            assert forall|k1: int, k2: int| 0 <= k1 < k2 < u.len() implies #[trigger] u[k1] < #[trigger] u[k2] by {
                assert(u[k2] == rest[k2 - 1]);
                if k1 > 0 {
                    assert(u[k1] == rest[k1 - 1]);
                }
            }
            assert forall|s: u32| #[trigger] u.contains(s) <==> from <= s < m.range.end && !masked_out(m, row, s as int) by {
                if u.contains(s) {
                    let k = choose|k: int| 0 <= k < u.len() && u[k] == s;
                    if k > 0 {
                        assert(rest.contains(rest[k - 1]));
                    }
                }
                if from <= s < m.range.end && !masked_out(m, row, s as int) {
                    if s == from {
                        assert(u[0] == s);
                    } else {
                        assert(rest.contains(s));
                        let k = choose|k: int| 0 <= k < rest.len() && rest[k] == s;
                        assert(u[k + 1] == s);
                    }
                }
            }
        } else {
            assert(u == rest);
        }
    }
}

/// Law: an action covers, in ascending order and each once, the sections of
/// its modifier's range that the modifier does not leave out.
pub proof fn law_unmasked_sections(m: MakeModify, row: Seq<bool>)
    ensures
        forall|k1: int, k2: int|
            0 <= k1 < k2 < unmasked(m, row).len() ==> #[trigger] unmasked(m, row)[k1]
                < #[trigger] unmasked(m, row)[k2],
        forall|s: u32|
            #[trigger] unmasked(m, row).contains(s) <==> m.range.start <= s < m.range.end
                && !masked_out(m, row, s as int),
{
    lemma_unmasked_from(m, row, m.range.start as int);
}

/// The action for modifier `i`: `None` when it is bound and no binding
/// value is given, since it has no value of its own.
pub open spec fn action_of(
    mods: Seq<MakeModify>,
    rows: Seq<Seq<bool>>,
    i: int,
    reset: bool,
    bound: bool,
) -> Option<ActionModel> {
    if !bound && mods[i].binding is Some {
        None
    } else {
        Some((i as u32, unmasked(mods[i], rows[i]), reset, bound))
    }
}

/// The actions of updating modifier `i`: its own, then those of updating
/// each modifier that depends on it (in ascending order), neither resetting
/// nor using a binding value.
pub open spec fn update_spec(
    mods: Seq<MakeModify>,
    rows: Seq<Seq<bool>>,
    m2m: Set<(u32, u32)>,
    i: int,
    reset: bool,
    bound: bool,
) -> Seq<ActionModel>
    decreases mods.len() - i, 1int, 0int,
{
    if i < 0 || i >= mods.len() {
        Seq::empty()
    } else {
        match action_of(mods, rows, i, reset, bound) {
            None => Seq::empty(),
            Some(a) => seq![a] + children_spec(mods, rows, m2m, i, mods.len() as int),
        }
    }
}

/// The actions of updating the modifiers below `c` that depend on
/// modifier `i`, in ascending order.
pub open spec fn children_spec(
    mods: Seq<MakeModify>,
    rows: Seq<Seq<bool>>,
    m2m: Set<(u32, u32)>,
    i: int,
    c: int,
) -> Seq<ActionModel>
    decreases mods.len() - i, 0int, c,
{
    if c <= 0 || c > mods.len() || i < 0 || i >= mods.len() {
        Seq::empty()
    } else {
        children_spec(mods, rows, m2m, i, c - 1) + if i < c - 1 && m2m.contains(
            (i as u32, (c - 1) as u32),
        ) {
            update_spec(mods, rows, m2m, c - 1, false, false)
        } else {
            Seq::empty()
        }
    }
}

proof fn lemma_children_skip(
    mods: Seq<MakeModify>,
    rows: Seq<Seq<bool>>,
    m2m: Set<(u32, u32)>,
    i: int,
    a: int,
    b: int,
)
    requires
        0 <= i < mods.len(),
        0 <= a <= b <= mods.len(),
        forall|c: int| a <= c < b ==> !#[trigger] m2m.contains((i as u32, c as u32)),
    ensures
        children_spec(mods, rows, m2m, i, b) == children_spec(mods, rows, m2m, i, a),
    decreases b - a,
{
    if a < b {
        lemma_children_skip(mods, rows, m2m, i, a, b - 1);
        assert(!m2m.contains((i as u32, (b - 1) as u32)));
        assert(children_spec(mods, rows, m2m, i, b) =~= children_spec(mods, rows, m2m, i, b - 1));
    }
}

/// Whether, after each action of `acts`, every modifier without a binding
/// that depends on the modifier the action applies is applied in turn: as
/// a dependent, to its unmasked sections, neither reset nor bound.
pub open spec fn dependents_follow(
    mods: Seq<MakeModify>,
    rows: Seq<Seq<bool>>,
    m2m: Set<(u32, u32)>,
    acts: Seq<ActionModel>,
) -> bool {
    forall|x: int, c: u32|
        0 <= x < acts.len() && #[trigger] m2m.contains((acts[x].0, c)) && mods[c as int].binding is None
            ==> exists|y: int|
            x < y < acts.len() && #[trigger] acts[y] == (
                c,
                unmasked(mods[c as int], rows[c as int]),
                false,
                false,
            )
}

proof fn lemma_follow_concat(
    mods: Seq<MakeModify>,
    rows: Seq<Seq<bool>>,
    m2m: Set<(u32, u32)>,
    a: Seq<ActionModel>,
    b: Seq<ActionModel>,
)
    requires
        dependents_follow(mods, rows, m2m, a),
        dependents_follow(mods, rows, m2m, b),
    ensures
        dependents_follow(mods, rows, m2m, a + b),
{
    let s = a + b;
    assert forall|x: int, c: u32|
        0 <= x < s.len() && #[trigger] m2m.contains((s[x].0, c)) && mods[c as int].binding is None
            implies exists|y: int|
        x < y < s.len() && #[trigger] s[y] == (
            c,
            unmasked(mods[c as int], rows[c as int]),
            false,
            false,
        ) by {
        let own = (c, unmasked(mods[c as int], rows[c as int]), false, false);
        if x < a.len() {
            assert(s[x] == a[x]);
            assert(m2m.contains((a[x].0, c)));
            let y = choose|y: int| x < y < a.len() && #[trigger] a[y] == own;
            assert(s[y] == a[y]);
        } else {
            assert(s[x] == b[x - a.len()]);
            assert(m2m.contains((b[x - a.len()].0, c)));
            let y = choose|y: int| x - a.len() < y < b.len() && #[trigger] b[y] == own;
            assert(s[y + a.len()] == b[y]);
        }
    }
}

proof fn lemma_children_prefix(
    mods: Seq<MakeModify>,
    rows: Seq<Seq<bool>>,
    m2m: Set<(u32, u32)>,
    i: int,
    a: int,
    b: int,
)
    requires
        0 <= i < mods.len(),
        0 <= a <= b <= mods.len(),
    ensures
        children_spec(mods, rows, m2m, i, a).len() <= children_spec(mods, rows, m2m, i, b).len(),
        children_spec(mods, rows, m2m, i, b).take(children_spec(mods, rows, m2m, i, a).len() as int)
            == children_spec(mods, rows, m2m, i, a),
    decreases b - a,
{
    if a < b {
        lemma_children_prefix(mods, rows, m2m, i, a, b - 1);
        let p = children_spec(mods, rows, m2m, i, a);
        let q = children_spec(mods, rows, m2m, i, b - 1);
        let r = children_spec(mods, rows, m2m, i, b);
        let tail = if i < b - 1 && m2m.contains((i as u32, (b - 1) as u32)) {
            update_spec(mods, rows, m2m, b - 1, false, false)
        } else {
            Seq::empty()
        };
        assert(r == q + tail);
        assert(r.take(q.len() as int) =~= q);
        assert(r.take(p.len() as int) =~= q.take(p.len() as int));
    } else {
        let p = children_spec(mods, rows, m2m, i, a);
        assert(p.take(p.len() as int) =~= p);
    }
}

proof fn lemma_update_follow(
    mods: Seq<MakeModify>,
    rows: Seq<Seq<bool>>,
    m2m: Set<(u32, u32)>,
    j: int,
    reset: bool,
    bound: bool,
)
    requires
        0 <= j < mods.len(),
        mods.len() <= u32::MAX,
        forall|p: u32, c: u32| #[trigger] m2m.contains((p, c)) ==> p < c < mods.len(),
    ensures
        dependents_follow(mods, rows, m2m, update_spec(mods, rows, m2m, j, reset, bound)),
    decreases mods.len() - j, 1int, 0int,
{
    let s = update_spec(mods, rows, m2m, j, reset, bound);
    let n = mods.len() as int;
    match action_of(mods, rows, j, reset, bound) {
        None => {},
        Some(a) => {
            let cs = children_spec(mods, rows, m2m, j, n);
            lemma_children_follow(mods, rows, m2m, j, n);
            assert(s == seq![a] + cs);
            assert forall|x: int, c: u32|
                0 <= x < s.len() && #[trigger] m2m.contains((s[x].0, c)) && mods[c as int].binding is None
                    implies exists|y: int|
                x < y < s.len() && #[trigger] s[y] == (
                    c,
                    unmasked(mods[c as int], rows[c as int]),
                    false,
                    false,
                ) by {
                let own = (c, unmasked(mods[c as int], rows[c as int]), false, false);
                if x == 0 {
                    assert(s[0] == a);
                    assert(a.0 == j as u32);
                    assert(j < c < n);
                    let before = children_spec(mods, rows, m2m, j, c as int);
                    let upto = children_spec(mods, rows, m2m, j, c + 1);
                    let child = update_spec(mods, rows, m2m, c as int, false, false);
                    assert(((c + 1) - 1) as u32 == c);
                    assert(upto == before + child);
                    assert(child[0] == own);
                    lemma_children_prefix(mods, rows, m2m, j, c + 1, n);
                    assert(upto[before.len() as int] == own);
                    assert(cs.take(upto.len() as int)[before.len() as int] == own);
                    assert(s[before.len() as int + 1] == cs[before.len() as int]);
                } else {
                    assert(s[x] == cs[x - 1]);
                    assert(m2m.contains((cs[x - 1].0, c)));
                    let y = choose|y: int| x - 1 < y < cs.len() && #[trigger] cs[y] == own;
                    assert(s[y + 1] == cs[y]);
                }
            }
        },
    }
}

proof fn lemma_children_follow(
    mods: Seq<MakeModify>,
    rows: Seq<Seq<bool>>,
    m2m: Set<(u32, u32)>,
    i: int,
    c: int,
)
    requires
        0 <= i < mods.len(),
        0 <= c <= mods.len(),
        mods.len() <= u32::MAX,
        forall|p: u32, d: u32| #[trigger] m2m.contains((p, d)) ==> p < d < mods.len(),
    ensures
        dependents_follow(mods, rows, m2m, children_spec(mods, rows, m2m, i, c)),
    decreases mods.len() - i, 0int, c,
{
    if c > 0 {
        lemma_children_follow(mods, rows, m2m, i, c - 1);
        let tail = if i < c - 1 && m2m.contains((i as u32, (c - 1) as u32)) {
            update_spec(mods, rows, m2m, c - 1, false, false)
        } else {
            Seq::empty()
        };
        if i < c - 1 && m2m.contains((i as u32, (c - 1) as u32)) {
            lemma_update_follow(mods, rows, m2m, c - 1, false, false);
        }
        lemma_follow_concat(mods, rows, m2m, children_spec(mods, rows, m2m, i, c - 1), tail);
    }
}

/// Whether `act` applies a modifier without a binding as a dependent: to its
/// unmasked sections, neither reset nor bound.
pub open spec fn applies_as_dependent(
    mods: Seq<MakeModify>,
    rows: Seq<Seq<bool>>,
    act: ActionModel,
) -> bool {
    &&& act.0 < mods.len()
    &&& mods[act.0 as int].binding is None
    &&& act == (act.0, unmasked(mods[act.0 as int], rows[act.0 as int]), false, false)
}

/// Whether each action of `acts` applies as a dependent a modifier that
/// depends on modifier `p`, or on the modifier of an earlier action.
pub open spec fn caused_by(
    mods: Seq<MakeModify>,
    rows: Seq<Seq<bool>>,
    m2m: Set<(u32, u32)>,
    acts: Seq<ActionModel>,
    p: u32,
) -> bool {
    forall|y: int|
        0 <= y < acts.len() ==> applies_as_dependent(mods, rows, #[trigger] acts[y]) && (m2m.contains(
            (p, acts[y].0),
        ) || exists|x: int| 0 <= x < y && #[trigger] m2m.contains((acts[x].0, acts[y].0)))
}

proof fn lemma_caused_concat(
    mods: Seq<MakeModify>,
    rows: Seq<Seq<bool>>,
    m2m: Set<(u32, u32)>,
    a: Seq<ActionModel>,
    b: Seq<ActionModel>,
    p: u32,
)
    requires
        caused_by(mods, rows, m2m, a, p),
        caused_by(mods, rows, m2m, b, p),
    ensures
        caused_by(mods, rows, m2m, a + b, p),
{
    let s = a + b;
    assert forall|y: int| 0 <= y < s.len() implies applies_as_dependent(mods, rows, #[trigger] s[y]) && (
    m2m.contains((p, s[y].0)) || exists|x: int| 0 <= x < y && #[trigger] m2m.contains((s[x].0, s[y].0))) by {
        if y < a.len() {
            assert(s[y] == a[y]);
            if !m2m.contains((p, a[y].0)) {
                let x = choose|x: int| 0 <= x < y && #[trigger] m2m.contains((a[x].0, a[y].0));
                assert(s[x] == a[x]);
            }
        } else {
            let z = y - a.len();
            assert(s[y] == b[z]);
            if !m2m.contains((p, b[z].0)) {
                let x = choose|x: int| 0 <= x < z && #[trigger] m2m.contains((b[x].0, b[z].0));
                assert(s[x + a.len()] == b[x]);
            }
        }
    }
}

proof fn lemma_update_caused(
    mods: Seq<MakeModify>,
    rows: Seq<Seq<bool>>,
    m2m: Set<(u32, u32)>,
    j: int,
    reset: bool,
    bound: bool,
)
    requires
        0 <= j < mods.len(),
        mods.len() <= u32::MAX,
        forall|p: u32, c: u32| #[trigger] m2m.contains((p, c)) ==> p < c < mods.len(),
    ensures
        update_spec(mods, rows, m2m, j, reset, bound).len() > 0 ==> caused_by(
            mods,
            rows,
            m2m,
            update_spec(mods, rows, m2m, j, reset, bound).skip(1),
            j as u32,
        ),
    decreases mods.len() - j, 1int, 0int,
{
    let s = update_spec(mods, rows, m2m, j, reset, bound);
    let n = mods.len() as int;
    match action_of(mods, rows, j, reset, bound) {
        None => {},
        Some(a) => {
            lemma_children_caused(mods, rows, m2m, j, n);
            assert(s.skip(1) =~= children_spec(mods, rows, m2m, j, n));
        },
    }
}

proof fn lemma_children_caused(
    mods: Seq<MakeModify>,
    rows: Seq<Seq<bool>>,
    m2m: Set<(u32, u32)>,
    i: int,
    c: int,
)
    requires
        0 <= i < mods.len(),
        0 <= c <= mods.len(),
        mods.len() <= u32::MAX,
        forall|p: u32, d: u32| #[trigger] m2m.contains((p, d)) ==> p < d < mods.len(),
    ensures
        caused_by(mods, rows, m2m, children_spec(mods, rows, m2m, i, c), i as u32),
    decreases mods.len() - i, 0int, c,
{
    if c > 0 {
        lemma_children_caused(mods, rows, m2m, i, c - 1);
        let d = c - 1;
        let tail = if i < d && m2m.contains((i as u32, d as u32)) {
            update_spec(mods, rows, m2m, d, false, false)
        } else {
            Seq::empty()
        };
        if i < d && m2m.contains((i as u32, d as u32)) {
            lemma_update_caused(mods, rows, m2m, d, false, false);
            if tail.len() > 0 {
                let rest = tail.skip(1);
                assert(tail[0] == (d as u32, unmasked(mods[d], rows[d]), false, false));
                assert(mods[d].binding is None);
                assert forall|y: int| 0 <= y < tail.len() implies applies_as_dependent(
                    mods,
                    rows,
                    #[trigger] tail[y],
                ) && (m2m.contains((i as u32, tail[y].0)) || exists|x: int|
                    0 <= x < y && #[trigger] m2m.contains((tail[x].0, tail[y].0))) by {
                    if y > 0 {
                        assert(tail[y] == rest[y - 1]);
                        if m2m.contains((d as u32, rest[y - 1].0)) {
                            assert(m2m.contains((tail[0].0, tail[y].0)));
                        } else {
                            let x = choose|x: int|
                                0 <= x < y - 1 && #[trigger] m2m.contains((rest[x].0, rest[y - 1].0));
                            assert(tail[x + 1] == rest[x]);
                        }
                    }
                }
            }
        }
        lemma_caused_concat(
            mods,
            rows,
            m2m,
            children_spec(mods, rows, m2m, i, c - 1),
            tail,
            i as u32,
        );
    }
}

/// Law: right after its own action, updating modifier `i` gives the update of
/// the first modifier that depends on `i`; and the updates of two modifiers
/// that depend on `i`, with none in between, stand side by side in it, the
/// lower first.
pub proof fn law_update_dependents_in_order(
    mods: Seq<MakeModify>,
    rows: Seq<Seq<bool>>,
    m2m: Set<(u32, u32)>,
    i: int,
    reset: bool,
    bound: bool,
    c1: int,
    c2: int,
)
    requires
        0 <= i < mods.len(),
        mods.len() <= u32::MAX,
        forall|p: u32, c: u32| #[trigger] m2m.contains((p, c)) ==> p < c < mods.len(),
        bound || mods[i].binding is None,
        m2m.contains((i as u32, c1 as u32)),
        i < c1 < mods.len(),
    ensures
        (forall|d: int| i < d < c1 ==> !#[trigger] m2m.contains((i as u32, d as u32))) ==> update_spec(
            mods,
            rows,
            m2m,
            i,
            reset,
            bound,
        ).subrange(1, 1 + update_spec(mods, rows, m2m, c1, false, false).len() as int) == update_spec(
            mods,
            rows,
            m2m,
            c1,
            false,
            false,
        ),
        c1 < c2 < mods.len() && m2m.contains((i as u32, c2 as u32)) && (forall|d: int|
            c1 < d < c2 ==> !#[trigger] m2m.contains((i as u32, d as u32))) ==> exists|o: int|
            1 <= o && o + update_spec(mods, rows, m2m, c1, false, false).len() + update_spec(
                mods,
                rows,
                m2m,
                c2,
                false,
                false,
            ).len() <= update_spec(mods, rows, m2m, i, reset, bound).len() && #[trigger] update_spec(
                mods,
                rows,
                m2m,
                i,
                reset,
                bound,
            ).subrange(
                o,
                o + update_spec(mods, rows, m2m, c1, false, false).len() + update_spec(
                    mods,
                    rows,
                    m2m,
                    c2,
                    false,
                    false,
                ).len(),
            ) == update_spec(mods, rows, m2m, c1, false, false) + update_spec(
                mods,
                rows,
                m2m,
                c2,
                false,
                false,
            ),
{
    let n = mods.len() as int;
    let s = update_spec(mods, rows, m2m, i, reset, bound);
    let cs = children_spec(mods, rows, m2m, i, n);
    let u1 = update_spec(mods, rows, m2m, c1, false, false);
    assert(s == seq![s[0]] + cs);
    assert(((c1 + 1) - 1) as u32 == c1 as u32);
    assert(children_spec(mods, rows, m2m, i, c1 + 1) == children_spec(mods, rows, m2m, i, c1) + u1);
    lemma_children_prefix(mods, rows, m2m, i, c1 + 1, n);
    let upto1 = children_spec(mods, rows, m2m, i, c1 + 1);
    if forall|d: int| i < d < c1 ==> !#[trigger] m2m.contains((i as u32, d as u32)) {
        assert forall|d: int| 0 <= d < c1 implies !#[trigger] m2m.contains((i as u32, d as u32)) by {
            if d <= i {
                if m2m.contains((i as u32, d as u32)) {
                    assert((i as u32) < (d as u32));
                }
            }
        }
        lemma_children_skip(mods, rows, m2m, i, 0, c1);
        assert(children_spec(mods, rows, m2m, i, 0) =~= Seq::<ActionModel>::empty());
        assert(upto1 =~= u1);
        assert(s.subrange(1, 1 + u1.len() as int) =~= cs.take(u1.len() as int));
    }
    if c1 < c2 < n && m2m.contains((i as u32, c2 as u32)) && (forall|d: int|
        c1 < d < c2 ==> !#[trigger] m2m.contains((i as u32, d as u32))) {
        let u2 = update_spec(mods, rows, m2m, c2, false, false);
        let before = children_spec(mods, rows, m2m, i, c1);
        lemma_children_skip(mods, rows, m2m, i, c1 + 1, c2);
        assert(((c2 + 1) - 1) as u32 == c2 as u32);
        let upto2 = children_spec(mods, rows, m2m, i, c2 + 1);
        assert(upto2 == children_spec(mods, rows, m2m, i, c2) + u2);
        assert(upto2 == before + u1 + u2);
        lemma_children_prefix(mods, rows, m2m, i, c2 + 1, n);
        let o: int = 1 + before.len() as int;
        assert(s.subrange(o, o + u1.len() + u2.len()) =~= upto2.subrange(
            before.len() as int,
            upto2.len() as int,
        ));
        assert(upto2.subrange(before.len() as int, upto2.len() as int) =~= u1 + u2);
        assert(s.subrange(o, o + u1.len() + u2.len()) == u1 + u2);
    }
}

/// Law: updating modifier `i` applies `i` itself first, unless it is bound
/// and no binding value is handed over, in which case nothing is applied;
/// each unbound modifier that depends on one the update applies, directly or
/// through others, is applied after it; and every later action applies, as a
/// dependent, a modifier that depends on `i` or on the modifier of an earlier
/// action.
pub proof fn law_update_reaches_dependents(
    mods: Seq<MakeModify>,
    rows: Seq<Seq<bool>>,
    m2m: Set<(u32, u32)>,
    i: int,
    reset: bool,
    bound: bool,
)
    requires
        0 <= i < mods.len(),
        mods.len() <= u32::MAX,
        forall|p: u32, c: u32| #[trigger] m2m.contains((p, c)) ==> p < c < mods.len(),
    ensures
        (bound || mods[i].binding is None) ==> {
            &&& update_spec(mods, rows, m2m, i, reset, bound).len() > 0
            &&& update_spec(mods, rows, m2m, i, reset, bound)[0] == (
                i as u32,
                unmasked(mods[i], rows[i]),
                reset,
                bound,
            )
        },
        !bound && mods[i].binding is Some ==> update_spec(mods, rows, m2m, i, reset, bound)
            == Seq::<ActionModel>::empty(),
        dependents_follow(mods, rows, m2m, update_spec(mods, rows, m2m, i, reset, bound)),
        update_spec(mods, rows, m2m, i, reset, bound).len() > 0 ==> caused_by(
            mods,
            rows,
            m2m,
            update_spec(mods, rows, m2m, i, reset, bound).skip(1),
            i as u32,
        ),
{
    lemma_update_follow(mods, rows, m2m, i, reset, bound);
    lemma_update_caused(mods, rows, m2m, i, reset, bound);
}

/// The tables fit the `n` modifiers they were built for: one mask row per
/// modifier, each dependency goes from a modifier to a later one, and the
/// indices they hold are those of modifiers.
pub open spec fn tables_fit(deps: &Dependencies, n: int) -> bool {
    &&& deps.masks@.len() == n
    &&& n <= u32::MAX
    &&& forall|p: u32, c: u32| #[trigger] deps.m2m@.contains((p, c)) ==> p < c < n
    &&& deps.m2m.keys_seq().len() * deps.m2m.values_seq().len() <= 0x1_0000_0000
    &&& forall|f: int, k: int|
        0 <= f < deps.f2m@.len() && 0 <= k < deps.f2m@[f]@.len() ==> (#[trigger] deps.f2m@[f]@[k]).0
            < n
    &&& forall|k: int| 0 <= k < deps.b2m@.len() ==> (#[trigger] deps.b2m@[k]).1.0 < n
}

impl Dependencies {
    /// Whether these tables fit `n` modifiers (see [`tables_fit`]), as
    /// [`update_all`] needs.
    pub fn fits(&self, n: usize) -> (r: bool)
        ensures
            r == tables_fit(self, n as int),
    {
        if self.masks.height() != n || n > 0xffff_ffff {
            return false;
        }
        let keys = self.m2m.keys();
        let values = self.m2m.values();
        let kl = keys.len() as u128;
        let vl = values.len() as u128;
        assert(kl * vl <= 0xffff_ffff_ffff_ffff_ffff_ffff_ffff_ffff) by (nonlinear_arith)
            requires
                kl <= 0xffff_ffff_ffff_ffff,
                vl <= 0xffff_ffff_ffff_ffff,
        ;
        let size = kl * vl;
        if size > 0x1_0000_0000 {
            return false;
        }
        let mut i: usize = 0;
        while i < keys.len()
            invariant
                i <= keys@.len(),
                keys@ == self.m2m.keys_seq(),
                self.m2m.keys_seq().len() * self.m2m.values_seq().len() <= 0x1_0000_0000,
                forall|k: u32, v: u32| #[trigger] self.m2m@.contains((k, v)) ==> keys@.contains(k),
                forall|x: int, c: u32|
                    0 <= x < i && #[trigger] self.m2m@.contains((keys@[x], c)) ==> keys@[x] < c < n,
            decreases keys@.len() - i,
        {
            let p = keys[i];
            let children = self.m2m.get(p);
            let mut j: usize = 0;
            while j < children.len()
                invariant
                    j <= children@.len(),
                    forall|c: u32| #[trigger] children@.contains(c) <==> self.m2m@.contains((p, c)),
                    forall|y: int| 0 <= y < j ==> p < #[trigger] children@[y] < n,
                decreases children@.len() - j,
            {
                let c = children[j];
                if !(p < c && (c as usize) < n) {
                    assert(children@.contains(children@[j as int]));
                    assert(self.m2m@.contains((p, c)));
                    return false;
                }
                j = j + 1;
            }
            proof {
                assert forall|x: int, c: u32|
                    0 <= x < i + 1 && #[trigger] self.m2m@.contains((keys@[x], c)) implies keys@[x] < c < n by {
                    if x == i {
                        assert(children@.contains(c));
                        let y = choose|y: int| 0 <= y < children@.len() && children@[y] == c;
                    }
                }
            }
            i = i + 1;
        }
        proof {
            assert forall|p: u32, c: u32| #[trigger] self.m2m@.contains((p, c)) implies p < c < n by {
                assert(keys@.contains(p));
                let x = choose|x: int| 0 <= x < keys@.len() && keys@[x] == p;
                assert(self.m2m@.contains((keys@[x], c)));
            }
        }
        let mut f: usize = 0;
        while f < self.f2m.len()
            invariant
                self.masks@.len() == n,
                n <= u32::MAX,
                self.m2m.keys_seq().len() * self.m2m.values_seq().len() <= 0x1_0000_0000,
                forall|p: u32, c: u32| #[trigger] self.m2m@.contains((p, c)) ==> p < c < n,
                f <= self.f2m@.len(),
                forall|g: int, k: int|
                    0 <= g < f && 0 <= k < self.f2m@[g]@.len() ==> (#[trigger] self.f2m@[g]@[k]).0 < n,
            decreases self.f2m@.len() - f,
        {
            let list = &self.f2m[f];
            let mut k: usize = 0;
            while k < list.len()
                invariant
                    f < self.f2m@.len(),
                    k <= list@.len(),
                    list@ == self.f2m@[f as int]@,
                    forall|y: int| 0 <= y < k ==> (#[trigger] list@[y]).0 < n,
                decreases list@.len() - k,
            {
                if list[k].0 as usize >= n {
                    assert(self.f2m@[f as int]@[k as int] == list@[k as int]);
                    return false;
                }
                k = k + 1;
            }
            proof {
                assert forall|g: int, x: int|
                    0 <= g < f + 1 && 0 <= x < self.f2m@[g]@.len() implies (#[trigger] self.f2m@[g]@[x]).0 < n by {
                    if g == f {
                        assert(list@[x] == self.f2m@[g]@[x]);
                    }
                }
            }
            f = f + 1;
        }
        let mut it = self.b2m.iter();
        let ghost all = self.b2m@;
        let ghost mut k: int = 0;
        loop
            invariant
                self.masks@.len() == n,
                n <= u32::MAX,
                self.m2m.keys_seq().len() * self.m2m.values_seq().len() <= 0x1_0000_0000,
                forall|p: u32, c: u32| #[trigger] self.m2m@.contains((p, c)) ==> p < c < n,
                forall|g: int, k: int|
                    0 <= g < self.f2m@.len() && 0 <= k < self.f2m@[g]@.len() ==> (#[trigger] self.f2m@[g]@[k]).0 < n,
                it.wf(),
                k <= all.len(),
                all == self.b2m@,
                0 <= k,
                it@ == all.subrange(k, all.len() as int),
                forall|y: int| 0 <= y < k ==> (#[trigger] all[y]).1.0 < n,
            ensures
                forall|y: int| 0 <= y < all.len() ==> (#[trigger] all[y]).1.0 < n,
            decreases all.len() - k,
        {
            let ghost rest = it@;
            match it.next() {
                Some((_, m)) => {
                    assert(rest.len() > 0);
                    assert(all[k].1 == *m);
                    if m.0 as usize >= n {
                        return false;
                    }
                    proof {
                        k = k + 1;
                        assert(it@ =~= all.subrange(k, all.len() as int));
                    }
                },
                None => {
                    assert(k == all.len());
                    break;
                },
            }
        }
        assert(self.masks@.len() == n);
        assert(forall|y: int| 0 <= y < self.b2m@.len() ==> (#[trigger] self.b2m@[y]).1.0 < n);
        assert(self.m2m.keys_seq().len() * self.m2m.values_seq().len() <= 0x1_0000_0000);
        true
    }
}

/// The sections modifier `index` updates.
pub fn sections_of(modifier: &MakeModify, masks: &JaggedBitset, index: usize) -> (r: Vec<u32>)
    requires
        index < masks@.len(),
    ensures
        r@ == unmasked(*modifier, masks@[index as int]),
{
    let ghost row = masks@[index as int];
    let start = modifier.range.start;
    let end = modifier.range.end;
    let spans_many = end > start && end - start > 1;
    let mut out: Vec<u32> = Vec::new();
    let mut s = start;
    while s < end
        invariant
            start == modifier.range.start,
            end == modifier.range.end,
            index < masks@.len(),
            row == masks@[index as int],
            spans_many == (end - start > 1),
            start <= s,
            s <= end || s == start,
            out@ + unmasked_from(*modifier, row, s as int) == unmasked(*modifier, row),
        decreases end - s,
    {
        let masked = spans_many && masks.bit((s - start) as usize, index);
        if !masked {
            out.push(s);
            proof {
                assert(out@ + unmasked_from(*modifier, row, s + 1) =~= out@.drop_last() + (seq![
                    s as u32] + unmasked_from(*modifier, row, s + 1)));
            }
        }
        s = s + 1;
    }
    proof {
        assert(unmasked_from(*modifier, row, s as int) =~= Seq::<u32>::empty());
        assert(out@ + Seq::<u32>::empty() =~= out@);
    }
    out
}

/// Applies modifier `index` (with the binding's value when `bound`) and then,
/// in ascending order, the modifiers that depend on it; `reset` resets each
/// section of `index` to the root value first.
pub fn update(
    deps: &Dependencies,
    modifiers: &[MakeModify],
    index: u32,
    reset: bool,
    bound: bool,
    out: &mut Vec<Action>,
)
    requires
        tables_fit(deps, modifiers@.len() as int),
        index < modifiers@.len(),
    ensures
        final(out)@.map_values(|a: Action| a.model()) == old(out)@.map_values(|a: Action| a.model())
            + update_spec(modifiers@, deps.masks@, deps.m2m@, index as int, reset, bound),
    decreases modifiers@.len() - index,
{
    let ghost mods = modifiers@;
    let ghost rows = deps.masks@;
    let ghost set = deps.m2m@;
    let ghost base = out@.map_values(|a: Action| a.model());
    let modifier = &modifiers[index as usize];
    if !bound && modifier.binding.is_some() {
        return;
    }
    let sections = sections_of(modifier, &deps.masks, index as usize);
    let action = Action { index: ModifyIndex(index), sections, reset, bound };
    let ghost own = action.model();
    out.push(action);
    proof {
        assert(out@.map_values(|a: Action| a.model()) =~= base.push(own));
        assert(base.push(own) + children_spec(mods, rows, set, index as int, 0) =~= base + seq![own]);
    }
    let children = deps.m2m.get(index);
    let ghost n = mods.len();
    let mut k: usize = 0;
    while k < children.len()
        invariant
            mods == modifiers@,
            rows == deps.masks@,
            set == deps.m2m@,
            n == mods.len(),
            tables_fit(deps, n as int),
            index < n,
            forall|a: int, b: int| 0 <= a < b < children@.len() ==> children@[a] < children@[b],
            forall|v: u32| #[trigger] children@.contains(v) <==> set.contains((index, v)),
            k <= children@.len(),
            out@.map_values(|a: Action| a.model()) == base.push(own) + children_spec(
                mods,
                rows,
                set,
                index as int,
                if k == 0 {
                    0
                } else {
                    children@[k - 1] + 1
                },
            ),
        decreases children@.len() - k,
    {
        let child = children[k];
        let ghost from = if k == 0 {
            0
        } else {
            children@[k - 1] + 1
        };
        proof {
            assert(children@.contains(child));
            assert(index < child < n);
            assert forall|c: int| from <= c < child implies !#[trigger] set.contains(
                (index, c as u32),
            ) by {
                if set.contains((index, c as u32)) {
                    assert(c as u32 > index);
                    assert(children@.contains(c as u32));
                    let j = choose|j: int| 0 <= j < children@.len() && children@[j] == c as u32;
                    if j < k {
                        if k > 0 {
                            assert(children@[j] <= children@[k - 1]);
                        }
                    } else if j > k {
                        assert(children@[k as int] < children@[j]);
                    }
                }
            }
            if k > 0 {
                assert(children@[k - 1] < children@[k as int]);
            }
            lemma_children_skip(mods, rows, set, index as int, from, child as int);
        }
        let ghost before = out@.map_values(|a: Action| a.model());
        update(deps, modifiers, child, false, false, out);
        proof {
            assert(children_spec(mods, rows, set, index as int, child + 1) == children_spec(
                mods,
                rows,
                set,
                index as int,
                child as int,
            ) + update_spec(mods, rows, set, child as int, false, false));
        }
        k = k + 1;
    }
    proof {
        let from = if k == 0 {
            0
        } else {
            children@[k - 1] + 1
        };
        if k > 0 {
            assert(children@.contains(children@[k - 1]));
            assert(set.contains((index, children@[k - 1])));
        }
        assert forall|c: int| from <= c < n implies !#[trigger] set.contains((index, c as u32)) by {
            if set.contains((index, c as u32)) {
                assert(children@.contains(c as u32));
                let j = choose|j: int| 0 <= j < children@.len() && children@[j] == c as u32;
                assert(children@[j] <= children@[k - 1]);
            }
        }
        lemma_children_skip(mods, rows, set, index as int, from, n as int);
    }
}

/// The position of the first pair of `b2m` whose key is `key`.
pub open spec fn first_key<V>(b2m: Seq<(u32, V)>, key: u32, k: int) -> Option<int>
    decreases b2m.len() - k,
{
    if k < 0 || k >= b2m.len() {
        None
    } else if b2m[k].0 == key {
        Some(k)
    } else {
        first_key(b2m, key, k + 1)
    }
}

proof fn lemma_first_key<V>(b2m: Seq<(u32, V)>, key: u32, k: int)
    requires
        0 <= k <= b2m.len(),
    ensures
        first_key(b2m, key, k) matches Some(j) ==> k <= j < b2m.len() && b2m[j].0 == key,
    decreases b2m.len() - k,
{
    if k < b2m.len() {
        lemma_first_key(b2m, key, k + 1);
    }
}

/// The modifier bound to `id`, if any.
pub fn index_of(b2m: &KeySorted<ModifyIndex>, id: Id) -> (r: Option<ModifyIndex>)
    ensures
        r == match first_key(b2m@, id.value(), 0) {
            Some(j) => Some(b2m@[j].1),
            None => None,
        },
{
    let key = id.get_value();
    let mut pairs = b2m.iter();
    let ghost all = b2m@;
    let ghost mut k: int = 0;
    loop
        invariant
            pairs.wf(),
            0 <= k <= all.len(),
            pairs@ == all.subrange(k, all.len() as int),
            first_key(all, key, 0) == first_key(all, key, k),
            all == b2m@,
            key == id.value(),
        decreases all.len() - k,
    {
        let ghost left = pairs@;
        match pairs.next() {
            Some((found, index)) => {
                proof {
                    assert(left[0] == all[k]);
                    assert((*found, *index) == all[k]);
                }
                if *found == key {
                    assert(first_key(all, key, k) == Some(k));
                    return Some(*index);
                }
                proof {
                    assert(first_key(all, key, k) == first_key(all, key, k + 1));
                    k = k + 1;
                    assert(pairs@ =~= all.subrange(k, all.len() as int));
                }
            },
            None => {
                assert(k == all.len());
                return None;
            },
        }
    }
}

/// The actions for the changed bindings `changed[..k]`, in order: each
/// bound modifier is updated with its binding's value.
pub open spec fn bindings_spec(
    mods: Seq<MakeModify>,
    rows: Seq<Seq<bool>>,
    m2m: Set<(u32, u32)>,
    b2m: Seq<(u32, ModifyIndex)>,
    changed: Seq<Id>,
    k: int,
) -> Seq<ActionModel>
    decreases k,
{
    if k <= 0 {
        Seq::empty()
    } else {
        bindings_spec(mods, rows, m2m, b2m, changed, k - 1) + match first_key(
            b2m,
            changed[k - 1].value(),
            0,
        ) {
            Some(j) => update_spec(mods, rows, m2m, b2m[j].1.0 as int, false, true),
            None => Seq::empty(),
        }
    }
}

/// The actions for the modifiers `list[..k]`, in order, each reset first.
pub open spec fn roots_spec(
    mods: Seq<MakeModify>,
    rows: Seq<Seq<bool>>,
    m2m: Set<(u32, u32)>,
    list: Seq<ModifyIndex>,
    k: int,
) -> Seq<ActionModel>
    decreases k,
{
    if k <= 0 {
        Seq::empty()
    } else {
        roots_spec(mods, rows, m2m, list, k - 1) + update_spec(
            mods,
            rows,
            m2m,
            list[k - 1].0 as int,
            true,
            false,
        )
    }
}

/// The actions for the fields `0..f` that are in `updated`, in order: each
/// modifier that depends directly on the root value of the field is
/// updated, reset first.
pub open spec fn fields_spec(
    mods: Seq<MakeModify>,
    rows: Seq<Seq<bool>>,
    m2m: Set<(u32, u32)>,
    f2m: Seq<Seq<ModifyIndex>>,
    updated: u64,
    f: int,
) -> Seq<ActionModel>
    decreases f,
{
    if f <= 0 {
        Seq::empty()
    } else {
        fields_spec(mods, rows, m2m, f2m, updated, f - 1) + if has_field(updated, (f - 1) as u32) {
            roots_spec(mods, rows, m2m, f2m[f - 1], f2m[f - 1].len() as int)
        } else {
            Seq::empty()
        }
    }
}

proof fn lemma_bindings_follow(
    mods: Seq<MakeModify>,
    rows: Seq<Seq<bool>>,
    m2m: Set<(u32, u32)>,
    b2m: Seq<(u32, ModifyIndex)>,
    changed: Seq<Id>,
    k: int,
)
    requires
        mods.len() <= u32::MAX,
        forall|p: u32, c: u32| #[trigger] m2m.contains((p, c)) ==> p < c < mods.len(),
        forall|j: int| 0 <= j < b2m.len() ==> (#[trigger] b2m[j]).1.0 < mods.len(),
    ensures
        dependents_follow(mods, rows, m2m, bindings_spec(mods, rows, m2m, b2m, changed, k)),
    decreases k,
{
    if k > 0 {
        lemma_bindings_follow(mods, rows, m2m, b2m, changed, k - 1);
        lemma_first_key(b2m, changed[k - 1].value(), 0);
        let tail = match first_key(b2m, changed[k - 1].value(), 0) {
            Some(j) => update_spec(mods, rows, m2m, b2m[j].1.0 as int, false, true),
            None => Seq::empty(),
        };
        match first_key(b2m, changed[k - 1].value(), 0) {
            Some(j) => {
                lemma_update_follow(mods, rows, m2m, b2m[j].1.0 as int, false, true);
            },
            None => {},
        }
        lemma_follow_concat(mods, rows, m2m, bindings_spec(mods, rows, m2m, b2m, changed, k - 1), tail);
    }
}

proof fn lemma_roots_follow(
    mods: Seq<MakeModify>,
    rows: Seq<Seq<bool>>,
    m2m: Set<(u32, u32)>,
    list: Seq<ModifyIndex>,
    k: int,
)
    requires
        mods.len() <= u32::MAX,
        forall|p: u32, c: u32| #[trigger] m2m.contains((p, c)) ==> p < c < mods.len(),
        k <= list.len(),
        forall|j: int| 0 <= j < list.len() ==> (#[trigger] list[j]).0 < mods.len(),
    ensures
        dependents_follow(mods, rows, m2m, roots_spec(mods, rows, m2m, list, k)),
    decreases k,
{
    if k > 0 {
        lemma_roots_follow(mods, rows, m2m, list, k - 1);
        lemma_update_follow(mods, rows, m2m, list[k - 1].0 as int, true, false);
        lemma_follow_concat(
            mods,
            rows,
            m2m,
            roots_spec(mods, rows, m2m, list, k - 1),
            update_spec(mods, rows, m2m, list[k - 1].0 as int, true, false),
        );
    }
}

proof fn lemma_fields_follow(
    mods: Seq<MakeModify>,
    rows: Seq<Seq<bool>>,
    m2m: Set<(u32, u32)>,
    f2m: Seq<Seq<ModifyIndex>>,
    updated: u64,
    f: int,
)
    requires
        mods.len() <= u32::MAX,
        forall|p: u32, c: u32| #[trigger] m2m.contains((p, c)) ==> p < c < mods.len(),
        f <= f2m.len(),
        forall|g: int, j: int| 0 <= g < f2m.len() && 0 <= j < f2m[g].len() ==> (#[trigger] f2m[g][j]).0 < mods.len(),
    ensures
        dependents_follow(mods, rows, m2m, fields_spec(mods, rows, m2m, f2m, updated, f)),
    decreases f,
{
    if f > 0 {
        lemma_fields_follow(mods, rows, m2m, f2m, updated, f - 1);
        let l = f2m[f - 1];
        assert forall|j: int| 0 <= j < l.len() implies (#[trigger] l[j]).0 < mods.len() by {
            assert(l[j] == f2m[f - 1][j]);
        }
        lemma_roots_follow(mods, rows, m2m, l, l.len() as int);
        let tail = if has_field(updated, (f - 1) as u32) {
            roots_spec(mods, rows, m2m, l, l.len() as int)
        } else {
            Seq::empty()
        };
        lemma_follow_concat(mods, rows, m2m, fields_spec(mods, rows, m2m, f2m, updated, f - 1), tail);
    }
}

/// The actions of an update where the root fields `updated` changed, and the
/// bindings `changed`: first each changed binding's modifier, then each
/// modifier that depends on an updated root field, field after field.
pub fn update_all(
    deps: &Dependencies,
    modifiers: &[MakeModify],
    updated: u64,
    changed: &[Id],
) -> (r: Vec<Action>)
    requires
        tables_fit(deps, modifiers@.len() as int),
        deps.f2m@.len() <= 64,
    ensures
        r@.map_values(|a: Action| a.model()) == bindings_spec(
            modifiers@,
            deps.masks@,
            deps.m2m@,
            deps.b2m@,
            changed@,
            changed@.len() as int,
        ) + fields_spec(
            modifiers@,
            deps.masks@,
            deps.m2m@,
            deps.f2m@.map_values(|l: Vec<ModifyIndex>| l@),
            updated,
            deps.f2m@.len() as int,
        ),
        dependents_follow(modifiers@, deps.masks@, deps.m2m@, r@.map_values(|a: Action| a.model())),
{
    let ghost mods = modifiers@;
    let ghost rows = deps.masks@;
    let ghost set = deps.m2m@;
    let ghost lists = deps.f2m@.map_values(|l: Vec<ModifyIndex>| l@);
    let mut out: Vec<Action> = Vec::new();
    let mut k: usize = 0;
    while k < changed.len()
        invariant
            mods == modifiers@,
            rows == deps.masks@,
            set == deps.m2m@,
            tables_fit(deps, mods.len() as int),
            k <= changed@.len(),
            out@.map_values(|a: Action| a.model()) == bindings_spec(
                mods,
                rows,
                set,
                deps.b2m@,
                changed@,
                k as int,
            ),
        decreases changed@.len() - k,
    {
        let found = index_of(&deps.b2m, changed[k]);
        proof {
            lemma_first_key(deps.b2m@, changed@[k as int].value(), 0);
        }
        match found {
            Some(index) => {
                update(deps, modifiers, index.0, false, true, &mut out);
            },
            None => {},
        }
        proof {
            assert(out@.map_values(|a: Action| a.model()) =~= bindings_spec(
                mods,
                rows,
                set,
                deps.b2m@,
                changed@,
                k + 1,
            ));
        }
        k = k + 1;
    }
    let ghost bound_part = out@.map_values(|a: Action| a.model());
    let mut f: usize = 0;
    while f < deps.f2m.len()
        invariant
            mods == modifiers@,
            rows == deps.masks@,
            set == deps.m2m@,
            lists == deps.f2m@.map_values(|l: Vec<ModifyIndex>| l@),
            tables_fit(deps, mods.len() as int),
            deps.f2m@.len() <= 64,
            f <= deps.f2m@.len(),
            out@.map_values(|a: Action| a.model()) == bound_part + fields_spec(
                mods,
                rows,
                set,
                lists,
                updated,
                f as int,
            ),
        decreases deps.f2m@.len() - f,
    {
        let ghost before = out@.map_values(|a: Action| a.model());
        if super::contains_field(updated, f as u32) {
            let list = &deps.f2m[f];
            let ghost l = list@;
            assert(l == lists[f as int]);
            let mut j: usize = 0;
            while j < list.len()
                invariant
                    mods == modifiers@,
                    rows == deps.masks@,
                    set == deps.m2m@,
                    tables_fit(deps, mods.len() as int),
                    f < deps.f2m@.len(),
                    l == list@,
                    list@ == deps.f2m@[f as int]@,
                    j <= l.len(),
                    out@.map_values(|a: Action| a.model()) == before + roots_spec(
                        mods,
                        rows,
                        set,
                        l,
                        j as int,
                    ),
                decreases l.len() - j,
            {
                let index = list[j];
                assert(index.0 < mods.len());
                update(deps, modifiers, index.0, true, false, &mut out);
                proof {
                    assert(out@.map_values(|a: Action| a.model()) =~= before + roots_spec(
                        mods,
                        rows,
                        set,
                        l,
                        j + 1,
                    ));
                }
                j = j + 1;
            }
        }
        proof {
            assert(out@.map_values(|a: Action| a.model()) =~= bound_part + fields_spec(
                mods,
                rows,
                set,
                lists,
                updated,
                f + 1,
            ));
        }
        f = f + 1;
    }
    proof {
        let lists = deps.f2m@.map_values(|l: Vec<ModifyIndex>| l@);
        assert forall|g: int, j: int|
            0 <= g < lists.len() && 0 <= j < lists[g].len() implies (#[trigger] lists[g][j]).0 < mods.len() by {
            assert(lists[g] == deps.f2m@[g]@);
            assert(deps.f2m@[g]@[j] == lists[g][j]);
        }
        lemma_bindings_follow(mods, rows, set, deps.b2m@, changed@, changed@.len() as int);
        lemma_fields_follow(mods, rows, set, lists, updated, lists.len() as int);
        lemma_follow_concat(
            mods,
            rows,
            set,
            bindings_spec(mods, rows, set, deps.b2m@, changed@, changed@.len() as int),
            fields_spec(mods, rows, set, lists, updated, lists.len() as int),
        );
    }
    out
}

} // verus!
