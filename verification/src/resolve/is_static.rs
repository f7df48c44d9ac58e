//! Telling which modifiers are static: their value can be applied once and
//! for all, because they depend on nothing that changes.
use vstd::prelude::*;

use smallvec::SmallVec;

use super::MakeModify;

verus! {

/// The range ends of the static parents being tracked, in a `SmallVec`.
#[verifier::external_body]
pub struct RangeEnds {
    inner: SmallVec<[u32; 4]>,
}

/// The items of a [`RangeEnds`], first pushed first.
pub uninterp spec fn range_ends_items(ends: RangeEnds) -> Seq<u32>;

impl RangeEnds {
    /// Calls `SmallVec::new`, which makes an empty vector.
    #[verifier::external_body]
    pub(crate) fn new() -> (r: Self)
        ensures
            range_ends_items(r) == Seq::<u32>::empty(),
    {
        RangeEnds { inner: SmallVec::new() }
    }

    /// Calls `SmallVec::len`, the number of items.
    #[verifier::external_body]
    pub(crate) fn len(&self) -> (r: usize)
        ensures
            r == range_ends_items(*self).len(),
    {
        self.inner.len()
    }

    /// Indexes the `SmallVec` (through its slice), the item at `i`.
    #[verifier::external_body]
    pub(crate) fn get(&self, i: usize) -> (r: u32)
        requires
            i < range_ends_items(*self).len(),
        ensures
            r == range_ends_items(*self)[i as int],
    {
        self.inner[i]
    }

    /// Calls `SmallVec::push`, which appends `value`; it panics on a
    /// capacity overflow, which a length below `usize::MAX` rules out.
    #[verifier::external_body]
    pub(crate) fn push(&mut self, value: u32)
        requires
            range_ends_items(*old(self)).len() < usize::MAX,
        ensures
            range_ends_items(*final(self)) == range_ends_items(*old(self)).push(value),
    {
        self.inner.push(value)
    }

    /// Calls `SmallVec::pop`, which removes and returns the last item,
    /// `None` when there is none.
    #[verifier::external_body]
    pub(crate) fn pop(&mut self) -> (r: Option<u32>)
        ensures
            range_ends_items(*old(self)).len() == 0 ==> r is None && range_ends_items(*final(self))
                == range_ends_items(*old(self)),
            range_ends_items(*old(self)).len() > 0 ==> r == Some(
                range_ends_items(*old(self)).last(),
            ) && range_ends_items(*final(self)) == range_ends_items(*old(self)).drop_last(),
    {
        self.inner.pop()
    }
}

/// The fields (one bit per field) added by each static parent being
/// tracked, in a `SmallVec`.
#[verifier::external_body]
pub struct FieldStack {
    inner: SmallVec<[u64; 4]>,
}

/// The items of a [`FieldStack`], first pushed first.
pub uninterp spec fn field_stack_items(stack: FieldStack) -> Seq<u64>;

impl FieldStack {
    /// Calls `SmallVec::new`, which makes an empty vector.
    #[verifier::external_body]
    pub(crate) fn new() -> (r: Self)
        ensures
            field_stack_items(r) == Seq::<u64>::empty(),
    {
        FieldStack { inner: SmallVec::new() }
    }

    /// Calls `SmallVec::push`, which appends `value`; it panics on a
    /// capacity overflow, which a length below `usize::MAX` rules out.
    #[verifier::external_body]
    pub(crate) fn push(&mut self, value: u64)
        requires
            field_stack_items(*old(self)).len() < usize::MAX,
        ensures
            field_stack_items(*final(self)) == field_stack_items(*old(self)).push(value),
    {
        self.inner.push(value)
    }

    /// Calls `SmallVec::pop`, which removes and returns the last item,
    /// `None` when there is none.
    #[verifier::external_body]
    pub(crate) fn pop(&mut self) -> (r: Option<u64>)
        ensures
            field_stack_items(*old(self)).len() == 0 ==> r is None && field_stack_items(
                *final(self),
            ) == field_stack_items(*old(self)),
            field_stack_items(*old(self)).len() > 0 ==> r == Some(
                field_stack_items(*old(self)).last(),
            ) && field_stack_items(*final(self)) == field_stack_items(*old(self)).drop_last(),
    {
        self.inner.pop()
    }

    /// Calls `last` on the `SmallVec`'s slice: the last item, `None` when
    /// there is none.
    #[verifier::external_body]
    pub(crate) fn last(&self) -> (r: Option<u64>)
        ensures
            field_stack_items(*self).len() == 0 ==> r is None,
            field_stack_items(*self).len() > 0 ==> r == Some(field_stack_items(*self).last()),
    {
        self.inner.last().copied()
    }

    /// Calls `last_mut` on the `SmallVec`'s slice and writes `value` there:
    /// the last item becomes `value`.
    #[verifier::external_body]
    pub(crate) fn set_last(&mut self, value: u64)
        requires
            field_stack_items(*old(self)).len() > 0,
        ensures
            field_stack_items(*final(self)) == field_stack_items(*old(self)).update(
                field_stack_items(*old(self)).len() - 1,
                value,
            ),
    {
        *self.inner.last_mut().unwrap() = value;
    }
}

/// The union of the field sets of `s`.
pub open spec fn union_of(s: Seq<u64>) -> u64
    decreases s.len(),
{
    if s.len() == 0 {
        0
    } else {
        union_of(s.drop_last()) | s.last()
    }
}

/// How many tracked parents to keep for a modifier ending at `end`: those
/// below the last one that ends at or before `end`; none when no parent
/// does.
pub open spec fn kept_parents(ends: Seq<u32>, end: u32, k: int) -> int
    decreases k,
{
    if k <= 0 {
        0
    } else if ends[k - 1] <= end {
        k - 1
    } else {
        kept_parents(ends, end, k - 1)
    }
}

proof fn lemma_kept_parents(ends: Seq<u32>, end: u32, k: int)
    requires
        0 <= k <= ends.len(),
    ensures
        0 <= kept_parents(ends, end, k) <= k,
        kept_parents(ends, end, k) == 0 || ends[kept_parents(ends, end, k)] <= end,
    decreases k,
{
    if k > 0 && !(ends[k - 1] <= end) {
        lemma_kept_parents(ends, end, k - 1);
    }
}

/// What a [`CheckStatic`] tracks: the range end of each parent, the fields
/// each parent adds, and all the fields they write.
pub type StaticState = (Seq<u32>, Seq<u64>, u64);

/// The tracked parents once those that are not parents of `m` are dropped.
pub open spec fn drop_non_parents(st: StaticState, m: MakeModify) -> StaticState {
    let k = kept_parents(st.0, m.range.end, st.0.len() as int);
    (st.0.take(k), st.1.take(k), st.2 & !union_of(st.1.skip(k)))
}

/// Checking `m` from the state `st`: the state after, and whether `m` is
/// static (it reads only fields its static parents write, and is not bound).
/// A static modifier that writes new fields becomes a parent, or, when it
/// does not end before the last parent, adds its fields to the last one.
pub open spec fn static_step(st: StaticState, m: MakeModify) -> (StaticState, bool) {
    let st1 = drop_non_parents(st, m);
    let is_static = m.depends & !st1.2 == 0 && m.binding is None;
    if !is_static {
        (st1, false)
    } else {
        let added = m.changes & !st1.2;
        if added == 0 {
            (st1, true)
        } else if st1.0.len() == 0 || m.range.end < st1.0.last() {
            ((st1.0.push(m.range.end), st1.1.push(added), st1.2 | m.changes), true)
        } else {
            ((st1.0, st1.1.update(st1.1.len() - 1, st1.1.last() | m.changes), st1.2 | m.changes), true)
        }
    }
}

/// The state after checking the first `i` modifiers of `mods` in order.
pub open spec fn static_state(mods: Seq<MakeModify>, i: int) -> StaticState
    decreases i,
{
    if i <= 0 {
        (Seq::empty(), Seq::empty(), 0)
    } else {
        static_step(static_state(mods, i - 1), mods[i - 1]).0
    }
}

/// Modifier `i` of `mods` is static, when the modifiers are checked in order.
pub open spec fn is_static_at(mods: Seq<MakeModify>, i: int) -> bool {
    static_step(static_state(mods, i), mods[i]).1
}

/// Checking a modifier adds at most one parent, and the parents' range
/// ends and field sets stay as many.
pub proof fn lemma_static_state(mods: Seq<MakeModify>, i: int)
    requires
        0 <= i <= mods.len(),
    ensures
        static_state(mods, i).0.len() <= i,
        static_state(mods, i).0.len() == static_state(mods, i).1.len(),
    decreases i,
{
    if i > 0 {
        lemma_static_state(mods, i - 1);
        let st = static_state(mods, i - 1);
        lemma_kept_parents(st.0, mods[i - 1].range.end, st.0.len() as int);
    }
}

/// Tracks the fields written by the static modifiers that are parents of the
/// next modifier to check: a modifier is static when it depends only on
/// such fields and is not bound.
pub struct CheckStatic {
    parents_range_end: RangeEnds,
    static_parent_fields: FieldStack,
    all_static_fields: u64,
}

impl CheckStatic {
    /// The range end of each tracked parent.
    pub closed spec fn ends(&self) -> Seq<u32> {
        range_ends_items(self.parents_range_end)
    }

    /// The fields each tracked parent adds.
    pub closed spec fn fields(&self) -> Seq<u64> {
        field_stack_items(self.static_parent_fields)
    }

    /// The fields written by the tracked parents.
    pub closed spec fn all_fields(&self) -> u64 {
        self.all_static_fields
    }

    /// The tracked state.
    pub open spec fn state(&self) -> StaticState {
        (self.ends(), self.fields(), self.all_fields())
    }

    /// As many range ends as field sets.
    pub open spec fn wf(&self) -> bool {
        self.ends().len() == self.fields().len()
    }

    /// No parent tracked.
    pub fn new() -> (r: Self)
        ensures
            r.wf(),
            r.ends() == Seq::<u32>::empty(),
            r.fields() == Seq::<u64>::empty(),
            r.all_fields() == 0,
    {
        CheckStatic {
            parents_range_end: RangeEnds::new(),
            static_parent_fields: FieldStack::new(),
            all_static_fields: 0,
        }
    }

    /// Whether `modify` ends before the last tracked parent (or no parent
    /// is tracked).
    fn ends_before_last(&self, modify: &MakeModify) -> (r: bool)
        requires
            self.wf(),
        ensures
            r == (self.ends().len() == 0 || modify.range.end < self.ends().last()),
    {
        let len = self.parents_range_end.len();
        if len == 0 {
            true
        } else {
            modify.range.end < self.parents_range_end.get(len - 1)
        }
    }

    /// Stops tracking the last parent, and the fields it added.
    fn pop_parent(&mut self)
        requires
            old(self).wf(),
        ensures
            final(self).wf(),
            old(self).fields().len() == 0 ==> final(self).ends() == old(self).ends()
                && final(self).fields() == old(self).fields() && final(self).all_fields()
                == old(self).all_fields(),
            old(self).fields().len() > 0 ==> {
                &&& final(self).ends() == old(self).ends().drop_last()
                &&& final(self).fields() == old(self).fields().drop_last()
                &&& final(self).all_fields() == old(self).all_fields() & !old(self).fields().last()
            },
    {
        if let Some(to_reset) = self.static_parent_fields.pop() {
            self.parents_range_end.pop();
            self.all_static_fields = self.all_static_fields & !to_reset;
        }
    }

    /// Tracks `modify` as a static parent, with the fields it adds.
    fn push_parent(&mut self, modify: &MakeModify)
        requires
            old(self).wf(),
            old(self).ends().len() < usize::MAX,
        ensures
            final(self).wf(),
            ({
                let changes = modify.changes;
                let added = changes & !old(self).all_fields();
                if added == 0 {
                    *final(self) == *old(self)
                } else if old(self).ends().len() == 0 || modify.range.end < old(self).ends().last() {
                    &&& final(self).ends() == old(self).ends().push(modify.range.end)
                    &&& final(self).fields() == old(self).fields().push(added)
                    &&& final(self).all_fields() == old(self).all_fields() | changes
                } else {
                    &&& final(self).ends() == old(self).ends()
                    &&& final(self).fields() == old(self).fields().update(
                        old(self).fields().len() - 1,
                        old(self).fields().last() | changes,
                    )
                    &&& final(self).all_fields() == old(self).all_fields() | changes
                }
            }),
    {
        let changes = modify.changes();
        let old_changes = self.all_static_fields;
        let modify_changes = changes & !old_changes;

        // There is no changes, therefore nothing new to track
        if modify_changes == 0 {
            return;
        }
        self.all_static_fields = self.all_static_fields | changes;
        if self.ends_before_last(modify) {
            // Keep track of fields we added to `all_static_fields` so that
            // we can remove them later
            self.static_parent_fields.push(modify_changes);
            self.parents_range_end.push(modify.range.end);
        } else {
            let last_changes = self.static_parent_fields.last().unwrap();
            self.static_parent_fields.set_last(last_changes | changes);
        }
    }

    /// Stops tracking the parents that are not parents of `modify`.
    fn update_parents(&mut self, modify: &MakeModify)
        requires
            old(self).wf(),
        ensures
            final(self).wf(),
            ({
                let k = kept_parents(old(self).ends(), modify.range.end, old(self).ends().len() as int);
                &&& final(self).ends() == old(self).ends().take(k)
                &&& final(self).fields() == old(self).fields().take(k)
                &&& final(self).all_fields() == old(self).all_fields() & !union_of(old(self).fields().skip(k))
            }),
    {
        let end = modify.range.end;
        let len = self.parents_range_end.len();
        let ghost ends = self.ends();
        let ghost fields = self.fields();
        let ghost all = self.all_fields();
        // The position of the last parent that ends at or before `end`.
        let mut first_real_parent: Option<usize> = None;
        let mut i = len;
        while i > 0
            invariant_except_break
                first_real_parent is None,
            invariant
                ends == self.ends(),
                len == ends.len(),
                i <= len,
                kept_parents(ends, end, len as int) == kept_parents(ends, end, i as int),
            ensures
                first_real_parent matches Some(p) ==> p < len && kept_parents(ends, end, len as int) == p,
                first_real_parent is None ==> kept_parents(ends, end, len as int) == 0,
            decreases i,
        {
            if self.parents_range_end.get(i - 1) <= end {
                first_real_parent = Some(i - 1);
                break;
            }
            i = i - 1;
        }
        let kept = match first_real_parent {
            Some(p) => p,
            None => 0,
        };
        let pop_count = len - kept;
        let mut n: usize = 0;
        proof {
            assert(ends.take(len as int) =~= ends);
            assert(fields.take(len as int) =~= fields);
            assert(fields.skip(len as int) =~= Seq::<u64>::empty());
            assert(all & !0u64 == all) by (bit_vector);
        }
        while n < pop_count
            invariant
                self.wf(),
                kept + pop_count == len,
                len == ends.len(),
                ends.len() == fields.len(),
                n <= pop_count,
                self.ends() == ends.take(len - n),
                self.fields() == fields.take(len - n),
                self.all_fields() == all & !union_of(fields.skip(len - n)),
            decreases pop_count - n,
        {
            let ghost before = self.all_fields();
            let ghost k = len - n;
            self.pop_parent();
            proof {
                assert(ends.take(k).drop_last() =~= ends.take(k - 1));
                assert(fields.take(k).drop_last() =~= fields.take(k - 1));
                assert(fields.take(k).last() == fields[k - 1]);
                let rest = fields.skip(k - 1);
                assert(rest.drop_last() =~= fields.skip(k - 1).drop_last());
                lemma_union_of_cons(fields[k - 1], fields.skip(k));
                assert(seq![fields[k - 1]] + fields.skip(k) =~= fields.skip(k - 1));
                let u = union_of(fields.skip(k));
                let f = fields[k - 1];
                assert(before & !f == (all & !u) & !f);
                assert((all & !u) & !f == all & !(f | u)) by (bit_vector);
            }
            n = n + 1;
        }
        assert(ends.take(len as int) =~= ends);
    }

    /// Whether `modify` is static: it depends only on fields written by its
    /// static parents, and is not bound. A static modifier becomes a tracked
    /// parent.
    pub fn is_static(&mut self, modify: &MakeModify) -> (r: bool)
        requires
            old(self).wf(),
            old(self).ends().len() < usize::MAX,
        ensures
            final(self).wf(),
            final(self).ends().len() <= old(self).ends().len() + 1,
            (final(self).state(), r) == static_step(old(self).state(), *modify),
    {
        proof {
            lemma_kept_parents(self.ends(), modify.range.end, self.ends().len() as int);
        }
        self.update_parents(modify);

        let no_deps = modify.depends() & !self.all_static_fields == 0;
        let is_binding = modify.binding.is_some();

        let is_static = no_deps && !is_binding;

        if is_static {
            self.push_parent(modify);
        }
        is_static
    }
}

/// The union of `f` and the field sets `s` is the union of `[f] + s`.
proof fn lemma_union_of_cons(f: u64, s: Seq<u64>)
    ensures
        union_of(seq![f] + s) == f | union_of(s),
    decreases s.len(),
{
    if s.len() == 0 {
        assert(seq![f] + s =~= seq![f]);
        assert(seq![f].drop_last() =~= Seq::<u64>::empty());
        assert(seq![f].last() == f);
        assert(union_of(Seq::<u64>::empty()) == 0);
        assert(union_of(seq![f]) == union_of(Seq::<u64>::empty()) | f);
        assert(0u64 | f == f | 0u64) by (bit_vector);
    } else {
        lemma_union_of_cons(f, s.drop_last());
        assert((seq![f] + s).drop_last() =~= seq![f] + s.drop_last());
        assert((seq![f] + s).last() == s.last());
        let u = union_of(s.drop_last());
        let l = s.last();
        assert(union_of(seq![f] + s) == union_of(seq![f] + s.drop_last()) | l);
        assert(union_of(s) == u | l);
        assert((f | u) | l == f | (u | l)) by (bit_vector);
    }
}

} // verus!
