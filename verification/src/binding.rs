//! Values bound to names, identified by an [`Id`], and [`View`]s that layer
//! a local set of bindings over a global one.
use vstd::prelude::*;

use crate::Index;
use vstd::view::View as _;

pub mod world;

pub use world::{Local, SyncError, World};

verus! {

/// A binding id, used to associate a name to a value.
///
/// Ids are never `0`: the id of index `i` holds `i + 1`.
#[derive(Clone, Copy, PartialEq, Eq, Structural, PartialOrd, Ord, Hash, Debug)]
pub struct Id(u32);

impl Id {
    #[verifier::type_invariant]
    closed spec fn inv(self) -> bool {
        self.0 != 0
    }

    /// The number this id holds.
    pub closed spec fn value(self) -> u32 {
        self.0
    }

    /// The id holding `value`, `None` when `value` is `0`.
    pub fn new(value: u32) -> (r: Option<Id>)
        ensures
            r is Some <==> value != 0,
            r matches Some(id) ==> id.value() == value,
    {
        if value == 0 {
            None
        } else {
            Some(Id(value))
        }
    }

    /// Two ids holding the same number are the same.
    pub proof fn lemma_value_unique(a: Id, b: Id)
        requires
            a.value() == b.value(),
        ensures
            a == b,
    {
    }

    /// The number this id holds, never `0`.
    pub fn get_value(self) -> (r: u32)
        ensures
            r == self.value(),
            r != 0,
    {
        proof {
            use_type_invariant(self);
        }
        self.0
    }

    /// The id of index `index`, `None` when `index` does not fit in a `u32`.
    ///
    /// The index `u32::MAX` saturates: it gets the same id as
    /// `u32::MAX - 1`.
    pub fn try_from_usize(index: usize) -> (r: Option<Id>)
        ensures
            r is Some <==> index <= u32::MAX,
            r matches Some(id) ==> id.value() == if index == u32::MAX {
                u32::MAX as int
            } else {
                index + 1
            },
    {
        if index > u32::MAX as usize {
            return None;
        }
        let value = index as u32;
        Some(Id(value.saturating_add(1)))
    }

    /// The index of this id.
    pub fn to_usize(self) -> (r: usize)
        ensures
            r == self.value() - 1,
    {
        proof {
            use_type_invariant(self);
        }
        Index::get(&self)
    }
}

impl Index for Id {
    open spec fn spec_index(&self) -> nat {
        (self.value() - 1) as nat
    }

    fn get(&self) -> (r: usize) {
        proof {
            use_type_invariant(self);
        }
        (self.0 - 1) as usize
    }
}

/// The ids of `s` are in strictly ascending order.
pub open spec fn ids_ascending<T>(s: Seq<(Id, T)>) -> bool {
    forall|i: int, j: int| 0 <= i < j < s.len() ==> s[i].0.value() < s[j].0.value()
}

/// The value of `id` in the entries `s`, `None` if no entry has this id.
pub open spec fn lookup<T>(s: Seq<(Id, T)>, id: Id) -> Option<T> {
    if exists|i: int| 0 <= i < s.len() && s[i].0 == id {
        Some(s[choose|i: int| 0 <= i < s.len() && s[i].0 == id].1)
    } else {
        None
    }
}

/// In entries with ascending ids, the value of the id of an entry is the
/// value of this entry.
pub proof fn lemma_lookup_at<T>(s: Seq<(Id, T)>, i: int)
    requires
        ids_ascending(s),
        0 <= i < s.len(),
    ensures
        lookup(s, s[i].0) == Some(s[i].1),
{
    let id = s[i].0;
    let j = choose|j: int| 0 <= j < s.len() && s[j].0 == id;
    if j < i {
        assert(s[j].0.value() < s[i].0.value());
    } else if i < j {
        assert(s[i].0.value() < s[j].0.value());
    }
}

/// Changing the value of an entry keeps the ids ascending, and changes the
/// value of its id alone.
pub proof fn lemma_update_value<T>(s: Seq<(Id, T)>, i: int)
    requires
        ids_ascending(s),
        0 <= i < s.len(),
    ensures
        forall|v: T| #[trigger] ids_ascending(s.update(i, (s[i].0, v))),
        forall|v: T, k: Id| #[trigger]
            lookup(s.update(i, (s[i].0, v)), k) == if k == s[i].0 {
                Some(v)
            } else {
                lookup(s, k)
            },
{
    assert forall|v: T| #[trigger] ids_ascending(s.update(i, (s[i].0, v))) by {
        let t = s.update(i, (s[i].0, v));
        assert forall|a: int, b: int| 0 <= a < b < t.len() implies t[a].0.value()
            < t[b].0.value() by {
            assert(t[a].0 == s[a].0 && t[b].0 == s[b].0);
        }
    }
    assert forall|v: T, k: Id| #[trigger]
        lookup(s.update(i, (s[i].0, v)), k) == if k == s[i].0 {
            Some(v)
        } else {
            lookup(s, k)
        } by {
        let t = s.update(i, (s[i].0, v));
        assert(ids_ascending(t));
        if k == s[i].0 {
            lemma_lookup_at(t, i);
        } else if exists|j: int| 0 <= j < s.len() && s[j].0 == k {
            let j = choose|j: int| 0 <= j < s.len() && s[j].0 == k;
            lemma_lookup_at(s, j);
            assert(t[j] == s[j]);
            lemma_lookup_at(t, j);
        } else {
            assert forall|j: int| 0 <= j < t.len() implies t[j].0 != k by {
                assert(t[j].0 == s[j].0);
            }
        }
    }
}

/// Bindings: values, each with whether it changed, stored by ascending id.
#[derive(Debug)]
pub struct BindingMap<M>(Vec<(Id, (bool, M))>);

impl<M> BindingMap<M> {
    /// The bindings, by ascending id.
    pub closed spec fn entries(&self) -> Seq<(Id, (bool, M))> {
        self.0@
    }

    /// The ids are in strictly ascending order.
    pub closed spec fn wf(&self) -> bool {
        ids_ascending(self.0@)
    }

    /// The entries of a well-formed map have strictly ascending ids.
    pub proof fn lemma_wf(&self)
        requires
            self.wf(),
        ensures
            ids_ascending(self.entries()),
    {
    }

    /// No binding.
    pub fn new() -> (r: Self)
        ensures
            r.wf(),
            r.entries() == Seq::<(Id, (bool, M))>::empty(),
    {
        BindingMap(Vec::new())
    }

    /// The number of bindings.
    pub fn len(&self) -> (r: usize)
        ensures
            r == self.entries().len(),
    {
        self.0.len()
    }

    /// Where the binding of `id` is (`Ok`), or where it would go (`Err`).
    fn position(&self, id: Id) -> (r: Result<usize, usize>)
        requires
            self.wf(),
        ensures
            ids_ascending(self.entries()),
            r matches Ok(i) ==> i < self.entries().len() && self.entries()[i as int].0 == id,
            r matches Err(i) ==> i <= self.entries().len() && (forall|k: int|
                0 <= k < i ==> #[trigger] self.entries()[k].0.value() < id.value()) && (forall|k: int|
                i <= k < self.entries().len() ==> #[trigger] self.entries()[k].0.value() > id.value()),
    {
        let mut lo: usize = 0;
        let mut hi: usize = self.0.len();
        while lo < hi
            invariant
                ids_ascending(self.entries()),
                lo <= hi <= self.entries().len(),
                forall|k: int| 0 <= k < lo ==> #[trigger] self.entries()[k].0.value() < id.value(),
                forall|k: int| hi <= k < self.entries().len() ==> #[trigger] self.entries()[k].0.value() >= id.value(),
            decreases hi - lo,
        {
            let mid = lo + (hi - lo) / 2;
            if self.0[mid].0.0 < id.0 {
                lo = mid + 1;
            } else {
                hi = mid;
            }
        }
        if lo < self.0.len() && self.0[lo].0.0 == id.0 {
            Ok(lo)
        } else {
            proof {
                if lo < self.entries().len() {
                    assert(self.entries()[lo as int].0.value() > id.value());
                }
            }
            Err(lo)
        }
    }

    /// The binding of `id`, with whether it changed.
    pub fn get(&self, id: Id) -> (r: Option<&(bool, M)>)
        requires
            self.wf(),
        ensures
            match lookup(self.entries(), id) {
                None => r is None,
                Some(v) => r matches Some(x) && *x == v,
            },
    {
        match self.position(id) {
            Ok(i) => {
                proof {
                    lemma_lookup_at(self.entries(), i as int);
                }
                Some(&self.0[i].1)
            },
            Err(i) => {
                proof {
                    assert forall|k: int| 0 <= k < self.entries().len() implies self.entries()[k].0 != id by {
                        if k < i {
                            assert(self.entries()[k].0.value() < id.value());
                        } else {
                            assert(self.entries()[k].0.value() > id.value());
                        }
                    }
                }
                None
            },
        }
    }

    /// Whether `id` is bound.
    pub fn contains_key(&self, id: Id) -> (r: bool)
        requires
            self.wf(),
        ensures
            r == lookup(self.entries(), id) is Some,
    {
        self.get(id).is_some()
    }

    /// Binds `id` to `value`, replacing its former binding if any.
    pub fn insert(&mut self, id: Id, value: (bool, M))
        requires
            old(self).wf(),
        ensures
            final(self).wf(),
            forall|k: Id| #[trigger]
                lookup(final(self).entries(), k) == if k == id {
                    Some(value)
                } else {
                    lookup(old(self).entries(), k)
                },
    {
        let pos = self.position(id);
        let ghost old_s = self.entries();
        let mut entries: Vec<(Id, (bool, M))> = Vec::new();
        std::mem::swap(&mut entries, &mut self.0);
        let ghost i: int;
        match pos {
            Ok(at) => {
                entries.set(at, (id, value));
                proof {
                    i = at as int;
                    assert(entries@ == old_s.update(i, (id, value)));
                }
            },
            Err(at) => {
                entries.insert(at, (id, value));
                proof {
                    i = at as int;
                    assert(entries@ == old_s.insert(i, (id, value)));
                }
            },
        }
        let ghost s = entries@;
        assert(ids_ascending(s)) by {
            assert forall|a: int, b: int| 0 <= a < b < s.len() implies s[a].0.value()
                < s[b].0.value() by {
                if pos is Err {
                    if b == i {
                        assert(old_s[a].0.value() < id.value());
                    } else if a == i {
                        assert(old_s[b - 1].0.value() > id.value());
                    } else {
                        let a0 = if a < i {
                            a
                        } else {
                            a - 1
                        };
                        let b0 = if b < i {
                            b
                        } else {
                            b - 1
                        };
                        assert(s[a] == old_s[a0] && s[b] == old_s[b0]);
                    }
                } else {
                    assert(old_s[i].0 == id);
                }
            }
        }
        assert forall|k: Id| #[trigger]
            lookup(s, k) == if k == id {
                Some(value)
            } else {
                lookup(old_s, k)
            } by {
            if k == id {
                lemma_lookup_at(s, i);
            } else if exists|j: int| 0 <= j < old_s.len() && old_s[j].0 == k {
                let j = choose|j: int| 0 <= j < old_s.len() && old_s[j].0 == k;
                lemma_lookup_at(old_s, j);
                if pos is Err && j >= i {
                    assert(s[j + 1] == old_s[j]);
                    lemma_lookup_at(s, j + 1);
                } else {
                    assert(s[j] == old_s[j]);
                    lemma_lookup_at(s, j);
                }
            } else {
                assert forall|j: int| 0 <= j < s.len() implies s[j].0 != k by {
                    if j != i {
                        let j0 = if pos is Err && j > i {
                            j - 1
                        } else {
                            j
                        };
                        assert(s[j] == old_s[j0]);
                    }
                }
            }
        }
        self.0 = entries;
    }

    /// The binding of `id`, to change in place: its value and whether it
    /// changed.
    pub fn get_mut(&mut self, id: Id) -> (r: Option<&mut (bool, M)>)
        requires
            old(self).wf(),
        ensures
            r is Some <==> lookup(old(self).entries(), id) is Some,
            match r {
                None => *final(self) == *old(self),
                Some(x) => {
                    &&& lookup(old(self).entries(), id) == Some(*x)
                    &&& final(self).wf()
                    &&& forall|k: Id| #[trigger]
                        lookup(final(self).entries(), k) == if k == id {
                            Some(*final(x))
                        } else {
                            lookup(old(self).entries(), k)
                        }
                },
            },
    {
        match self.position(id) {
            Ok(i) => {
                proof {
                    lemma_lookup_at(self.entries(), i as int);
                    lemma_update_value(self.entries(), i as int);
                }
                let entry = &mut self.0[i];
                Some(&mut entry.1)
            },
            Err(i) => {
                proof {
                    assert forall|k: int| 0 <= k < self.entries().len() implies self.entries()[k].0
                        != id by {
                        if k < i {
                            assert(self.entries()[k].0.value() < id.value());
                        } else {
                            assert(self.entries()[k].0.value() > id.value());
                        }
                    }
                }
                None
            },
        }
    }

    /// The entry of `id`, to read, insert or change its binding.
    pub fn entry(&mut self, id: Id) -> (r: Entry<'_, M>)
        requires
            old(self).wf(),
        ensures
            match r {
                Entry::Occupied(v) => {
                    &&& lookup(old(self).entries(), id) matches Some((_, m)) && *v == m
                    &&& final(self).wf()
                    &&& forall|k: Id| #[trigger]
                        lookup(final(self).entries(), k) == if k == id {
                            Some((true, *final(v)))
                        } else {
                            lookup(old(self).entries(), k)
                        }
                },
                Entry::Vacant(k, p) => {
                    &&& k == id
                    &&& lookup(old(self).entries(), id) is None
                    &&& *p == *old(self)
                    &&& *final(p) == *final(self)
                },
            },
    {
        Entry::new(self, id)
    }

    /// Binds `id` to `value`, marked as changed.
    pub fn set_id(&mut self, id: Id, value: M)
        requires
            old(self).wf(),
        ensures
            final(self).wf(),
            forall|k: Id| #[trigger]
                lookup(final(self).entries(), k) == if k == id {
                    Some((true, value))
                } else {
                    lookup(old(self).entries(), k)
                },
    {
        self.insert(id, (true, value));
    }

    /// Marks every binding as unchanged.
    pub fn reset_changes(&mut self)
        requires
            old(self).wf(),
        ensures
            final(self).wf(),
            final(self).entries().len() == old(self).entries().len(),
            forall|i: int|
                0 <= i < old(self).entries().len() ==> #[trigger] final(self).entries()[i] == (
                    old(self).entries()[i].0,
                    (false, old(self).entries()[i].1.1),
                ),
    {
        let ghost old_s = self.entries();
        let mut entries: Vec<(Id, (bool, M))> = Vec::new();
        std::mem::swap(&mut entries, &mut self.0);
        // Take the entries out from the last, then put them back from the first.
        let mut reversed: Vec<(Id, (bool, M))> = Vec::new();
        while entries.len() > 0
            invariant
                entries@.len() + reversed@.len() == old_s.len(),
                forall|k: int| 0 <= k < entries@.len() ==> #[trigger] entries@[k] == old_s[k],
                forall|k: int|
                    0 <= k < reversed@.len() ==> #[trigger] reversed@[k] == old_s[old_s.len()
                        - 1 - k],
            decreases entries@.len(),
        {
            let entry = entries.pop().unwrap();
            reversed.push(entry);
        }
        let mut done: Vec<(Id, (bool, M))> = Vec::new();
        while reversed.len() > 0
            invariant
                done@.len() + reversed@.len() == old_s.len(),
                forall|k: int|
                    0 <= k < reversed@.len() ==> #[trigger] reversed@[k] == old_s[old_s.len()
                        - 1 - k],
                forall|k: int|
                    0 <= k < done@.len() ==> #[trigger] done@[k] == (
                        old_s[k].0,
                        (false, old_s[k].1.1),
                    ),
            decreases reversed@.len(),
        {
            let (id, (_changed, value)) = reversed.pop().unwrap();
            done.push((id, (false, value)));
        }
        assert(ids_ascending(done@)) by {
            assert forall|a: int, b: int| 0 <= a < b < done@.len() implies done@[a].0.value()
                < done@[b].0.value() by {
                assert(done@[a].0 == old_s[a].0 && done@[b].0 == old_s[b].0);
            }
        }
        self.0 = done;
    }

    /// A view of these bindings alone.
    pub fn view(&self) -> (r: View<'_, M>)
        ensures
            r.root == self,
            r.overlay is None,
    {
        View { root: self, overlay: None }
    }

    /// A view of `local` over these bindings: where both bind an id, `local`
    /// wins.
    pub fn view_with_local<'a>(&'a self, local: &'a BindingMap<M>) -> (r: View<'a, M>)
        ensures
            r.root == self,
            r.overlay == Some(local),
    {
        View { root: self, overlay: Some(local) }
    }
}

/// The value of `id` in `s` when it changed.
pub open spec fn changed_value<M>(s: Seq<(Id, (bool, M))>, id: Id) -> Option<M> {
    match lookup(s, id) {
        Some((true, m)) => Some(m),
        _ => None,
    }
}

/// Bindings read through an optional overlay, falling back to the root.
pub struct View<'a, M> {
    pub root: &'a BindingMap<M>,
    pub overlay: Option<&'a BindingMap<M>>,
}

impl<'a, M> Clone for View<'a, M> {
    fn clone(&self) -> (r: Self)
        ensures
            r == *self,
    {
        View { root: self.root, overlay: self.overlay }
    }
}

impl<'a, M> Copy for View<'a, M> {

}

impl<'a, M> View<'a, M> {
    /// The root and the overlay are well formed.
    pub open spec fn wf(self) -> bool {
        &&& self.root.wf()
        &&& match self.overlay {
            Some(o) => o.wf(),
            None => true,
        }
    }

    /// The bindings of the overlay, empty when there is none.
    pub open spec fn overlay_entries(self) -> Seq<(Id, (bool, M))> {
        match self.overlay {
            Some(o) => o.entries(),
            None => Seq::empty(),
        }
    }

    /// The value of `id` through this view: the overlay's when it binds
    /// `id`, the root's otherwise.
    pub open spec fn value_of(self, id: Id) -> Option<M> {
        match lookup(self.overlay_entries(), id) {
            Some((_, m)) => Some(m),
            None => match lookup(self.root.entries(), id) {
                Some((_, m)) => Some(m),
                None => None,
            },
        }
    }

    /// The changed value of `id` through this view: the overlay's when it
    /// changed there, the root's when it changed there, `None` otherwise.
    pub open spec fn changed_of(self, id: Id) -> Option<M> {
        match changed_value(self.overlay_entries(), id) {
            Some(m) => Some(m),
            None => changed_value(self.root.entries(), id),
        }
    }

    /// The value bound to `id`, looked up in the overlay first.
    pub fn get(&self, id: Id) -> (r: Option<&'a M>)
        requires
            self.wf(),
        ensures
            match self.value_of(id) {
                None => r is None,
                Some(m) => r matches Some(x) && *x == m,
            },
    {
        let from_overlay = match self.overlay {
            Some(overlay) => overlay.get(id),
            None => None,
        };
        match from_overlay {
            Some(entry) => Some(&entry.1),
            None => match self.root.get(id) {
                Some(entry) => Some(&entry.1),
                None => None,
            },
        }
    }

    /// The changed bindings, by ascending id, with their value through this
    /// view (see [`View::changed_of`]).
    pub fn changed(&self) -> (r: Vec<(Id, &'a M)>)
        requires
            self.wf(),
        ensures
            ids_ascending(r@),
            forall|id: Id| #[trigger]
                lookup(r@, id) == match self.changed_of(id) {
                    Some(m) => Some(&m),
                    None => None,
                },
    {
        let root = self.root;
        // Without an overlay, the root merged with itself gives its own
        // changed bindings.
        let overlay = match self.overlay {
            Some(o) => o,
            None => root,
        };
        let r = merge_changed(overlay, root);
        proof {
            assert forall|id: Id| #[trigger]
                changed_in(overlay.entries(), root.entries(), id) == self.changed_of(id) by {
                if self.overlay is None {
                    assert(lookup(Seq::<(Id, (bool, M))>::empty(), id) is None);
                }
            }
        }
        r
    }
}

/// The changed value of `x` in `a`, or else in `b`.
pub open spec fn changed_in<M>(a: Seq<(Id, (bool, M))>, b: Seq<(Id, (bool, M))>, x: Id) -> Option<
    M,
> {
    match changed_value(a, x) {
        Some(m) => Some(m),
        None => changed_value(b, x),
    }
}

/// The value of the id at `i` in `s`, past every id at the end.
pub open spec fn next_value<T>(s: Seq<(Id, T)>, i: int) -> int {
    if 0 <= i < s.len() {
        s[i].0.value() as int
    } else {
        u32::MAX + 1
    }
}

/// The smaller of the next ids of `a` and `b`.
pub open spec fn frontier<T, U>(a: Seq<(Id, T)>, b: Seq<(Id, U)>, i: int, j: int) -> int {
    if next_value(a, i) < next_value(b, j) {
        next_value(a, i)
    } else {
        next_value(b, j)
    }
}

proof fn lemma_lookup_push<T>(s: Seq<(Id, T)>, id: Id, v: T)
    requires
        ids_ascending(s),
        forall|k: int| 0 <= k < s.len() ==> #[trigger] s[k].0.value() < id.value(),
    ensures
        ids_ascending(s.push((id, v))),
        forall|x: Id| #[trigger]
            lookup(s.push((id, v)), x) == if x == id {
                Some(v)
            } else {
                lookup(s, x)
            },
{
    let t = s.push((id, v));
    assert forall|x: Id| #[trigger]
        lookup(t, x) == if x == id {
            Some(v)
        } else {
            lookup(s, x)
        } by {
        if x == id {
            lemma_lookup_at(t, s.len() as int);
        } else if exists|k: int| 0 <= k < s.len() && s[k].0 == x {
            let k = choose|k: int| 0 <= k < s.len() && s[k].0 == x;
            lemma_lookup_at(s, k);
            assert(t[k] == s[k]);
            lemma_lookup_at(t, k);
        } else {
            assert forall|k: int| 0 <= k < t.len() implies t[k].0 != x by {
                if k < s.len() {
                    assert(t[k] == s[k]);
                }
            }
        }
    }
}

/// The changed bindings of `overlay` and `root`, merged by ascending id,
/// the overlay's value first.
fn merge_changed<'a, M>(overlay: &'a BindingMap<M>, root: &'a BindingMap<M>) -> (r: Vec<
    (Id, &'a M),
>)
    requires
        overlay.wf(),
        root.wf(),
    ensures
        ids_ascending(r@),
        forall|x: Id| #[trigger]
            lookup(r@, x) == match changed_in(overlay.entries(), root.entries(), x) {
                Some(m) => Some(&m),
                None => None,
            },
{
    let ghost a = overlay.entries();
    let ghost b = root.entries();
    let mut out: Vec<(Id, &'a M)> = Vec::new();
    let mut i: usize = 0;
    let mut j: usize = 0;
    while i < overlay.0.len() || j < root.0.len()
        invariant
            a == overlay.entries(),
            b == root.entries(),
            ids_ascending(a),
            ids_ascending(b),
            i <= a.len(),
            j <= b.len(),
            ids_ascending(out@),
            forall|k: int| 0 <= k < out@.len() ==> #[trigger] out@[k].0.value() < frontier(a, b, i as int, j as int),
            forall|k: int| 0 <= k < i ==> #[trigger] a[k].0.value() < frontier(a, b, i as int, j as int),
            forall|k: int| 0 <= k < j ==> #[trigger] b[k].0.value() < frontier(a, b, i as int, j as int),
            forall|x: Id| #[trigger]
                lookup(out@, x) == if x.value() < frontier(a, b, i as int, j as int) {
                    match changed_in(a, b, x) {
                        Some(m) => Some(&m),
                        None => None,
                    }
                } else {
                    None
                },
        decreases a.len() + b.len() - i - j,
    {
        let ghost old_out = out@;
        let ghost (i0, j0) = (i as int, j as int);
        let ghost f0 = frontier(a, b, i0, j0);
        let na: u64 = if i < overlay.0.len() {
            overlay.0[i].0.0 as u64
        } else {
            u32::MAX as u64 + 1
        };
        let nb: u64 = if j < root.0.len() {
            root.0[j].0.0 as u64
        } else {
            u32::MAX as u64 + 1
        };
        let ghost p: Id;
        if na == nb {
            let ea = &overlay.0[i];
            let eb = &root.0[j];
            proof {
                p = ea.0;
                assert(ea.0 == eb.0);
                lemma_lookup_at(a, i0);
                lemma_lookup_at(b, j0);
            }
            if ea.1.0 {
                proof {
                    lemma_lookup_push(old_out, ea.0, &ea.1.1);
                }
                out.push((ea.0, &ea.1.1));
            } else if eb.1.0 {
                proof {
                    lemma_lookup_push(old_out, eb.0, &eb.1.1);
                }
                out.push((eb.0, &eb.1.1));
            }
            i = i + 1;
            j = j + 1;
        } else if na < nb {
            let ea = &overlay.0[i];
            proof {
                p = ea.0;
                lemma_lookup_at(a, i0);
                assert forall|k: int| 0 <= k < b.len() implies b[k].0 != p by {
                    if k >= j0 {
                        assert(b[k].0.value() >= b[j0].0.value());
                    }
                }
            }
            if ea.1.0 {
                proof {
                    lemma_lookup_push(old_out, ea.0, &ea.1.1);
                }
                out.push((ea.0, &ea.1.1));
            }
            i = i + 1;
        } else {
            let eb = &root.0[j];
            proof {
                p = eb.0;
                lemma_lookup_at(b, j0);
                assert forall|k: int| 0 <= k < a.len() implies a[k].0 != p by {
                    if k >= i0 {
                        assert(a[k].0.value() >= a[i0].0.value());
                    }
                }
            }
            if eb.1.0 {
                proof {
                    lemma_lookup_push(old_out, eb.0, &eb.1.1);
                }
                out.push((eb.0, &eb.1.1));
            }
            j = j + 1;
        }
        proof {
            let f1 = frontier(a, b, i as int, j as int);
            assert(p.value() == f0);
            assert(f0 < f1) by {
                if i < a.len() && i as int > i0 {
                    assert(a[i as int].0.value() > a[i0].0.value());
                }
                if j < b.len() && j as int > j0 {
                    assert(b[j as int].0.value() > b[j0].0.value());
                }
            }
            assert forall|k: int| 0 <= k < i implies #[trigger] a[k].0.value() < f1 by {
                if k < i0 {
                    assert(a[k].0.value() < f0);
                }
            }
            assert forall|k: int| 0 <= k < j implies #[trigger] b[k].0.value() < f1 by {
                if k < j0 {
                    assert(b[k].0.value() < f0);
                }
            }
            assert forall|x: Id| #[trigger]
                lookup(out@, x) == if x.value() < f1 {
                    match changed_in(a, b, x) {
                        Some(m) => Some(&m),
                        None => None,
                    }
                } else {
                    None
                } by {
                if x == p {
                } else if x.value() < f0 {
                } else if x.value() < f1 {
                    assert forall|k: int| 0 <= k < a.len() implies a[k].0 != x by {
                        if k < i0 {
                            assert(a[k].0.value() < f0);
                        } else if k < i {
                            assert(a[k].0 == p);
                        } else if k > i {
                            assert(a[k].0.value() > a[i as int].0.value());
                        }
                    }
                    assert forall|k: int| 0 <= k < b.len() implies b[k].0 != x by {
                        if k < j0 {
                            assert(b[k].0.value() < f0);
                        } else if k < j {
                            assert(b[k].0 == p);
                        } else if k > j {
                            assert(b[k].0.value() > b[j as int].0.value());
                        }
                    }
                    assert(lookup(a, x) is None);
                    assert(lookup(b, x) is None);
                } else {
                    assert forall|k: int| 0 <= k < out@.len() implies out@[k].0 != x by {
                        if k < old_out.len() {
                            assert(out@[k] == old_out[k]);
                            assert(old_out[k].0.value() < f0);
                        }
                    }
                }
            }
            assert forall|k: int| 0 <= k < out@.len() implies #[trigger] out@[k].0.value() < f1 by {
                if k < old_out.len() {
                    assert(out@[k] == old_out[k]);
                    assert(old_out[k].0.value() < f0);
                }
            }
        }
    }
    out
}

/// The place of a binding in a [`BindingMap`], bound or not.
pub enum Entry<'a, V> {
    /// The binding exists: its value.
    Occupied(&'a mut V),
    /// The binding does not exist: its id, and where to add it.
    Vacant(Id, &'a mut BindingMap<V>),
}

impl<'a, V> Entry<'a, V> {
    /// The entry of `key` in `parent`.
    pub fn new(parent: &'a mut BindingMap<V>, key: Id) -> (r: Self)
        requires
            old(parent).wf(),
        ensures
            match r {
                Entry::Occupied(v) => {
                    &&& lookup(old(parent).entries(), key) matches Some((_, m)) && *v == m
                    &&& final(parent).wf()
                    &&& forall|k: Id| #[trigger]
                        lookup(final(parent).entries(), k) == if k == key {
                            Some((true, *final(v)))
                        } else {
                            lookup(old(parent).entries(), k)
                        }
                },
                Entry::Vacant(k, p) => {
                    &&& k == key
                    &&& lookup(old(parent).entries(), key) is None
                    &&& *p == *old(parent)
                    &&& *final(p) == *final(parent)
                },
            },
    {
        if parent.contains_key(key) {
            let entry = parent.get_mut(key).unwrap();
            entry.0 = true;
            Entry::Occupied(&mut entry.1)
        } else {
            Entry::Vacant(key, parent)
        }
    }

    /// Changes the value of this entry with `f` if it is occupied; a vacant
    /// entry stays as it is.
    pub fn modify<F: FnOnce(&mut V)>(self, f: F) -> (r: Self)
        requires
            forall|x: &mut V| call_requires(f, (x,)),
        ensures
            match (self, r) {
                (Entry::Occupied(v), Entry::Occupied(w)) => *final(v) == *final(w) && exists|
                    x: &mut V,
                | *x == *v && *final(x) == *w && call_ensures(f, (x,), ()),
                (Entry::Vacant(k, p), Entry::Vacant(k2, p2)) => k == k2 && *p2 == *p && *final(p)
                    == *final(p2),
                _ => false,
            },
    {
        match self {
            Entry::Occupied(value) => {
                let x = &mut *value;
                let ghost xg = x;
                f(x);
                assert(*final(xg) == *value);
                Entry::Occupied(value)
            },
            Entry::Vacant(key, parent) => Entry::Vacant(key, parent),
        }
    }

    /// `self` can be filled: a vacant entry's map is well formed.
    pub open spec fn fillable(self) -> bool {
        match self {
            Entry::Occupied(_) => true,
            Entry::Vacant(_, p) => p.wf(),
        }
    }

    /// If this `Entry` is vacant, set it to its default value, returns entry.
    pub fn or_default(self) -> (r: &'a mut V) where V: Default
        requires
            self.fillable(),
        ensures
            match self {
                Entry::Occupied(v) => *r == *v && *final(v) == *final(r),
                Entry::Vacant(key, p) => {
                    &&& call_ensures(V::default, (), *r)
                    &&& final(p).wf()
                    &&& forall|k: Id| #[trigger]
                        lookup(final(p).entries(), k) == if k == key {
                            Some((true, *final(r)))
                        } else {
                            lookup(p.entries(), k)
                        }
                },
            },
    {
        match self {
            Entry::Occupied(value) => value,
            Entry::Vacant(key, parent) => {
                let make = V::default;
                Self::fill(key, parent, make())
            },
        }
    }

    /// Binds `key` to `value` in `parent`, and gives access to it.
    fn fill(key: Id, parent: &'a mut BindingMap<V>, value: V) -> (r: &'a mut V)
        requires
            old(parent).wf(),
        ensures
            *r == value,
            final(parent).wf(),
            forall|k: Id| #[trigger]
                lookup(final(parent).entries(), k) == if k == key {
                    Some((true, *final(r)))
                } else {
                    lookup(old(parent).entries(), k)
                },
    {
        parent.insert(key, (true, value));
        let entry = parent.get_mut(key).unwrap();
        &mut entry.1
    }

    /// If this `Entry` is vacant, set it to `default`, returns entry.
    pub fn or_insert(self, default: V) -> (r: &'a mut V)
        requires
            self.fillable(),
        ensures
            match self {
                Entry::Occupied(v) => *r == *v && *final(v) == *final(r),
                Entry::Vacant(key, p) => {
                    &&& *r == default
                    &&& final(p).wf()
                    &&& forall|k: Id| #[trigger]
                        lookup(final(p).entries(), k) == if k == key {
                            Some((true, *final(r)))
                        } else {
                            lookup(p.entries(), k)
                        }
                },
            },
    {
        match self {
            Entry::Occupied(value) => value,
            Entry::Vacant(key, parent) => Self::fill(key, parent, default),
        }
    }

    /// If this `Entry` is vacant, set it to what `default` returns, returns
    /// entry.
    ///
    /// `default` is only evaluated if the entry is vacant.
    pub fn or_insert_with(self, default: impl FnOnce() -> V) -> (r: &'a mut V)
        requires
            self.fillable(),
            self is Vacant ==> default.requires(()),
        ensures
            match self {
                Entry::Occupied(v) => *r == *v && *final(v) == *final(r),
                Entry::Vacant(key, p) => {
                    &&& default.ensures((), *r)
                    &&& final(p).wf()
                    &&& forall|k: Id| #[trigger]
                        lookup(final(p).entries(), k) == if k == key {
                            Some((true, *final(r)))
                        } else {
                            lookup(p.entries(), k)
                        }
                },
            },
    {
        match self {
            Entry::Occupied(value) => value,
            Entry::Vacant(key, parent) => {
                let value = default();
                Self::fill(key, parent, value)
            },
        }
    }

    /// Set this entry to `new_value`, even if already occupied.
    pub fn insert(self, new_value: V) -> (r: &'a mut V)
        requires
            self.fillable(),
        ensures
            *r == new_value,
            match self {
                Entry::Occupied(v) => *final(v) == *final(r),
                Entry::Vacant(key, p) => {
                    &&& final(p).wf()
                    &&& forall|k: Id| #[trigger]
                        lookup(final(p).entries(), k) == if k == key {
                            Some((true, *final(r)))
                        } else {
                            lookup(p.entries(), k)
                        }
                },
            },
    {
        match self {
            Entry::Occupied(value) => {
                *value = new_value;
                value
            },
            Entry::Vacant(key, parent) => Self::fill(key, parent, new_value),
        }
    }
}

} // verus!
