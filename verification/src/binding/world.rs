//! Bindings by name: the names interned, each standing for an [`Id`], and the
//! values bound to the ids, globally ([`World`]) or locally ([`Local`]).
use vstd::prelude::*;

use crate::binding::{lookup, BindingMap, Entry, Id, View};
use string_interner::{DefaultStringInterner, Symbol};
use vstd::std_specs::cmp::PartialEqSpec;
use vstd::view::View as _;

verus! {

/// Names interned by a `string_interner::StringInterner` with its default
/// backend and symbols: each name stands for the index at which it was first
/// interned. The interner is held in a private field: its hasher type, a
/// default of `hashbrown`, cannot be named here to declare the type.
#[verifier::external_body]
pub struct Names {
    inner: DefaultStringInterner,
}

/// The names interned in `names`, by index.
pub uninterp spec fn interned(names: Names) -> Seq<Seq<char>>;

impl Names {
    /// Calls `StringInterner::new`, which interns no name.
    #[verifier::external_body]
    pub(crate) fn new() -> (r: Self)
        ensures
            interned(r) == Seq::<Seq<char>>::empty(),
    {
        Names { inner: DefaultStringInterner::new() }
    }

    /// Calls `StringInterner::get`: the index of `name`, if it is interned.
    /// The index of a symbol is right while no more than `u32::MAX` names
    /// are interned.
    #[verifier::external_body]
    pub(crate) fn get(&self, name: &str) -> (r: Option<usize>)
        requires
            interned(*self).len() <= u32::MAX,
        ensures
            match r {
                Some(i) => i < interned(*self).len() && interned(*self)[i as int] == name@,
                None => !interned(*self).contains(name@),
            },
    {
        match self.inner.get(name) {
            Some(symbol) => Some(symbol.to_usize()),
            None => None,
        }
    }

    /// Calls `StringInterner::get_or_intern`: the index of `name`, interned
    /// first at the next index if it is not yet. The crate panics when a new
    /// name would get the index `u32::MAX`, which `requires` rules out.
    #[verifier::external_body]
    pub(crate) fn get_or_intern(&mut self, name: &str) -> (r: usize)
        requires
            interned(*old(self)).len() <= u32::MAX,
            interned(*old(self)).contains(name@) || interned(*old(self)).len() < u32::MAX,
        ensures
            interned(*old(self)).contains(name@) ==> interned(*final(self)) == interned(*old(self))
                && r < interned(*old(self)).len() && interned(*old(self))[r as int] == name@,
            !interned(*old(self)).contains(name@) ==> interned(*final(self)) == interned(
                *old(self),
            ).push(name@) && r == interned(*old(self)).len(),
    {
        self.inner.get_or_intern(name).to_usize()
    }
}

/// `id` is the id of `name` among `names`: the name of index `id.value() - 1`.
pub open spec fn is_id_of(names: Seq<Seq<char>>, name: Seq<char>, id: Id) -> bool {
    1 <= id.value() <= names.len() && names[id.value() - 1] == name
}

/// The id of the name of index `i`.
fn id_at(i: usize) -> (r: Id)
    requires
        i < u32::MAX,
    ensures
        r.value() == i + 1,
{
    match Id::try_from_usize(i) {
        Some(id) => id,
        None => {
            assert(false);
            Id::try_from_usize(0).unwrap()
        },
    }
}

/// The id of `name` among distinct `names` is unique.
proof fn lemma_id_unique(names: Seq<Seq<char>>, name: Seq<char>, a: Id, b: Id)
    requires
        names.no_duplicates(),
        is_id_of(names, name, a),
        is_id_of(names, name, b),
    ensures
        a == b,
{
    assert(a.value() == b.value());
    Id::lemma_value_unique(a, b);
}

/// Names and ids go one for one in a world: a name has one id, and two
/// names never share one.
pub proof fn law_ids_of_names<M>(w: &World<M>, a: Seq<char>, b: Seq<char>, ia: Id, ib: Id)
    requires
        w.wf(),
        is_id_of(w.names(), a, ia),
        is_id_of(w.names(), b, ib),
    ensures
        (a == b) <==> (ia == ib),
{
    w.lemma_wf();
    if a == b {
        lemma_id_unique(w.names(), a, ia, ib);
    }
}

/// Global bindings: the names interned, and the values bound to their ids,
/// each with whether it changed.
pub struct World<M> {
    bindings: BindingMap<M>,
    interner: Names,
}

impl<M> World<M> {
    /// The names interned, by index (see [`is_id_of`]).
    pub closed spec fn names(&self) -> Seq<Seq<char>> {
        interned(self.interner)
    }

    /// The bindings, by ascending id.
    pub closed spec fn entries(&self) -> Seq<(Id, (bool, M))> {
        self.bindings.entries()
    }

    /// The bindings are well formed, the names distinct and no more than
    /// `u32::MAX`.
    pub closed spec fn wf(&self) -> bool {
        &&& self.bindings.wf()
        &&& self.names().no_duplicates()
        &&& self.names().len() <= u32::MAX
    }

    /// What a well-formed world keeps.
    pub proof fn lemma_wf(&self)
        requires
            self.wf(),
        ensures
            crate::binding::ids_ascending(self.entries()),
            self.names().no_duplicates(),
            self.names().len() <= u32::MAX,
    {
        self.bindings.lemma_wf();
    }
}

impl<M> Default for World<M> {
    /// No name and no binding.
    fn default() -> (r: Self)
        ensures
            r.wf(),
            r.names() == Seq::<Seq<char>>::empty(),
            r.entries() == Seq::<(Id, (bool, M))>::empty(),
    {
        World { bindings: BindingMap::new(), interner: Names::new() }
    }
}

impl<M> World<M> {
    /// The entry of `id`, to read, insert or change its binding.
    pub fn entry(&mut self, id: Id) -> (r: Entry<'_, M>)
        requires
            old(self).wf(),
        ensures
            final(self).names() == old(self).names(),
            match r {
                Entry::Occupied(v) => {
                    &&& lookup(old(self).entries(), id) matches Some((_, m)) && *v == m
                    &&& final(self).wf()
                    &&& forall|k: Id| #[trigger]
                        lookup(final(self).entries(), k) == if k == id {
                            Some((true, *final(v)))
                        } else {
                            lookup(old(self).entries(), k)
                        }
                },
                Entry::Vacant(k, p) => {
                    &&& k == id
                    &&& lookup(old(self).entries(), id) is None
                    &&& p.wf()
                    &&& p.entries() == old(self).entries()
                    &&& final(self).entries() == final(p).entries()
                    &&& final(p).wf() ==> final(self).wf()
                },
            },
    {
        self.bindings.entry(id)
    }

    /// Binds the name `key` to `value`, marked as changed; `None`, and no
    /// change, when `key` is not interned.
    pub fn set(&mut self, key: &str, value: M) -> (r: Option<()>)
        requires
            old(self).wf(),
        ensures
            final(self).wf(),
            final(self).names() == old(self).names(),
            r is Some <==> old(self).names().contains(key@),
            forall|k: Id| #[trigger]
                lookup(final(self).entries(), k) == if r is Some && is_id_of(old(self).names(), key@, k) {
                    Some((true, value))
                } else {
                    lookup(old(self).entries(), k)
                },
    {
        match self.interner.get(key) {
            Some(i) => {
                let id = id_at(i);
                self.bindings.set_id(id, value);
                proof {
                    assert forall|k: Id| is_id_of(self.names(), key@, k) <==> k == id by {
                        if is_id_of(self.names(), key@, k) {
                            lemma_id_unique(self.names(), key@, k, id);
                        }
                    }
                }
                Some(())
            },
            None => {
                proof {
                    assert forall|k: Id| !is_id_of(old(self).names(), key@, k) by {
                        if is_id_of(old(self).names(), key@, k) {
                            assert(old(self).names()[k.value() - 1] == key@);
                        }
                    }
                }
                None
            },
        }
    }

    /// Binds `id` to `value`, marked as changed.
    pub fn set_id(&mut self, id: Id, value: M)
        requires
            old(self).wf(),
        ensures
            final(self).wf(),
            final(self).names() == old(self).names(),
            forall|k: Id| #[trigger]
                lookup(final(self).entries(), k) == if k == id {
                    Some((true, value))
                } else {
                    lookup(old(self).entries(), k)
                },
    {
        self.bindings.set_id(id, value);
    }

    /// Like [`World::set_id`], but keeps the binding, unchanged, if its value
    /// equals `value`.
    pub fn set_id_neq(&mut self, id: Id, value: M)
        where
            M: PartialEq,
        requires
            old(self).wf(),
        ensures
            final(self).wf(),
            final(self).names() == old(self).names(),
            ({
                let set = forall|k: Id| #[trigger]
                    lookup(final(self).entries(), k) == if k == id {
                        Some((true, value))
                    } else {
                        lookup(old(self).entries(), k)
                    };
                let kept = forall|k: Id| #[trigger]
                    lookup(final(self).entries(), k) == lookup(old(self).entries(), k);
                match lookup(old(self).entries(), id) {
                    None => set,
                    Some((_, m)) => {
                        &&& set || kept
                        &&& M::obeys_eq_spec() && m.eq_spec(&value) ==> kept
                        &&& M::obeys_eq_spec() && !m.eq_spec(&value) ==> set
                    },
                }
            }),
    {
        match self.bindings.get_mut(id) {
            Some(old_value) => {
                if old_value.1 != value {
                    *old_value = (true, value);
                }
            },
            None => {
                self.bindings.insert(id, (true, value));
            },
        }
    }

    /// Like [`World::set`], but keeps the binding, unchanged, if its value
    /// equals `value`.
    pub fn set_neq(&mut self, key: &str, value: M) -> (r: Option<()>)
        where
            M: PartialEq,
        requires
            old(self).wf(),
        ensures
            final(self).wf(),
            final(self).names() == old(self).names(),
            r is Some <==> old(self).names().contains(key@),
            r is None ==> forall|k: Id| #[trigger]
                lookup(final(self).entries(), k) == lookup(old(self).entries(), k),
            r is Some ==> exists|id: Id|
                #[trigger] is_id_of(old(self).names(), key@, id) && ({
                    let set = forall|k: Id| #[trigger]
                        lookup(final(self).entries(), k) == if k == id {
                            Some((true, value))
                        } else {
                            lookup(old(self).entries(), k)
                        };
                    let kept = forall|k: Id| #[trigger]
                        lookup(final(self).entries(), k) == lookup(old(self).entries(), k);
                    match lookup(old(self).entries(), id) {
                        None => set,
                        Some((_, m)) => {
                            &&& set || kept
                            &&& M::obeys_eq_spec() && m.eq_spec(&value) ==> kept
                            &&& M::obeys_eq_spec() && !m.eq_spec(&value) ==> set
                        },
                    }
                }),
    {
        match self.interner.get(key) {
            Some(i) => {
                let id = id_at(i);
                assert(is_id_of(old(self).names(), key@, id));
                self.set_id_neq(id, value);
                Some(())
            },
            None => None,
        }
    }

    /// The value bound to the name `key`, to change in place; it is marked as
    /// changed. `None`, and no change, when `key` is not interned or not
    /// bound.
    pub fn get_mut(&mut self, key: &str) -> (r: Option<&mut M>)
        requires
            old(self).wf(),
        ensures
            final(self).names() == old(self).names(),
            r is Some <==> exists|id: Id|
                #[trigger] is_id_of(old(self).names(), key@, id) && lookup(old(self).entries(), id) is Some,
            match r {
                None => forall|k: Id| #[trigger]
                    lookup(final(self).entries(), k) == lookup(old(self).entries(), k),
                Some(v) => exists|id: Id|
                    #[trigger] is_id_of(old(self).names(), key@, id) && ({
                        &&& lookup(old(self).entries(), id) matches Some((_, m)) && *v == m
                        &&& final(self).wf()
                        &&& forall|k: Id| #[trigger]
                            lookup(final(self).entries(), k) == if k == id {
                                Some((true, *final(v)))
                            } else {
                                lookup(old(self).entries(), k)
                            }
                    }),
            },
    {
        let ghost names = self.names();
        match self.interner.get(key) {
            Some(i) => {
                let id = id_at(i);
                assert(is_id_of(names, key@, id));
                proof {
                    assert forall|k: Id| #[trigger] is_id_of(names, key@, k) implies k == id by {
                        lemma_id_unique(names, key@, k, id);
                    }
                }
                match self.bindings.get_mut(id) {
                    Some(pair) => {
                        pair.0 = true;
                        Some(&mut pair.1)
                    },
                    None => None,
                }
            },
            None => {
                proof {
                    assert forall|k: Id| !#[trigger] is_id_of(names, key@, k) by {
                        if is_id_of(names, key@, k) {
                            assert(names[k.value() - 1] == key@);
                        }
                    }
                }
                None
            },
        }
    }

    /// The id of `name`, interned first if it is not yet. A new name needs a
    /// free id: fewer than `u32::MAX` names interned.
    pub fn get_or_add(&mut self, name: &str) -> (r: Id)
        requires
            old(self).wf(),
            old(self).names().contains(name@) || old(self).names().len() < u32::MAX,
        ensures
            final(self).wf(),
            final(self).entries() == old(self).entries(),
            final(self).names() == if old(self).names().contains(name@) {
                old(self).names()
            } else {
                old(self).names().push(name@)
            },
            is_id_of(final(self).names(), name@, r),
    {
        let i = self.interner.get_or_intern(name);
        let id = id_at(i);
        proof {
            if !old(self).names().contains(name@) {
                let n = old(self).names();
                assert forall|a: int, b: int| 0 <= a < b < n.push(name@).len() implies n.push(name@)[a]
                    != n.push(name@)[b] by {
                    if b == n.len() {
                        assert(n[a] != name@);
                    }
                }
            }
        }
        id
    }

    /// The id of `name`, if it is interned.
    pub fn get_id(&self, name: &str) -> (r: Option<Id>)
        requires
            self.wf(),
        ensures
            r is Some <==> self.names().contains(name@),
            r matches Some(id) ==> is_id_of(self.names(), name@, id),
    {
        match self.interner.get(name) {
            Some(i) => Some(id_at(i)),
            None => None,
        }
    }

    /// A view of these bindings alone.
    pub fn view(&self) -> (r: View<'_, M>)
        requires
            self.wf(),
        ensures
            r.root.wf(),
            r.root.entries() == self.entries(),
            r.overlay is None,
    {
        self.bindings.view()
    }

    /// A view of the bindings of `local` over these, once `local` is synced
    /// with this world (see [`Local::sync`]); the error of the sync if it
    /// fails.
    pub fn view_with_local<'a>(&'a self, local: &'a mut Local<M>) -> (r: Result<View<'a, M>, SyncError>)
        requires
            self.wf(),
            old(local).wf(),
        ensures
            final(local).wf(),
            final(local).waiting() == Seq::<(Seq<char>, M)>::empty(),
            r is Ok <==> forall|t: int|
                0 <= t < old(local).waiting().len() ==> self.names().contains(
                    #[trigger] old(local).waiting()[t].0,
                ),
            r is Ok ==> synced(
                self.names(),
                old(local).waiting(),
                old(local).entries(),
                old(local).resolved(),
                final(local).entries(),
                final(local).resolved(),
            ),
            r is Err ==> exists|j: int|
                is_first_unknown(self.names(), old(local).waiting(), j) && #[trigger] synced(
                    self.names(),
                    old(local).waiting().take(j),
                    old(local).entries(),
                    old(local).resolved(),
                    final(local).entries(),
                    final(local).resolved(),
                ),
            r matches Ok(v) ==> {
                &&& v.root.wf()
                &&& v.root.entries() == self.entries()
                &&& v.overlay matches Some(o) && o.wf() && o.entries() == final(local).entries()
            },
    {
        match local.sync(self) {
            Ok(()) => Ok(View { root: &self.bindings, overlay: Some(&local.bindings) }),
            Err(e) => Err(e),
        }
    }

    /// Marks every binding as unchanged.
    pub fn reset_changes(&mut self)
        requires
            old(self).wf(),
        ensures
            final(self).wf(),
            final(self).names() == old(self).names(),
            final(self).entries().len() == old(self).entries().len(),
            forall|i: int|
                0 <= i < old(self).entries().len() ==> #[trigger] final(self).entries()[i] == (
                    old(self).entries()[i].0,
                    (false, old(self).entries()[i].1.1),
                ),
    {
        self.bindings.reset_changes();
    }
}

/// The id `names` resolves `name` to: that of its entry, if it has one.
pub open spec fn resolved_id(names: Seq<(Seq<char>, Id)>, name: Seq<char>) -> Option<Id> {
    if exists|i: int| 0 <= i < names.len() && #[trigger] names[i].0 == name {
        Some(names[choose|i: int| 0 <= i < names.len() && #[trigger] names[i].0 == name].1)
    } else {
        None
    }
}

/// Each name has one entry at most.
pub open spec fn names_distinct(names: Seq<(Seq<char>, Id)>) -> bool {
    forall|i: int, j: int| 0 <= i < j < names.len() ==> names[i].0 != names[j].0
}

proof fn lemma_resolved_at(names: Seq<(Seq<char>, Id)>, i: int)
    requires
        names_distinct(names),
        0 <= i < names.len(),
    ensures
        resolved_id(names, names[i].0) == Some(names[i].1),
{
    let c = choose|c: int| 0 <= c < names.len() && #[trigger] names[c].0 == names[i].0;
    if c < i {
        assert(names[c].0 != names[i].0);
    } else if c > i {
        assert(names[i].0 != names[c].0);
    }
}

/// The binding of `k` once the values `b` are bound, one after the other,
/// each to the id of its name among `names`, over the binding `before`.
pub open spec fn bound_after<M>(
    names: Seq<Seq<char>>,
    b: Seq<(Seq<char>, M)>,
    before: Option<(bool, M)>,
    k: Id,
) -> Option<(bool, M)>
    decreases b.len(),
{
    if b.len() == 0 {
        before
    } else if is_id_of(names, b.last().0, k) {
        Some((true, b.last().1))
    } else {
        bound_after(names, b.drop_last(), before, k)
    }
}

/// `j` is the first of `b` whose name is not among `names`.
pub open spec fn is_first_unknown<M>(names: Seq<Seq<char>>, b: Seq<(Seq<char>, M)>, j: int) -> bool {
    &&& 0 <= j < b.len()
    &&& !names.contains(b[j].0)
    &&& forall|t: int| 0 <= t < j ==> names.contains(#[trigger] b[t].0)
}

proof fn lemma_resolved_push(s: Seq<(Seq<char>, Id)>, name: Seq<char>, id: Id)
    requires
        names_distinct(s),
        resolved_id(s, name) is None,
    ensures
        names_distinct(s.push((name, id))),
        forall|x: Seq<char>| #[trigger]
            resolved_id(s.push((name, id)), x) == if x == name {
                Some(id)
            } else {
                resolved_id(s, x)
            },
{
    let t = s.push((name, id));
    assert forall|i: int| 0 <= i < s.len() implies #[trigger] s[i].0 != name by {
        if s[i].0 == name {
            assert(0 <= i < s.len() && s[i].0 == name);
        }
    }
    assert(names_distinct(t)) by {
        assert forall|a: int, b: int| 0 <= a < b < t.len() implies t[a].0 != t[b].0 by {
            if b == s.len() {
                assert(t[a] == s[a]);
            }
        }
    }
    assert forall|x: Seq<char>| #[trigger]
        resolved_id(t, x) == if x == name {
            Some(id)
        } else {
            resolved_id(s, x)
        } by {
        if x == name {
            lemma_resolved_at(t, s.len() as int);
        } else if exists|i: int| 0 <= i < s.len() && #[trigger] s[i].0 == x {
            let i = choose|i: int| 0 <= i < s.len() && #[trigger] s[i].0 == x;
            lemma_resolved_at(s, i);
            assert(t[i] == s[i]);
            lemma_resolved_at(t, i);
        } else {
            assert forall|i: int| 0 <= i < t.len() implies #[trigger] t[i].0 != x by {
                if i < s.len() {
                    assert(t[i] == s[i]);
                }
            }
        }
    }
}

/// `entries` and `resolved` are `before` and `before_resolved` once the
/// values `b` are bound, one after the other, each to the id of its name
/// among `names` (see [`bound_after`]), and the names of `b` not yet
/// resolved are resolved to their id.
pub open spec fn synced<M>(
    names: Seq<Seq<char>>,
    b: Seq<(Seq<char>, M)>,
    before: Seq<(Id, (bool, M))>,
    before_resolved: Seq<(Seq<char>, Id)>,
    entries: Seq<(Id, (bool, M))>,
    resolved: Seq<(Seq<char>, Id)>,
) -> bool {
    &&& forall|k: Id| #[trigger] lookup(entries, k) == bound_after(names, b, lookup(before, k), k)
    &&& forall|name: Seq<char>|
        resolved_id(before_resolved, name) is Some ==> #[trigger] resolved_id(resolved, name)
            == resolved_id(before_resolved, name)
    &&& forall|name: Seq<char>|
        resolved_id(before_resolved, name) is None ==> (#[trigger] resolved_id(resolved, name) is Some
            <==> exists|t: int| 0 <= t < b.len() && #[trigger] b[t].0 == name)
    &&& forall|name: Seq<char>|
        resolved_id(before_resolved, name) is None ==> (#[trigger] resolved_id(resolved, name) matches Some(
            id,
        ) ==> is_id_of(names, name, id))
}

/// A name of `b` that none of `names` has is not found when syncing.
#[derive(Debug, PartialEq, Eq, Structural, Clone, Copy)]
pub enum SyncError {
    /// Tried to bind a name that does not exist.
    UnknownName,
}

/// The values `b` waiting, their names as characters.
pub open spec fn waiting_view<M>(b: Seq<(String, M)>) -> Seq<(Seq<char>, M)> {
    b.map_values(|e: (String, M)| (e.0@, e.1))
}

/// Local bindings: values bound by id, values waiting for their name to be
/// resolved, and the names resolved, each to an id.
pub struct Local<M> {
    bindings: BindingMap<M>,
    buffered: Vec<(String, M)>,
    resolved: Vec<(String, Id)>,
}

impl<M> Local<M> {
    /// The bindings, by ascending id.
    pub closed spec fn entries(&self) -> Seq<(Id, (bool, M))> {
        self.bindings.entries()
    }

    /// The values waiting for their name to be resolved, first set first.
    pub closed spec fn waiting(&self) -> Seq<(Seq<char>, M)> {
        waiting_view(self.buffered@)
    }

    /// The names resolved, each to an id.
    pub closed spec fn resolved(&self) -> Seq<(Seq<char>, Id)> {
        self.resolved@.map_values(|e: (String, Id)| (e.0@, e.1))
    }

    /// The bindings are well formed, and a name is resolved once at most.
    pub closed spec fn wf(&self) -> bool {
        &&& self.bindings.wf()
        &&& names_distinct(self.resolved())
    }

    /// What a well-formed local set of bindings keeps.
    pub proof fn lemma_wf(&self)
        requires
            self.wf(),
        ensures
            crate::binding::ids_ascending(self.entries()),
            names_distinct(self.resolved()),
    {
        self.bindings.lemma_wf();
    }

    /// Where `name` is resolved.
    fn find(&self, name: &String) -> (r: Option<usize>)
        requires
            self.wf(),
        ensures
            match r {
                Some(i) => i < self.resolved().len() && self.resolved()[i as int].0 == name@,
                None => resolved_id(self.resolved(), name@) is None,
            },
    {
        let mut i: usize = 0;
        while i < self.resolved.len()
            invariant
                i <= self.resolved@.len(),
                forall|j: int| 0 <= j < i ==> #[trigger] self.resolved()[j].0 != name@,
            decreases self.resolved@.len() - i,
        {
            if self.resolved[i].0 == *name {
                return Some(i);
            }
            i = i + 1;
        }
        None
    }
}

impl<M> Default for Local<M> {
    /// No binding, nothing waiting, no name resolved.
    fn default() -> (r: Self)
        ensures
            r.wf(),
            r.entries() == Seq::<(Id, (bool, M))>::empty(),
            r.waiting() == Seq::<(Seq<char>, M)>::empty(),
            r.resolved() == Seq::<(Seq<char>, Id)>::empty(),
    {
        let r = Local { bindings: BindingMap::new(), buffered: Vec::new(), resolved: Vec::new() };
        assert(r.waiting() =~= Seq::<(Seq<char>, M)>::empty());
        assert(r.resolved() =~= Seq::<(Seq<char>, Id)>::empty());
        r
    }
}

impl<M> Local<M> {
    /// The entry of `id`, to read, insert or change its binding.
    pub fn entry(&mut self, id: Id) -> (r: Entry<'_, M>)
        requires
            old(self).wf(),
        ensures
            final(self).waiting() == old(self).waiting(),
            final(self).resolved() == old(self).resolved(),
            match r {
                Entry::Occupied(v) => {
                    &&& lookup(old(self).entries(), id) matches Some((_, m)) && *v == m
                    &&& final(self).wf()
                    &&& forall|k: Id| #[trigger]
                        lookup(final(self).entries(), k) == if k == id {
                            Some((true, *final(v)))
                        } else {
                            lookup(old(self).entries(), k)
                        }
                },
                Entry::Vacant(k, p) => {
                    &&& k == id
                    &&& lookup(old(self).entries(), id) is None
                    &&& p.wf()
                    &&& p.entries() == old(self).entries()
                    &&& final(self).entries() == final(p).entries()
                    &&& final(p).wf() ==> final(self).wf()
                },
            },
    {
        self.bindings.entry(id)
    }

    /// Binds `id` to `value`, marked as changed.
    pub fn set_by_id(&mut self, id: Id, value: M)
        requires
            old(self).wf(),
        ensures
            final(self).wf(),
            final(self).waiting() == old(self).waiting(),
            final(self).resolved() == old(self).resolved(),
            forall|k: Id| #[trigger]
                lookup(final(self).entries(), k) == if k == id {
                    Some((true, value))
                } else {
                    lookup(old(self).entries(), k)
                },
    {
        self.bindings.insert(id, (true, value));
    }

    /// The value bound to the resolved name `binding_name`, to change in
    /// place; it is marked as changed. `None`, and no change, when the name
    /// is not resolved or its id not bound.
    pub fn get_mut(&mut self, binding_name: &str) -> (r: Option<&mut M>)
        requires
            old(self).wf(),
        ensures
            final(self).waiting() == old(self).waiting(),
            final(self).resolved() == old(self).resolved(),
            r is Some <==> (resolved_id(old(self).resolved(), binding_name@) matches Some(id) && lookup(
                old(self).entries(),
                id,
            ) is Some),
            match r {
                None => forall|k: Id| #[trigger]
                    lookup(final(self).entries(), k) == lookup(old(self).entries(), k),
                Some(v) => resolved_id(old(self).resolved(), binding_name@) matches Some(id) && ({
                    &&& lookup(old(self).entries(), id) matches Some((_, m)) && *v == m
                    &&& final(self).wf()
                    &&& forall|k: Id| #[trigger]
                        lookup(final(self).entries(), k) == if k == id {
                            Some((true, *final(v)))
                        } else {
                            lookup(old(self).entries(), k)
                        }
                }),
            },
    {
        let name = binding_name.to_owned();
        match self.find(&name) {
            Some(i) => {
                proof {
                    lemma_resolved_at(self.resolved(), i as int);
                }
                let id = self.resolved[i].1;
                match self.bindings.get_mut(id) {
                    Some(pair) => {
                        pair.0 = true;
                        Some(&mut pair.1)
                    },
                    None => None,
                }
            },
            None => None,
        }
    }

    /// Binds the name `binding_name` to `value`, marked as changed, if the
    /// name is resolved; else `value` waits for the name to be resolved.
    pub fn set(&mut self, binding_name: &str, value: M)
        requires
            old(self).wf(),
        ensures
            final(self).wf(),
            final(self).resolved() == old(self).resolved(),
            match resolved_id(old(self).resolved(), binding_name@) {
                Some(id) => {
                    &&& final(self).waiting() == old(self).waiting()
                    &&& forall|k: Id| #[trigger]
                        lookup(final(self).entries(), k) == if k == id {
                            Some((true, value))
                        } else {
                            lookup(old(self).entries(), k)
                        }
                },
                None => {
                    &&& final(self).waiting() == old(self).waiting().push((binding_name@, value))
                    &&& final(self).entries() == old(self).entries()
                },
            },
    {
        let name = binding_name.to_owned();
        match self.find(&name) {
            Some(i) => {
                proof {
                    lemma_resolved_at(self.resolved(), i as int);
                }
                let id = self.resolved[i].1;
                self.bindings.insert(id, (true, value));
            },
            None => {
                self.buffered.push((name, value));
                assert(self.waiting() =~= old(self).waiting().push((binding_name@, value)));
            },
        }
    }

    /// Binds the values waiting, one after the other, each to the id its
    /// name has in `global`, resolving the names; nothing waits afterwards.
    /// At the first name that `global` does not have, stops with
    /// [`SyncError::UnknownName`]: the values from it on are dropped.
    pub fn sync(&mut self, global: &World<M>) -> (r: Result<(), SyncError>)
        requires
            old(self).wf(),
            global.wf(),
        ensures
            final(self).wf(),
            final(self).waiting() == Seq::<(Seq<char>, M)>::empty(),
            r is Ok <==> forall|t: int|
                0 <= t < old(self).waiting().len() ==> global.names().contains(
                    #[trigger] old(self).waiting()[t].0,
                ),
            r is Ok ==> synced(
                global.names(),
                old(self).waiting(),
                old(self).entries(),
                old(self).resolved(),
                final(self).entries(),
                final(self).resolved(),
            ),
            r is Err ==> exists|j: int|
                is_first_unknown(global.names(), old(self).waiting(), j) && #[trigger] synced(
                    global.names(),
                    old(self).waiting().take(j),
                    old(self).entries(),
                    old(self).resolved(),
                    final(self).entries(),
                    final(self).resolved(),
                ),
    {
        let ghost names = global.names();
        let ghost b = self.waiting();
        let ghost before = self.entries();
        let ghost before_resolved = self.resolved();
        proof {
            global.lemma_wf();
        }
        let mut buffered: Vec<(String, M)> = Vec::new();
        std::mem::swap(&mut buffered, &mut self.buffered);
        assert(self.waiting() =~= Seq::<(Seq<char>, M)>::empty());
        let ghost mut n: int = 0;
        assert(synced(names, b.take(0), before, before_resolved, self.entries(), self.resolved())) by {
            assert(b.take(0).len() == 0);
        }
        while buffered.len() > 0
            invariant
                self.wf(),
                global.wf(),
                b == old(self).waiting(),
                before == old(self).entries(),
                before_resolved == old(self).resolved(),
                names == global.names(),
                names.no_duplicates(),
                names.len() <= u32::MAX,
                self.waiting() == Seq::<(Seq<char>, M)>::empty(),
                0 <= n <= b.len(),
                waiting_view(buffered@) == b.skip(n),
                forall|t: int| 0 <= t < n ==> names.contains(#[trigger] b[t].0),
                synced(names, b.take(n), before, before_resolved, self.entries(), self.resolved()),
            decreases buffered@.len(),
        {
            let ghost rest = buffered@;
            let ghost rest_view = waiting_view(rest);
            assert(rest_view.len() == rest.len());
            assert(n < b.len());
            let (new_name, new_modify) = buffered.remove(0);
            assert(rest_view[0] == b.skip(n)[0]);
            assert(b.skip(n)[0] == b[n]);
            assert(b[n] == (new_name@, new_modify));
            proof {
                assert forall|x: int| 0 <= x < buffered@.len() implies #[trigger] waiting_view(
                    buffered@,
                )[x] == b.skip(n + 1)[x] by {
                    assert(buffered@[x] == rest[x + 1]);
                    assert(rest_view[x + 1] == b.skip(n)[x + 1]);
                }
                assert(waiting_view(buffered@) =~= b.skip(n + 1));
            }
            let i = match global.interner.get(new_name.as_str()) {
                Some(i) => i,
                None => {
                    assert(is_first_unknown(names, b, n));
                    return Err(SyncError::UnknownName);
                },
            };
            let id = id_at(i);
            assert(is_id_of(names, new_name@, id));
            let ghost mid_entries = self.entries();
            let ghost mid_resolved = self.resolved();
            match self.find(&new_name) {
                None => {
                    proof {
                        lemma_resolved_push(mid_resolved, new_name@, id);
                    }
                    self.resolved.push((new_name, id));
                    assert(self.resolved() =~= mid_resolved.push((new_name@, id)));
                },
                Some(at) => {
                    proof {
                        lemma_resolved_at(mid_resolved, at as int);
                    }
                },
            }
            self.bindings.insert(id, (true, new_modify));
            proof {
                let taken = b.take(n + 1);
                assert(taken.drop_last() =~= b.take(n));
                assert(taken.last() == b[n]);
                assert forall|k: Id| #[trigger]
                    lookup(self.entries(), k) == bound_after(names, taken, lookup(before, k), k) by {
                    if is_id_of(names, new_name@, k) {
                        lemma_id_unique(names, new_name@, k, id);
                    }
                }
                assert forall|name: Seq<char>|
                    resolved_id(before_resolved, name) is None implies (#[trigger] resolved_id(
                        self.resolved(),
                        name,
                    ) is Some <==> exists|t: int| 0 <= t < taken.len() && #[trigger] taken[t].0 == name) by {
                    if name == new_name@ {
                        assert(taken[n].0 == name);
                    } else {
                        if exists|t: int| 0 <= t < taken.len() && #[trigger] taken[t].0 == name {
                            let t = choose|t: int| 0 <= t < taken.len() && #[trigger] taken[t].0 == name;
                            assert(t < n);
                            assert(b.take(n)[t].0 == name);
                        }
                        if exists|t: int| 0 <= t < b.take(n).len() && #[trigger] b.take(n)[t].0 == name {
                            let t = choose|t: int| 0 <= t < b.take(n).len() && #[trigger] b.take(n)[t].0 == name;
                            assert(taken[t].0 == name);
                        }
                    }
                }
                assert forall|t: int| 0 <= t < n + 1 implies names.contains(#[trigger] b[t].0) by {
                    if t == n {
                        assert(names[i as int] == new_name@);
                    }
                }
                n = n + 1;
            }
        }
        assert(b.take(n) =~= b);
        Ok(())
    }

    /// Marks every binding as unchanged.
    pub fn reset_changes(&mut self)
        requires
            old(self).wf(),
        ensures
            final(self).wf(),
            final(self).waiting() == old(self).waiting(),
            final(self).resolved() == old(self).resolved(),
            final(self).entries().len() == old(self).entries().len(),
            forall|i: int|
                0 <= i < old(self).entries().len() ==> #[trigger] final(self).entries()[i] == (
                    old(self).entries()[i].0,
                    (false, old(self).entries()[i].1.1),
                ),
    {
        self.bindings.reset_changes();
    }
}

} // verus!
