//! Relationships between paths, and lists of paths none of which overlaps
//! another.
use vstd::prelude::*;

use super::{AccessModel, Path};

verus! {

/// See [`Atom`]; this also holds the position in the list of the
/// child or parent found.
#[derive(PartialEq, Eq, Structural, Debug, Clone, Copy)]
pub enum Found {
    Child(usize),
    Parent(usize),
    Equal,
}

/// Relationship between two [`Path`]s.
///
/// Considering relationship between `lhs` (left-hand side) and `rhs`
/// (right-hand side).
#[derive(PartialEq, Eq, Structural, Debug, Clone, Copy)]
pub enum Atom {
    /// `lhs` accesses a sub-field of `rhs`.
    Child,
    /// Same as `Child`, but with `rhs` and `lhs` swapped.
    Parent,
    /// `lhs == rhs`
    Equal,
    /// `rhs` and `lhs` do not overlap.
    Diverges,
}

/// `a` and `b` have the same accessors as far as the shorter goes.
pub open spec fn agree(a: Seq<AccessModel>, b: Seq<AccessModel>) -> bool {
    forall|i: int| 0 <= i < a.len() && 0 <= i < b.len() ==> #[trigger] a[i] == b[i]
}

/// The relationship between the paths `a` and `b`, read "`a` is
/// `atom(a, b)` of `b`".
pub open spec fn atom(a: Seq<AccessModel>, b: Seq<AccessModel>) -> Atom {
    if !agree(a, b) {
        Atom::Diverges
    } else if a.len() > b.len() {
        Atom::Child
    } else if a.len() < b.len() {
        Atom::Parent
    } else {
        Atom::Equal
    }
}

/// `a` is `b` or one of its parents: `b` reaches into what `a` reaches.
pub open spec fn covers(a: Seq<AccessModel>, b: Seq<AccessModel>) -> bool {
    agree(a, b) && a.len() <= b.len()
}

impl Atom {
    pub open spec fn found_spec(self, i: usize) -> Option<Found> {
        match self {
            Atom::Child => Some(Found::Child(i)),
            Atom::Equal => Some(Found::Equal),
            Atom::Parent => Some(Found::Parent(i)),
            Atom::Diverges => None,
        }
    }

    /// The [`Found`] for a path at position `i` related to another by `self`.
    pub fn found(self, i: usize) -> (r: Option<Found>)
        ensures
            r == self.found_spec(i),
    {
        match self {
            Atom::Child => Some(Found::Child(i)),
            Atom::Equal => Some(Found::Equal),
            Atom::Parent => Some(Found::Parent(i)),
            Atom::Diverges => None,
        }
    }
}

impl<'a> Path<'a> {
    /// The [`Atom`] relationship between self and other.
    ///
    /// It should be read "self `<return value>` of other", for example, if
    /// this method returns `Atom::Parent`, we get:
    ///
    /// > "self parent of other"
    pub fn atom_of(&self, other: &Path) -> (r: Atom)
        ensures
            r == atom(self.model(), other.model()),
    {
        let self_comps = &self.0;
        let other_comps = &other.0;
        let ghost a = self.model();
        let ghost b = other.model();
        let mut i: usize = 0;
        while i < self_comps.len() && i < other_comps.len()
            invariant
                a == self.model(),
                b == other.model(),
                self_comps@ == self.0@,
                other_comps@ == other.0@,
                i <= self_comps.len(),
                forall|k: int| 0 <= k < i ==> #[trigger] a[k] == b[k],
            decreases self_comps.len() - i,
        {
            if !self_comps[i].same_as(&other_comps[i]) {
                assert(a[i as int] != b[i as int]);
                return Atom::Diverges;
            }
            i = i + 1;
        }
        if self_comps.len() > other_comps.len() {
            Atom::Child
        } else if self_comps.len() < other_comps.len() {
            Atom::Parent
        } else {
            Atom::Equal
        }
    }
}

/// The position of the first path of `v`, from `k` on, that does not
/// diverge from `rel`.
pub open spec fn overlap_from(v: Seq<Seq<AccessModel>>, rel: Seq<AccessModel>, k: int) -> Option<
    int,
>
    decreases v.len() - k,
{
    if k < 0 || k >= v.len() {
        None
    } else if atom(v[k], rel) != Atom::Diverges {
        Some(k)
    } else {
        overlap_from(v, rel, k + 1)
    }
}

proof fn lemma_overlap_from(v: Seq<Seq<AccessModel>>, rel: Seq<AccessModel>, k: int)
    requires
        0 <= k <= v.len(),
    ensures
        overlap_from(v, rel, k) matches Some(i) ==> k <= i < v.len() && atom(v[i], rel)
            != Atom::Diverges && forall|j: int| k <= j < i ==> atom(#[trigger] v[j], rel)
            == Atom::Diverges,
        overlap_from(v, rel, k) is None ==> forall|j: int| k <= j < v.len() ==> atom(
            #[trigger] v[j],
            rel,
        ) == Atom::Diverges,
    decreases v.len() - k,
{
    if k < v.len() {
        lemma_overlap_from(v, rel, k + 1);
    }
}

/// No two paths of `v` overlap.
pub open spec fn pairwise_diverging(v: Seq<Seq<AccessModel>>) -> bool {
    forall|i: int, j: int|
        0 <= i < v.len() && 0 <= j < v.len() && i != j ==> !agree(#[trigger] v[i], #[trigger] v[j])
}

/// The list `v` after `p` is accumulated into it: `p` is added when it
/// overlaps no path of `v`; it replaces the first overlapping path when that
/// one is a parent of `p`; otherwise `p` is already covered and `v` stays.
pub open spec fn add_atomic(v: Seq<Seq<AccessModel>>, p: Seq<AccessModel>) -> Seq<
    Seq<AccessModel>,
> {
    match overlap_from(v, p, 0) {
        None => v.push(p),
        Some(i) => if atom(v[i], p) == Atom::Parent {
            v.update(i, p)
        } else {
            v
        },
    }
}

/// The paths `ps`, accumulated one after the other into an empty list.
pub open spec fn atomize(ps: Seq<Seq<AccessModel>>) -> Seq<Seq<AccessModel>>
    decreases ps.len(),
{
    if ps.len() == 0 {
        Seq::empty()
    } else {
        add_atomic(atomize(ps.drop_last()), ps.last())
    }
}

/// A list of atomic accessors.
///
/// Used to atomize accessors, for proper dependency management.
///
/// An accessor is *atomic* when it cannot be split into more fine-grained
/// accessors.
///
/// Consider the following accessors:
/// ```text
/// .zooba
/// .gee
/// .gee.wooz
/// .gee.zaboo
/// ```
/// If we have mutable access to `.gee`, it is possible to also access
/// `.gee.wooz`, so we should forbid access to `.gee.wooz` when providing
/// access to `.gee`.
pub struct AtomicAccess<'a>(Vec<Path<'a>>);

impl<'a> View for AtomicAccess<'a> {
    type V = Seq<Seq<AccessModel>>;

    closed spec fn view(&self) -> Seq<Seq<AccessModel>> {
        self.0@.map_values(|p: Path<'a>| p.model())
    }
}

impl<'z> AtomicAccess<'z> {
    #[verifier::type_invariant]
    closed spec fn inv(self) -> bool {
        pairwise_diverging(self.0@.map_values(|p: Path<'z>| p.model()))
    }

    /// The number of paths in the list.
    pub fn len(&self) -> (r: usize)
        ensures
            r == self@.len(),
    {
        self.0.len()
    }

    /// An empty list.
    pub fn new() -> (r: Self)
        ensures
            r@ == Seq::<Seq<AccessModel>>::empty(),
            pairwise_diverging(r@),
    {
        let r = AtomicAccess(Vec::new());
        assert(r@ =~= Seq::<Seq<AccessModel>>::empty());
        r
    }

    /// An empty list, with room for `capacity` paths.
    pub fn with_capacity(capacity: usize) -> (r: Self)
        ensures
            r@ == Seq::<Seq<AccessModel>>::empty(),
            pairwise_diverging(r@),
    {
        let r = AtomicAccess(Vec::with_capacity(capacity));
        assert(r@ =~= Seq::<Seq<AccessModel>>::empty());
        r
    }

    /// Where the first path of the list that overlaps `rel` is, and how it
    /// relates to `rel`; `None` when every path of the list diverges from it.
    pub fn index_of_subset(&self, rel: &Path) -> (r: Option<Found>)
        ensures
            r == match overlap_from(self@, rel.model(), 0) {
                None => None,
                Some(i) => atom(self@[i], rel.model()).found_spec(i as usize),
            },
    {
        index_in(&self.0, rel)
    }

    /// Accumulates `paths` into `Self`, removing duplicates & parents
    /// of existing children.
    pub fn from_non_atomic(paths: Vec<Path<'z>>) -> (r: Self)
        ensures
            r@ == atomize(paths@.map_values(|p: Path<'z>| p.model())),
            pairwise_diverging(r@),
    {
        let ghost ps = paths@.map_values(|p: Path<'z>| p.model());
        let mut atomic: Vec<Path<'z>> = Vec::new();
        let mut rest = paths;
        let ghost n = ps.len();
        assert(atomic@.map_values(|p: Path<'z>| p.model()) =~= atomize(ps.take(0)));
        while rest.len() > 0
            invariant
                rest@.len() <= n,
                n == ps.len(),
                forall|k: int|
                    0 <= k < rest@.len() ==> #[trigger] rest@[k].model() == ps[n - rest@.len() + k],
                atomic@.map_values(|p: Path<'z>| p.model()) == atomize(ps.take(n - rest@.len())),
                pairwise_diverging(atomic@.map_values(|p: Path<'z>| p.model())),
            decreases rest@.len(),
        {
            let ghost done = n - rest@.len();
            let ghost before = atomic@.map_values(|p: Path<'z>| p.model());
            let path = rest.remove(0);
            assert(path.model() == ps[done]);
            assert(ps.take(done + 1).drop_last() =~= ps.take(done));
            let alen = atomic.len();
            let found = index_in(&atomic, &path);
            proof {
                lemma_add_atomic_diverging(before, path.model());
                lemma_overlap_from(before, path.model(), 0);
            }
            let ghost m = path.model();
            match found {
                Some(Found::Parent(index)) => {
                    atomic.set(index, path);
                    assert(atomic@.map_values(|p: Path<'z>| p.model()) =~= before.update(
                        index as int,
                        m,
                    ));
                    let ghost i = overlap_from(before, m, 0)->0;
                    assert(atom(before[i], m) == Atom::Parent);
                    assert(0 <= i < alen);
                    assert(i == index);
                    assert(add_atomic(before, m) == before.update(index as int, m));
                },
                Some(Found::Child(_)) => {
                    assert(atomic@.map_values(|p: Path<'z>| p.model()) =~= before);
                    let ghost i = overlap_from(before, m, 0)->0;
                    assert(atom(before[i], m) == Atom::Child);
                },
                Some(Found::Equal) => {
                    assert(atomic@.map_values(|p: Path<'z>| p.model()) =~= before);
                    let ghost i = overlap_from(before, m, 0)->0;
                    assert(atom(before[i], m) == Atom::Equal);
                },
                None => {
                    atomic.push(path);
                    assert(atomic@.map_values(|p: Path<'z>| p.model()) =~= before.push(m));
                },
            }
            proof {
                let x = ps.take(done + 1);
                assert(x.last() == ps[done]);
                assert(atomize(x) == add_atomic(atomize(ps.take(done)), ps[done]));
                assert(atomic@.map_values(|p: Path<'z>| p.model()) == add_atomic(before, m));
            }
        }
        assert(ps.take(n as int) =~= ps);
        AtomicAccess(atomic)
    }

    /// Try to add `path` to the list of accessors. If it conflicts (it
    /// overlaps a path of the list), then returns `true` and leaves the list
    /// unchanged. `false` otherwise, and `path` is added.
    pub fn add_path(&mut self, path: Path<'z>) -> (r: bool)
        ensures
            r == (overlap_from(old(self)@, path.model(), 0) is Some),
            final(self)@ == if r {
                old(self)@
            } else {
                old(self)@.push(path.model())
            },
            pairwise_diverging(final(self)@),
    {
        proof {
            use_type_invariant(&*self);
            lemma_add_atomic_diverging(self@, path.model());
            lemma_overlap_from(self@, path.model(), 0);
        }
        match self.index_of_subset(&path) {
            Some(_) => {
                return true;
            },
            None => {
                let ghost m = path.model();
                let mut paths: Vec<Path<'z>> = Vec::new();
                std::mem::swap(&mut paths, &mut self.0);
                paths.push(path);
                assert(paths@.map_values(|p: Path<'z>| p.model()) =~= old(self)@.push(m));
                *self = AtomicAccess(paths);
            },
        }
        false
    }
}

/// [`AtomicAccess::index_of_subset`] over a plain list of paths.
fn index_in<'z>(v: &Vec<Path<'z>>, rel: &Path) -> (r: Option<Found>)
    ensures
        r == match overlap_from(v@.map_values(|p: Path<'z>| p.model()), rel.model(), 0) {
            None => None,
            Some(i) => atom(v@.map_values(|p: Path<'z>| p.model())[i], rel.model()).found_spec(
                i as usize,
            ),
        },
{
    let ghost m = v@.map_values(|p: Path<'z>| p.model());
    let mut i: usize = 0;
    while i < v.len()
        invariant
            m == v@.map_values(|p: Path<'z>| p.model()),
            m.len() == v@.len(),
            i <= m.len(),
            overlap_from(m, rel.model(), 0) == overlap_from(m, rel.model(), i as int),
        decreases v.len() - i,
    {
        let relation = v[i].atom_of(rel);
        assert(m[i as int] == v@[i as int].model());
        if let Some(found) = relation.found(i) {
            return Some(found);
        }
        i = i + 1;
    }
    None
}

/// Accumulating a path into a list of non-overlapping paths keeps them
/// non-overlapping, and the first overlapping path is the only one.
proof fn lemma_add_atomic_diverging(v: Seq<Seq<AccessModel>>, p: Seq<AccessModel>)
    requires
        pairwise_diverging(v),
    ensures
        pairwise_diverging(add_atomic(v, p)),
{
    lemma_overlap_from(v, p, 0);
    let r = add_atomic(v, p);
    match overlap_from(v, p, 0) {
        None => {
            assert forall|i: int, j: int|
                0 <= i < r.len() && 0 <= j < r.len() && i != j implies !agree(
                #[trigger] r[i],
                #[trigger] r[j],
            ) by {
                if i == v.len() {
                    assert(atom(v[j], p) == Atom::Diverges);
                    assert(!agree(p, v[j]));
                } else if j == v.len() {
                    assert(atom(v[i], p) == Atom::Diverges);
                } else {
                    assert(r[i] == v[i] && r[j] == v[j]);
                }
            }
        },
        Some(k) => {
            if atom(v[k], p) == Atom::Parent {
                assert forall|i: int, j: int|
                    0 <= i < r.len() && 0 <= j < r.len() && i != j implies !agree(
                    #[trigger] r[i],
                    #[trigger] r[j],
                ) by {
                    if i == k || j == k {
                        let o = if i == k {
                            j
                        } else {
                            i
                        };
                        assert(!agree(v[o], v[k]));
                        let w = choose|w: int|
                            0 <= w < v[o].len() && 0 <= w < v[k].len() && v[o][w] != v[k][w];
                        assert(v[k][w] == p[w]);
                        assert(r[o] == v[o]);
                        assert(r[k] == p);
                        if i == k {
                            assert(r[i][w] != r[j][w]);
                        } else {
                            assert(r[i][w] != r[j][w]);
                        }
                    } else {
                        assert(r[i] == v[i] && r[j] == v[j]);
                    }
                }
            }
        },
    }
}

/// No two paths of an atomized list overlap.
pub proof fn law_atomize_diverging(ps: Seq<Seq<AccessModel>>)
    ensures
        pairwise_diverging(atomize(ps)),
    decreases ps.len(),
{
    if ps.len() > 0 {
        law_atomize_diverging(ps.drop_last());
        lemma_add_atomic_diverging(atomize(ps.drop_last()), ps.last());
    }
}

/// Every path given to [`AtomicAccess::from_non_atomic`] is kept, or is a
/// parent of a path that is kept, or is equal to one: none is lost.
pub proof fn law_atomize_covers(ps: Seq<Seq<AccessModel>>)
    ensures
        forall|j: int|
            0 <= j < ps.len() ==> exists|k: int|
                0 <= k < atomize(ps).len() && covers(#[trigger] ps[j], atomize(ps)[k]),
    decreases ps.len(),
{
    if ps.len() > 0 {
        let prev = ps.drop_last();
        let v = atomize(prev);
        let p = ps.last();
        let r = atomize(ps);
        law_atomize_covers(prev);
        lemma_overlap_from(v, p, 0);
        assert(r == add_atomic(v, p));
        assert forall|j: int| 0 <= j < ps.len() implies exists|k: int|
            0 <= k < r.len() && covers(#[trigger] ps[j], r[k]) by {
            if j == ps.len() - 1 {
                match overlap_from(v, p, 0) {
                    None => {
                        assert(r[v.len() as int] == p);
                        assert(covers(ps[j], r[v.len() as int]));
                    },
                    Some(i) => {
                        if atom(v[i], p) == Atom::Parent {
                            assert(r[i] == p);
                            assert(covers(ps[j], r[i]));
                        } else {
                            assert(r[i] == v[i]);
                            assert(covers(ps[j], r[i]));
                        }
                    },
                }
            } else {
                assert(ps[j] == prev[j]);
                let k = choose|k: int| 0 <= k < v.len() && covers(prev[j], #[trigger] v[k]);
                match overlap_from(v, p, 0) {
                    None => {
                        assert(r[k] == v[k]);
                    },
                    Some(i) => {
                        if atom(v[i], p) == Atom::Parent && i == k {
                            assert(r[k] == p);
                            assert forall|w: int|
                                0 <= w < ps[j].len() && 0 <= w < p.len() implies #[trigger] ps[j][w]
                                == p[w] by {
                                assert(ps[j][w] == v[k][w]);
                            }
                            assert(covers(ps[j], r[k]));
                        } else {
                            assert(r[k] == v[k]);
                        }
                    },
                }
            }
        }
    }
}

/// Every path of an atomized list is one of the paths it was made from.
pub proof fn law_atomize_from_inputs(ps: Seq<Seq<AccessModel>>)
    ensures
        forall|k: int|
            0 <= k < atomize(ps).len() ==> exists|j: int|
                0 <= j < ps.len() && #[trigger] atomize(ps)[k] == ps[j],
    decreases ps.len(),
{
    if ps.len() > 0 {
        let prev = ps.drop_last();
        let v = atomize(prev);
        let p = ps.last();
        let r = atomize(ps);
        law_atomize_from_inputs(prev);
        assert(r == add_atomic(v, p));
        assert forall|k: int| 0 <= k < r.len() implies exists|j: int|
            0 <= j < ps.len() && #[trigger] r[k] == ps[j] by {
            if r[k] == p {
                assert(r[k] == ps[ps.len() - 1]);
            } else {
                lemma_overlap_from(v, p, 0);
                match overlap_from(v, p, 0) {
                    None => {
                        assert(k < v.len());
                    },
                    Some(i) => {},
                }
                assert(k < v.len() && r[k] == v[k]);
                let j = choose|j: int| 0 <= j < prev.len() && #[trigger] v[k] == prev[j];
                assert(ps[j] == prev[j]);
                assert(r[k] == ps[j]);
            }
        }
    }
}

} // verus!
