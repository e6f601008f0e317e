//! A basis-generated topology over the lattice. An `OpenSet` is a finite set
//! of lattice points; a `Topology` owns a basis of such sets, always holding
//! at least the empty set and the full lattice, and derives unions,
//! intersections, neighbourhoods and closures from it. The openness test is
//! a refinement-compatibility test against the chosen basis (each basis
//! element either contained in or disjoint from the candidate), which is a
//! sound openness test only when the basis is a partition-refining family of
//! the candidate set; it is not general topological openness.

use vstd::prelude::*;

use crate::ising::{Ising, Spin};
use crate::lattice::{
    index_of, point_at, valid_point, views_of, copy_point, points_equal, lemma_index_of_bounds,
    lemma_point_at_index_of, lemma_index_of_point_at, lemma_point_at_injective, Lattice,
};

verus! {

/// A finite set of lattice points. Semantically a set: the vector below
/// holds each member exactly once, in insertion order, which is the one
/// stable order used for iteration.
#[derive(Debug)]
pub struct OpenSet {
    pub points: Vec<Vec<usize>>,
}

impl OpenSet {
    /// The members, as mathematical sequences, in iteration order.
    pub open spec fn key_seq(self) -> Seq<Seq<usize>> {
        views_of(self.points@)
    }

    /// Set membership.
    pub open spec fn has(self, q: Seq<usize>) -> bool {
        self.key_seq().contains(q)
    }

    /// The members as a mathematical set.
    pub open spec fn as_set(self) -> Set<Seq<usize>> {
        Set::new(|q: Seq<usize>| self.has(q))
    }

    /// Well-formedness: no member is listed twice.
    pub open spec fn wf(self) -> bool {
        forall|i: int, j: int|
            0 <= i < j < self.key_seq().len() ==> self.key_seq()[i] != self.key_seq()[j]
    }

    /// Two open sets with the same members.
    pub open spec fn set_eq(self, other: OpenSet) -> bool {
        forall|q: Seq<usize>| #[trigger] self.has(q) <==> #[trigger] other.has(q)
    }

    /// The empty set.
    pub fn new() -> (r: OpenSet)
        ensures
            r.key_seq().len() == 0,
            r.wf(),
            forall|q: Seq<usize>| !(#[trigger] r.has(q)),
    {
        OpenSet { points: Vec::new() }
    }

    /// Number of members.
    pub fn len(&self) -> (r: usize)
        ensures
            r == self.key_seq().len(),
    {
        self.points.len()
    }

    /// The `i`-th member in iteration order.
    pub fn get(&self, i: usize) -> (r: &Vec<usize>)
        requires
            i < self.key_seq().len(),
        ensures
            r@ == self.key_seq()[i as int],
    {
        &self.points[i]
    }

    /// Decides membership.
    pub fn contains_point(&self, p: &Vec<usize>) -> (r: bool)
        ensures
            r == self.has(p@),
    {
        let n = self.points.len();
        let mut i: usize = 0;
        while i < n
            invariant
                self.points@.len() == n,
                0 <= i <= n,
                forall|k: int| 0 <= k < i ==> self.key_seq()[k] != p@,
            decreases n - i,
        {
            if points_equal(&self.points[i], p) {
                proof {
                    assert(self.key_seq()[i as int] == p@);
                }
                return true;
            }
            i = i + 1;
        }
        proof {
            assert(forall|k: int| 0 <= k < self.key_seq().len() ==> self.key_seq()[k] != p@);
        }
        false
    }

    /// Adds a point unless it is already a member.
    pub fn insert_copy(&mut self, p: &Vec<usize>)
        requires
            old(self).wf(),
        ensures
            final(self).wf(),
            final(self).key_seq() == if old(self).has(p@) {
                old(self).key_seq()
            } else {
                old(self).key_seq().push(p@)
            },
            forall|q: Seq<usize>| #[trigger] final(self).has(q) <==> old(self).has(q) || q == p@,
    {
        let already = self.contains_point(p);
        if !already {
            let ghost before = self.key_seq();
            self.points.push(copy_point(p));
            proof {
                assert(self.key_seq() =~= before.push(p@));
                assert(forall|q: Seq<usize>| #[trigger]
                    self.key_seq().contains(q) <==> before.contains(q) || q == p@) by {
                    assert forall|q: Seq<usize>| #[trigger]
                        self.key_seq().contains(q) implies before.contains(q) || q == p@ by {
                        let k = choose|k: int|
                            0 <= k < self.key_seq().len() && self.key_seq()[k] == q;
                        if k < before.len() {
                            assert(before[k] == q);
                        }
                    }
                    assert forall|q: Seq<usize>|
                        before.contains(q) || q == p@ implies #[trigger]
                        self.key_seq().contains(q) by {
                        if before.contains(q) {
                            let k = choose|k: int| 0 <= k < before.len() && before[k] == q;
                            assert(self.key_seq()[k] == q);
                        } else {
                            assert(self.key_seq()[before.len() as int] == p@);
                        }
                    }
                }
            }
        } else {
            proof {
                assert(forall|q: Seq<usize>| #[trigger]
                    self.has(q) <==> old(self).has(q) || q == p@);
            }
        }
    }

    /// A copy of this open set.
    pub fn duplicate(&self) -> (r: OpenSet)
        ensures
            r.key_seq() == self.key_seq(),
    {
        let mut points: Vec<Vec<usize>> = Vec::new();
        let n = self.points.len();
        let mut i: usize = 0;
        while i < n
            invariant
                self.points@.len() == n,
                0 <= i <= n,
                points@.len() == i,
                views_of(points@) =~= self.key_seq().take(i as int),
            decreases n - i,
        {
            let ghost prev = points@;
            let c = copy_point(&self.points[i]);
            points.push(c);
            proof {
                assert(points@ == prev.push(c));
                assert forall|kk: int| 0 <= kk < i + 1 implies views_of(points@)[kk]
                    == self.key_seq().take(i + 1)[kk] by {
                    if kk < i {
                        assert(views_of(prev)[kk] == self.key_seq()[kk]);
                        assert(points@[kk] == prev[kk]);
                    } else {
                        assert(points@[kk] == c);
                    }
                }
                assert(views_of(points@) =~= self.key_seq().take(i + 1));
            }
            i = i + 1;
        }
        let r = OpenSet { points };
        proof {
            assert(r.key_seq() =~= self.key_seq());
        }
        r
    }

    /// Decides whether every member of `self` is a member of `other`.
    pub fn is_subset_of(&self, other: &OpenSet) -> (r: bool)
        ensures
            r == (forall|q: Seq<usize>| #[trigger] self.has(q) ==> other.has(q)),
    {
        let n = self.points.len();
        let mut i: usize = 0;
        while i < n
            invariant
                self.points@.len() == n,
                0 <= i <= n,
                forall|k: int| 0 <= k < i ==> other.has(#[trigger] self.key_seq()[k]),
            decreases n - i,
        {
            if !other.contains_point(&self.points[i]) {
                proof {
                    assert(self.has(self.key_seq()[i as int]));
                }
                return false;
            }
            i = i + 1;
        }
        proof {
            assert forall|q: Seq<usize>| #[trigger] self.has(q) implies other.has(q) by {
                let k = choose|k: int| 0 <= k < self.key_seq().len() && self.key_seq()[k] == q;
                assert(other.has(self.key_seq()[k]));
            }
        }
        true
    }

    /// Decides whether `self` and `other` have no member in common.
    pub fn is_disjoint_from(&self, other: &OpenSet) -> (r: bool)
        ensures
            r == (forall|q: Seq<usize>| #[trigger] self.has(q) ==> !other.has(q)),
    {
        let n = self.points.len();
        let mut i: usize = 0;
        while i < n
            invariant
                self.points@.len() == n,
                0 <= i <= n,
                forall|k: int| 0 <= k < i ==> !other.has(#[trigger] self.key_seq()[k]),
            decreases n - i,
        {
            if other.contains_point(&self.points[i]) {
                proof {
                    assert(self.has(self.key_seq()[i as int]));
                }
                return false;
            }
            i = i + 1;
        }
        proof {
            assert forall|q: Seq<usize>| #[trigger] self.has(q) implies !other.has(q) by {
                let k = choose|k: int| 0 <= k < self.key_seq().len() && self.key_seq()[k] == q;
                assert(!other.has(self.key_seq()[k]));
            }
        }
        true
    }

    /// Decides whether `self` and `other` hold the same members.
    pub fn same_set(&self, other: &OpenSet) -> (r: bool)
        ensures
            r == self.set_eq(*other),
    {
        let fwd = self.is_subset_of(other);
        let bwd = other.is_subset_of(self);
        fwd && bwd
    }
}

/// Every member of `s` lies in `m`.
pub open spec fn elem_within(s: OpenSet, m: Set<Seq<usize>>) -> bool {
    forall|q: Seq<usize>| #[trigger] s.has(q) ==> m.contains(q)
}

/// No member of `s` lies in `m`.
pub open spec fn elem_avoids(s: OpenSet, m: Set<Seq<usize>>) -> bool {
    forall|q: Seq<usize>| #[trigger] s.has(q) ==> !m.contains(q)
}

/// A topology over a lattice: a basis of open sets, holding at minimum the
/// empty set and the full lattice set, and append-only thereafter.
pub struct Topology {
    pub lattice: Lattice,
    pub basis: Vec<OpenSet>,
}

impl Topology {
    /// Well-formedness: a well-formed lattice, each basis element a
    /// well-formed set of valid lattice points.
    pub open spec fn wf(self) -> bool {
        &&& self.lattice.wf()
        &&& forall|k: int| 0 <= k < self.basis@.len() ==> (#[trigger] self.basis@[k]).wf()
        &&& forall|k: int, q: Seq<usize>|
            0 <= k < self.basis@.len() && #[trigger] self.basis@[k].has(q) ==> valid_point(
                self.lattice.size@,
                q,
            )
    }

    /// Openness against the basis, of an arbitrary membership predicate:
    /// every basis element is either fully contained in the candidate or
    /// fully disjoint from it.
    pub open spec fn is_open_view(self, m: Set<Seq<usize>>) -> bool {
        forall|k: int|
            0 <= k < self.basis@.len() ==> #[trigger] elem_within(self.basis@[k], m)
                || elem_avoids(self.basis@[k], m)
    }

    /// The set of all valid points of `lat`.
    pub open spec fn full_set(lat: Lattice) -> Set<Seq<usize>> {
        Set::new(|q: Seq<usize>| valid_point(lat.size@, q))
    }

    /// A topology whose basis holds the empty set and the full lattice set.
    pub fn new(lattice: Lattice) -> (r: Topology)
        requires
            lattice.wf(),
        ensures
            r.wf(),
            r.lattice == lattice,
            r.basis@.len() == 2,
            forall|q: Seq<usize>| !(#[trigger] r.basis@[0].has(q)),
            forall|q: Seq<usize>| #[trigger] r.basis@[1].has(q) <==> valid_point(lattice.size@, q),
    {
        let empty = OpenSet::new();
        let full = OpenSet { points: lattice.all_points() };
        proof {
            assert forall|i: int, j: int|
                0 <= i < j < full.key_seq().len() implies full.key_seq()[i]
                != full.key_seq()[j] by {
                lemma_point_at_injective(lattice.size@, i, j);
            }
            assert forall|q: Seq<usize>| #[trigger]
                full.has(q) implies valid_point(lattice.size@, q) by {
                let k = choose|k: int| 0 <= k < full.key_seq().len() && full.key_seq()[k] == q;
                lemma_index_of_point_at(lattice.size@, k);
            }
            assert forall|q: Seq<usize>| valid_point(lattice.size@, q) implies #[trigger]
                full.has(q) by {
                lemma_index_of_bounds(lattice.size@, q);
                lemma_point_at_index_of(lattice.size@, q);
                assert(full.key_seq()[index_of(lattice.size@, q)] == q);
            }
        }
        let mut basis: Vec<OpenSet> = Vec::new();
        basis.push(empty);
        basis.push(full);
        Topology { lattice, basis }
    }

    /// Appends a candidate open set to the basis. The caller supplies points
    /// of the owning lattice; that obligation is the precondition here.
    pub fn add_basis(&mut self, set: OpenSet)
        requires
            old(self).wf(),
            set.wf(),
            forall|q: Seq<usize>| #[trigger] set.has(q) ==> valid_point(old(self).lattice.size@, q),
        ensures
            final(self).wf(),
            final(self).lattice == old(self).lattice,
            final(self).basis@.len() == old(self).basis@.len() + 1,
            forall|k: int|
                0 <= k < old(self).basis@.len() ==> #[trigger] final(self).basis@[k]
                    == old(self).basis@[k],
            final(self).basis@.last() == set,
    {
        self.basis.push(set);
    }

    /// The union of the given open sets.
    pub fn union(&self, sets: &Vec<OpenSet>) -> (r: OpenSet)
        ensures
            r.wf(),
            forall|q: Seq<usize>| #[trigger]
                r.has(q) <==> exists|k: int| 0 <= k < sets@.len() && #[trigger] sets@[k].has(q),
    {
        let mut r = OpenSet::new();
        let n = sets.len();
        let mut k: usize = 0;
        while k < n
            invariant
                sets@.len() == n,
                0 <= k <= n,
                r.wf(),
                forall|q: Seq<usize>| #[trigger]
                    r.has(q) <==> exists|kk: int| 0 <= kk < k && #[trigger] sets@[kk].has(q),
            decreases n - k,
        {
            let m = sets[k].points.len();
            let mut j: usize = 0;
            while j < m
                invariant
                    sets@.len() == n,
                    0 <= k < n,
                    sets@[k as int].points@.len() == m,
                    0 <= j <= m,
                    r.wf(),
                    forall|q: Seq<usize>| #[trigger]
                        r.has(q) <==> (exists|kk: int| 0 <= kk < k && #[trigger] sets@[kk].has(q))
                            || (exists|jj: int|
                            0 <= jj < j && #[trigger] sets@[k as int].key_seq()[jj] == q),
                decreases m - j,
            {
                r.insert_copy(&sets[k].points[j]);
                proof {
                    let q0 = sets@[k as int].key_seq()[j as int];
                    assert forall|q: Seq<usize>| #[trigger] r.has(q) implies (exists|kk: int|
                        0 <= kk < k && #[trigger] sets@[kk].has(q)) || (exists|jj: int|
                        0 <= jj < j + 1 && #[trigger] sets@[k as int].key_seq()[jj] == q) by {
                        if q == q0 {
                            assert(sets@[k as int].key_seq()[j as int] == q);
                        }
                    }
                }
                j = j + 1;
            }
            proof {
                assert forall|q: Seq<usize>| #[trigger] r.has(q) implies (exists|kk: int|
                    0 <= kk < k + 1 && #[trigger] sets@[kk].has(q)) by {
                    if exists|jj: int| 0 <= jj < m && #[trigger] sets@[k as int].key_seq()[jj]
                        == q {
                        assert(sets@[k as int].has(q));
                    }
                }
                assert forall|q: Seq<usize>| (exists|kk: int|
                    0 <= kk < k + 1 && #[trigger] sets@[kk].has(q)) implies #[trigger] r.has(
                    q,
                ) by {
                    let kk = choose|kk: int| 0 <= kk < k + 1 && #[trigger] sets@[kk].has(q);
                    if kk == k {
                        let jj = choose|jj: int|
                            0 <= jj < sets@[kk].key_seq().len() && sets@[kk].key_seq()[jj] == q;
                        assert(sets@[k as int].key_seq()[jj] == q);
                    }
                }
            }
            k = k + 1;
        }
        r
    }

    /// The intersection of the given open sets; the intersection of no sets
    /// is the empty set by convention.
    pub fn intersection(&self, sets: &Vec<OpenSet>) -> (r: OpenSet)
        ensures
            r.wf(),
            forall|q: Seq<usize>| #[trigger]
                r.has(q) <==> (sets@.len() > 0 && forall|k: int|
                    0 <= k < sets@.len() ==> #[trigger] sets@[k].has(q)),
    {
        let mut r = OpenSet::new();
        if sets.len() == 0 {
            return r;
        }
        let m = sets[0].points.len();
        let mut j: usize = 0;
        while j < m
            invariant
                sets@.len() > 0,
                sets@[0].points@.len() == m,
                0 <= j <= m,
                r.wf(),
                forall|q: Seq<usize>| #[trigger]
                    r.has(q) <==> ((exists|jj: int|
                        0 <= jj < j && #[trigger] sets@[0].key_seq()[jj] == q) && forall|k: int|
                        0 <= k < sets@.len() ==> #[trigger] sets@[k].has(q)),
            decreases m - j,
        {
            let p = &sets[0].points[j];
            let mut everywhere = true;
            let n = sets.len();
            let mut k: usize = 0;
            while k < n
                invariant_except_break
                    everywhere == (forall|kk: int| 0 <= kk < k ==> #[trigger] sets@[kk].has(p@)),
                invariant
                    sets@.len() == n,
                    0 <= k <= n,
                ensures
                    everywhere == (forall|kk: int| 0 <= kk < n ==> #[trigger] sets@[kk].has(p@)),
                decreases n - k,
            {
                if !sets[k].contains_point(p) {
                    everywhere = false;
                    proof {
                        assert(!sets@[k as int].has(p@));
                    }
                    break;
                }
                k = k + 1;
            }
            if everywhere {
                r.insert_copy(p);
            }
            proof {
                assert forall|q: Seq<usize>| #[trigger] r.has(q) implies ((exists|jj: int|
                    0 <= jj < j + 1 && #[trigger] sets@[0].key_seq()[jj] == q) && forall|k: int|
                    0 <= k < sets@.len() ==> #[trigger] sets@[k].has(q)) by {
                    if q == p@ {
                        assert(sets@[0].key_seq()[j as int] == q);
                    }
                }
            }
            j = j + 1;
        }
        proof {
            assert forall|q: Seq<usize>| (sets@.len() > 0 && forall|k: int|
                0 <= k < sets@.len() ==> #[trigger] sets@[k].has(q)) implies #[trigger] r.has(
                q,
            ) by {
                assert(sets@[0].has(q));
                let jj = choose|jj: int|
                    0 <= jj < sets@[0].key_seq().len() && sets@[0].key_seq()[jj] == q;
                assert(sets@[0].key_seq()[jj] == q);
            }
        }
        r
    }

    /// The refinement-compatibility openness test against the basis.
    pub fn is_open(&self, set: &OpenSet) -> (r: bool)
        ensures
            r == self.is_open_view(set.as_set()),
    {
        let n = self.basis.len();
        let mut k: usize = 0;
        while k < n
            invariant
                self.basis@.len() == n,
                0 <= k <= n,
                forall|kk: int|
                    0 <= kk < k ==> #[trigger] elem_within(self.basis@[kk], set.as_set())
                        || elem_avoids(self.basis@[kk], set.as_set()),
            decreases n - k,
        {
            let sub = self.basis[k].is_subset_of(set);
            let dis = self.basis[k].is_disjoint_from(set);
            if !sub && !dis {
                proof {
                    let kk = k as int;
                    let q1 = choose|q: Seq<usize>| #[trigger]
                        self.basis@[kk].has(q) && !set.has(q);
                    assert(self.basis@[kk].has(q1) && !set.as_set().contains(q1));
                    assert(!elem_within(self.basis@[kk], set.as_set()));
                    let q2 = choose|q: Seq<usize>| #[trigger]
                        self.basis@[kk].has(q) && set.has(q);
                    assert(self.basis@[kk].has(q2) && set.as_set().contains(q2));
                    assert(!elem_avoids(self.basis@[kk], set.as_set()));
                }
                return false;
            }
            proof {
                if sub {
                    assert(elem_within(self.basis@[k as int], set.as_set()));
                } else {
                    assert(elem_avoids(self.basis@[k as int], set.as_set()));
                }
            }
            k = k + 1;
        }
        true
    }

    /// Whether `set` is closed: its complement within the lattice is open.
    pub fn is_closed(&self, set: &OpenSet) -> (r: bool)
        requires
            self.wf(),
        ensures
            r == self.is_open_view(
                Set::new(
                    |q: Seq<usize>| valid_point(self.lattice.size@, q) && !set.has(q),
                ),
            ),
    {
        let pts = self.lattice.all_points();
        let mut comp = OpenSet::new();
        let n = pts.len();
        let mut i: usize = 0;
        while i < n
            invariant
                self.lattice.wf(),
                pts@.len() == n,
                n == self.lattice.count(),
                forall|t: int| 0 <= t < n ==> #[trigger] pts@[t]@ == point_at(
                    self.lattice.size@,
                    t,
                ),
                0 <= i <= n,
                comp.wf(),
                forall|q: Seq<usize>| #[trigger]
                    comp.has(q) <==> ((exists|t: int|
                        0 <= t < i && #[trigger] point_at(self.lattice.size@, t) == q) && !set.has(
                        q,
                    )),
            decreases n - i,
        {
            if !set.contains_point(&pts[i]) {
                comp.insert_copy(&pts[i]);
            }
            proof {
                assert(pts@[i as int]@ == point_at(self.lattice.size@, i as int));
                assert forall|q: Seq<usize>| #[trigger] comp.has(q) implies ((exists|t: int|
                    0 <= t < i + 1 && #[trigger] point_at(self.lattice.size@, t) == q)
                    && !set.has(q)) by {
                    if q == pts@[i as int]@ {
                        assert(point_at(self.lattice.size@, i as int) == q);
                    }
                }
            }
            i = i + 1;
        }
        proof {
            assert(comp.as_set() =~= Set::new(
                |q: Seq<usize>| valid_point(self.lattice.size@, q) && !set.has(q),
            )) by {
                assert forall|q: Seq<usize>| #[trigger]
                    comp.has(q) implies valid_point(self.lattice.size@, q) && !set.has(q) by {
                    let t = choose|t: int|
                        0 <= t < n && #[trigger] point_at(self.lattice.size@, t) == q;
                    lemma_index_of_point_at(self.lattice.size@, t);
                }
                assert forall|q: Seq<usize>|
                    valid_point(self.lattice.size@, q) && !set.has(q) implies #[trigger] comp.has(
                    q,
                ) by {
                    lemma_index_of_bounds(self.lattice.size@, q);
                    lemma_point_at_index_of(self.lattice.size@, q);
                    assert(point_at(self.lattice.size@, index_of(self.lattice.size@, q)) == q);
                }
            }
        }
        self.is_open(&comp)
    }

    /// The union of every basis element containing `point`.
    pub fn get_open_neighborhood(&self, point: &Vec<usize>) -> (r: OpenSet)
        ensures
            r.wf(),
            forall|q: Seq<usize>| #[trigger]
                r.has(q) <==> exists|k: int|
                    0 <= k < self.basis@.len() && #[trigger] self.basis@[k].has(point@)
                        && self.basis@[k].has(q),
    {
        let mut r = OpenSet::new();
        let n = self.basis.len();
        let mut k: usize = 0;
        while k < n
            invariant
                self.basis@.len() == n,
                0 <= k <= n,
                r.wf(),
                forall|q: Seq<usize>| #[trigger]
                    r.has(q) <==> exists|kk: int|
                        0 <= kk < k && #[trigger] self.basis@[kk].has(point@)
                            && self.basis@[kk].has(q),
            decreases n - k,
        {
            if self.basis[k].contains_point(point) {
                let m = self.basis[k].points.len();
                let mut j: usize = 0;
                while j < m
                    invariant
                        self.basis@.len() == n,
                        0 <= k < n,
                        self.basis@[k as int].points@.len() == m,
                        self.basis@[k as int].has(point@),
                        0 <= j <= m,
                        r.wf(),
                        forall|q: Seq<usize>| #[trigger]
                            r.has(q) <==> (exists|kk: int|
                                0 <= kk < k && #[trigger] self.basis@[kk].has(point@)
                                    && self.basis@[kk].has(q)) || (exists|jj: int|
                                0 <= jj < j && #[trigger] self.basis@[k as int].key_seq()[jj]
                                    == q),
                    decreases m - j,
                {
                    r.insert_copy(&self.basis[k].points[j]);
                    proof {
                        let q0 = self.basis@[k as int].key_seq()[j as int];
                        assert forall|q: Seq<usize>| #[trigger] r.has(q) implies (exists|kk: int|
                            0 <= kk < k && #[trigger] self.basis@[kk].has(point@)
                                && self.basis@[kk].has(q)) || (exists|jj: int|
                            0 <= jj < j + 1 && #[trigger] self.basis@[k as int].key_seq()[jj]
                                == q) by {
                            if q == q0 {
                                assert(self.basis@[k as int].key_seq()[j as int] == q);
                            }
                        }
                    }
                    j = j + 1;
                }
                proof {
                    assert forall|q: Seq<usize>| #[trigger] r.has(q) implies (exists|kk: int|
                        0 <= kk < k + 1 && #[trigger] self.basis@[kk].has(point@)
                            && self.basis@[kk].has(q)) by {
                        if exists|jj: int|
                            0 <= jj < m && #[trigger] self.basis@[k as int].key_seq()[jj] == q {
                            assert(self.basis@[k as int].has(q));
                        }
                    }
                    assert forall|q: Seq<usize>| (exists|kk: int|
                        0 <= kk < k + 1 && #[trigger] self.basis@[kk].has(point@)
                            && self.basis@[kk].has(q)) implies #[trigger] r.has(q) by {
                        let kk = choose|kk: int|
                            0 <= kk < k + 1 && #[trigger] self.basis@[kk].has(point@)
                                && self.basis@[kk].has(q);
                        if kk == k {
                            let jj = choose|jj: int|
                                0 <= jj < self.basis@[kk].key_seq().len()
                                    && self.basis@[kk].key_seq()[jj] == q;
                            assert(self.basis@[k as int].key_seq()[jj] == q);
                        }
                    }
                }
            } else {
                proof {
                    assert forall|q: Seq<usize>| #[trigger] r.has(q) implies (exists|kk: int|
                        0 <= kk < k + 1 && #[trigger] self.basis@[kk].has(point@)
                            && self.basis@[kk].has(q)) by {}
                    assert forall|q: Seq<usize>| (exists|kk: int|
                        0 <= kk < k + 1 && #[trigger] self.basis@[kk].has(point@)
                            && self.basis@[kk].has(q)) implies #[trigger] r.has(q) by {
                        let kk = choose|kk: int|
                            0 <= kk < k + 1 && #[trigger] self.basis@[kk].has(point@)
                                && self.basis@[kk].has(q);
                        assert(kk != k);
                    }
                }
            }
            k = k + 1;
        }
        r
    }

    /// Whether the open neighbourhood of `q` intersects `set`: some basis
    /// element holds both `q` and a member of `set`.
    pub open spec fn nbhd_touches(self, set: OpenSet, q: Seq<usize>) -> bool {
        exists|k: int, w: Seq<usize>|
            #![trigger self.basis@[k].has(q), self.basis@[k].has(w)]
            0 <= k < self.basis@.len() && self.basis@[k].has(q) && self.basis@[k].has(w)
                && set.has(w)
    }

    /// Every lattice point whose open neighbourhood intersects `set`.
    pub fn closure(&self, set: &OpenSet) -> (r: OpenSet)
        requires
            self.wf(),
        ensures
            r.wf(),
            forall|q: Seq<usize>| #[trigger]
                r.has(q) <==> (valid_point(self.lattice.size@, q) && self.nbhd_touches(*set, q)),
    {
        let pts = self.lattice.all_points();
        let mut r = OpenSet::new();
        let n = pts.len();
        let mut i: usize = 0;
        while i < n
            invariant
                self.wf(),
                pts@.len() == n,
                n == self.lattice.count(),
                forall|t: int| 0 <= t < n ==> #[trigger] pts@[t]@ == point_at(
                    self.lattice.size@,
                    t,
                ),
                0 <= i <= n,
                r.wf(),
                forall|q: Seq<usize>| #[trigger]
                    r.has(q) <==> ((exists|t: int|
                        0 <= t < i && #[trigger] point_at(self.lattice.size@, t) == q)
                        && self.nbhd_touches(*set, q)),
            decreases n - i,
        {
            let nb = self.get_open_neighborhood(&pts[i]);
            let touches = !nb.is_disjoint_from(set);
            proof {
                assert(pts@[i as int]@ == point_at(self.lattice.size@, i as int));
            }
            if touches {
                proof {
                    let w = choose|w: Seq<usize>| #[trigger] nb.has(w) && set.has(w);
                    let k = choose|k: int|
                        0 <= k < self.basis@.len() && #[trigger] self.basis@[k].has(pts@[i as int]@)
                            && self.basis@[k].has(w);
                    assert(self.basis@[k].has(pts@[i as int]@) && self.basis@[k].has(w)
                        && set.has(w));
                    assert(self.nbhd_touches(*set, pts@[i as int]@));
                }
                r.insert_copy(&pts[i]);
            }
            proof {
                assert forall|q: Seq<usize>| #[trigger] r.has(q) implies ((exists|t: int|
                    0 <= t < i + 1 && #[trigger] point_at(self.lattice.size@, t) == q)
                    && self.nbhd_touches(*set, q)) by {
                    if q == pts@[i as int]@ {
                        assert(point_at(self.lattice.size@, i as int) == q);
                    }
                }
                assert forall|q: Seq<usize>| ((exists|t: int|
                    0 <= t < i + 1 && #[trigger] point_at(self.lattice.size@, t) == q)
                    && self.nbhd_touches(*set, q)) implies #[trigger] r.has(q) by {
                    let t = choose|t: int|
                        0 <= t < i + 1 && #[trigger] point_at(self.lattice.size@, t) == q;
                    if t == i {
                        let (k, w): (int, Seq<usize>) = choose|k: int, w: Seq<usize>|
                            #![trigger self.basis@[k].has(q), self.basis@[k].has(w)]
                            0 <= k < self.basis@.len() && self.basis@[k].has(q)
                                && self.basis@[k].has(w) && set.has(w);
                        assert(self.basis@[k].has(pts@[i as int]@) && self.basis@[k].has(w));
                        assert(nb.has(w));
                        assert(set.has(w));
                        assert(touches);
                    }
                }
            }
            i = i + 1;
        }
        proof {
            assert forall|q: Seq<usize>| #[trigger] r.has(q) implies valid_point(
                self.lattice.size@,
                q,
            ) by {
                let t = choose|t: int|
                    0 <= t < n && #[trigger] point_at(self.lattice.size@, t) == q;
                lemma_index_of_point_at(self.lattice.size@, t);
            }
            assert forall|q: Seq<usize>|
                valid_point(self.lattice.size@, q) implies (exists|t: int|
                0 <= t < n && #[trigger] point_at(self.lattice.size@, t) == q) by {
                lemma_index_of_bounds(self.lattice.size@, q);
                lemma_point_at_index_of(self.lattice.size@, q);
                assert(point_at(self.lattice.size@, index_of(self.lattice.size@, q)) == q);
            }
        }
        r
    }
    /// The set of all lattice points currently holding the given spin.
    pub fn open_set_from_spins(&self, ising: &Ising, spin: Spin) -> (r: OpenSet)
        requires
            ising.wf(),
        ensures
            r.wf(),
            forall|q: Seq<usize>| #[trigger]
                r.has(q) <==> (valid_point(ising.lattice.size@, q) && ising.spin_at(q) == spin),
    {
        let pts = ising.lattice.all_points();
        let mut r = OpenSet::new();
        let n = pts.len();
        let mut i: usize = 0;
        while i < n
            invariant
                ising.wf(),
                pts@.len() == n,
                n == ising.lattice.count(),
                forall|t: int| 0 <= t < n ==> #[trigger] pts@[t]@ == point_at(
                    ising.lattice.size@,
                    t,
                ),
                0 <= i <= n,
                r.wf(),
                forall|q: Seq<usize>| #[trigger]
                    r.has(q) <==> ((exists|t: int|
                        0 <= t < i && #[trigger] point_at(ising.lattice.size@, t) == q)
                        && valid_point(ising.lattice.size@, q) && ising.spin_at(q) == spin),
            decreases n - i,
        {
            proof {
                lemma_index_of_point_at(ising.lattice.size@, i as int);
            }
            let keep = match ising.get_spin(&pts[i]) {
                Ok(s) => s == spin,
                Err(_) => false,
            };
            if keep {
                r.insert_copy(&pts[i]);
            }
            proof {
                assert(pts@[i as int]@ == point_at(ising.lattice.size@, i as int));
                assert forall|q: Seq<usize>| #[trigger] r.has(q) implies ((exists|t: int|
                    0 <= t < i + 1 && #[trigger] point_at(ising.lattice.size@, t) == q)
                    && valid_point(ising.lattice.size@, q) && ising.spin_at(q) == spin) by {
                    if q == pts@[i as int]@ {
                        assert(point_at(ising.lattice.size@, i as int) == q);
                    }
                }
            }
            i = i + 1;
        }
        proof {
            assert forall|q: Seq<usize>|
                valid_point(ising.lattice.size@, q) && ising.spin_at(q) == spin implies #[trigger]
                r.has(q) by {
                lemma_index_of_bounds(ising.lattice.size@, q);
                lemma_point_at_index_of(ising.lattice.size@, q);
                assert(point_at(ising.lattice.size@, index_of(ising.lattice.size@, q)) == q);
            }
        }
        r
    }
}

/// The empty set and the full lattice set are open in every well-formed
/// topology, by construction of the openness test: each basis element is
/// disjoint from the empty set, and contained in the full set because a
/// basis holds only valid lattice points.
pub proof fn lemma_trivial_sets_open(t: Topology)
    requires
        t.wf(),
    ensures
        t.is_open_view(Set::<Seq<usize>>::empty()),
        t.is_open_view(Topology::full_set(t.lattice)),
{
    assert forall|k: int| 0 <= k < t.basis@.len() implies #[trigger] elem_within(
        t.basis@[k],
        Set::<Seq<usize>>::empty(),
    ) || elem_avoids(t.basis@[k], Set::<Seq<usize>>::empty()) by {
        assert(elem_avoids(t.basis@[k], Set::<Seq<usize>>::empty()));
    }
    assert forall|k: int| 0 <= k < t.basis@.len() implies #[trigger] elem_within(
        t.basis@[k],
        Topology::full_set(t.lattice),
    ) || elem_avoids(t.basis@[k], Topology::full_set(t.lattice)) by {
        assert(elem_within(t.basis@[k], Topology::full_set(t.lattice)));
    }
}

} // verus!
