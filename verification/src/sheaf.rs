//! The sheaf layer: for each tracked observable it assigns a local data
//! section (a value per point) to each open set of the topology's basis,
//! computed once from a model snapshot and cached; it derives sections over
//! other open sets from the cache, restricts sections to subsets, and glues
//! sections that agree on their overlap.
//!
//! Values are exact rationals and two values are equal when they are equal
//! representation for representation (numerator and denominator); all values
//! of one snapshot come out of the same formulas, so this equality is exact,
//! with no tolerance needed.
//!
//! The cache is append-only: a point already covered keeps its value (the
//! first cached entry containing it answers), so derived sections never
//! drift. A sheaf is a snapshot: mutating the model afterwards does not
//! change cached sections; the caller rebuilds the sheaf instead.

use vstd::prelude::*;

use crate::error::Error;
use crate::ising::{spin_val, Ising};
use crate::lattice::{copy_point, points_equal};
use crate::rational::Rational;
use crate::topology::{OpenSet, Topology};

verus! {

/// Which scalar derived quantity a section carries.
#[derive(Clone, Copy, Debug, PartialEq, Eq, Structural)]
pub enum Observable {
    Energy,
    Spin,
    Correlation,
}

/// Numerator of the exact value of an observable at a point.
pub open spec fn obs_num(m: Ising, obs: Observable, p: Seq<usize>) -> int {
    match obs {
        Observable::Energy => m.local_energy_spec(p),
        Observable::Spin => spin_val(m.spin_at(p)),
        Observable::Correlation => m.correlation_num(p),
    }
}

/// Denominator of the exact value of an observable at a point.
pub open spec fn obs_den(m: Ising, obs: Observable, p: Seq<usize>) -> int {
    match obs {
        Observable::Energy => 1,
        Observable::Spin => 1,
        Observable::Correlation => m.correlation_den(p),
    }
}

impl Observable {
    /// The exact value of the observable `obs` at `idx` against the model:
    /// the local energy, the spin value, or the spin-spin correlation.
    /// Refused when `idx` is invalid, and -- for the correlation only --
    /// when `idx` has no neighbour.
    pub fn compute(ising: &Ising, idx: &Vec<usize>, obs: Observable) -> (r: Result<
        Rational,
        Error,
    >)
        requires
            ising.wf(),
        ensures
            !ising.valid(idx@) ==> r == Err::<Rational, Error>(Error::OutOfBounds),
            ising.valid(idx@) && obs == Observable::Correlation && ising.nbr_count_of(idx@) == 0
                ==> r == Err::<Rational, Error>(Error::NoNeighbors),
            ising.valid(idx@) && (obs != Observable::Correlation || ising.nbr_count_of(idx@) >= 1)
                ==> (r matches Ok(v) && {
                &&& v.num == obs_num(*ising, obs, idx@)
                &&& v.den == obs_den(*ising, obs, idx@)
                &&& v.wf()
            }),
    {
        match obs {
            Observable::Energy => {
                match ising.local_energy(idx) {
                    Ok(e) => Ok(Rational { num: e, den: 1 }),
                    Err(e) => Err(e),
                }
            },
            Observable::Spin => {
                match ising.get_spin(idx) {
                    Ok(s) => {
                        let v: i64 = match s {
                            crate::ising::Spin::Up => 1,
                            crate::ising::Spin::Down => -1,
                        };
                        Ok(Rational::from_int(v))
                    },
                    Err(e) => Err(e),
                }
            },
            Observable::Correlation => ising.correlation(idx),
        }
    }
}

/// A mapping from lattice point to an exact value, scoped to one observable
/// and one open set: `values[i]` is the value at `domain`'s `i`-th point.
/// Invariant: the domain of the section is exactly its open set -- every
/// point of it has a value and there is no extraneous point.
#[derive(Debug)]
pub struct Section {
    pub domain: OpenSet,
    pub values: Vec<Rational>,
}

impl Section {
    /// Well-formedness: a well-formed domain, one value per point.
    pub open spec fn wf(self) -> bool {
        &&& self.domain.wf()
        &&& self.values@.len() == self.domain.key_seq().len()
    }

    /// The value at a member point of the domain.
    pub open spec fn val_at(self, q: Seq<usize>) -> Rational {
        self.values@[self.domain.key_seq().index_of(q)]
    }

    /// Looks the value of a member point up.
    pub fn value_at(&self, p: &Vec<usize>) -> (r: Rational)
        requires
            self.wf(),
            self.domain.has(p@),
        ensures
            r == self.val_at(p@),
    {
        let n = self.domain.points.len();
        let mut i: usize = 0;
        while i < n
            invariant
                self.wf(),
                self.domain.has(p@),
                self.domain.points@.len() == n,
                0 <= i <= n,
                forall|k: int| 0 <= k < i ==> self.domain.key_seq()[k] != p@,
            decreases n - i,
        {
            if points_equal(&self.domain.points[i], p) {
                proof {
                    assert(self.domain.key_seq()[i as int] == p@);
                    let k = self.domain.key_seq().index_of(p@);
                    assert(self.domain.key_seq().contains(p@));
                    assert(0 <= k < self.domain.key_seq().len() && self.domain.key_seq()[k] == p@);
                    assert(k == i as int);
                }
                return self.values[i];
            }
            i = i + 1;
        }
        proof {
            let k = choose|k: int|
                0 <= k < self.domain.key_seq().len() && self.domain.key_seq()[k] == p@;
            assert(false);
        }
        self.values[0]
    }
}

/// One cached cell of the sheaf: an open set with the three sections over
/// it, one value column per observable, aligned with the set's points.
pub struct SheafEntry {
    pub over: OpenSet,
    pub energy: Vec<Rational>,
    pub spin: Vec<Rational>,
    pub correlation: Vec<Rational>,
}

impl SheafEntry {
    /// The value column of one observable.
    pub open spec fn col(self, obs: Observable) -> Seq<Rational> {
        match obs {
            Observable::Energy => self.energy@,
            Observable::Spin => self.spin@,
            Observable::Correlation => self.correlation@,
        }
    }

    /// Well-formedness: a well-formed set, one value per point per column.
    pub open spec fn wf(self) -> bool {
        &&& self.over.wf()
        &&& self.energy@.len() == self.over.key_seq().len()
        &&& self.spin@.len() == self.over.key_seq().len()
        &&& self.correlation@.len() == self.over.key_seq().len()
    }

    /// The cached value of `obs` at the member point `q`.
    pub open spec fn value_of(self, obs: Observable, q: Seq<usize>) -> Rational {
        self.col(obs)[self.over.key_seq().index_of(q)]
    }

    /// Looks the cached value of a member point up.
    pub fn entry_value(&self, p: &Vec<usize>, obs: Observable) -> (r: Rational)
        requires
            self.wf(),
            self.over.has(p@),
        ensures
            r == self.value_of(obs, p@),
    {
        let n = self.over.points.len();
        let mut i: usize = 0;
        while i < n
            invariant
                self.wf(),
                self.over.has(p@),
                self.over.points@.len() == n,
                0 <= i <= n,
                forall|k: int| 0 <= k < i ==> self.over.key_seq()[k] != p@,
            decreases n - i,
        {
            if points_equal(&self.over.points[i], p) {
                proof {
                    assert(self.over.key_seq()[i as int] == p@);
                    let k = self.over.key_seq().index_of(p@);
                    assert(self.over.key_seq().contains(p@));
                    assert(0 <= k < self.over.key_seq().len() && self.over.key_seq()[k] == p@);
                    assert(k == i as int);
                }
                return match obs {
                    Observable::Energy => self.energy[i],
                    Observable::Spin => self.spin[i],
                    Observable::Correlation => self.correlation[i],
                };
            }
            i = i + 1;
        }
        proof {
            let k = choose|k: int|
                0 <= k < self.over.key_seq().len() && self.over.key_seq()[k] == p@;
            assert(false);
        }
        self.energy[0]
    }
}

/// Some cached entry holds the point `q`.
pub open spec fn covers(entries: Seq<SheafEntry>, q: Seq<usize>) -> bool {
    exists|e: int| 0 <= e < entries.len() && (#[trigger] entries[e]).over.has(q)
}

/// Index of the first cached entry holding `q`.
pub open spec fn first_cover(entries: Seq<SheafEntry>, q: Seq<usize>) -> int
    decreases entries.len(),
{
    if entries.len() == 0 {
        0
    } else if entries[0].over.has(q) {
        0
    } else {
        1 + first_cover(entries.drop_first(), q)
    }
}

/// The cached value of `obs` at a covered point `q`: the value the first
/// entry holding `q` stores for it.
pub open spec fn cached_value(entries: Seq<SheafEntry>, obs: Observable, q: Seq<usize>) -> Rational {
    entries[first_cover(entries, q)].value_of(obs, q)
}

/// The first entry holding `q` of an exhaustive forward scan is the first
/// cover.
pub proof fn lemma_first_cover_is(entries: Seq<SheafEntry>, q: Seq<usize>, e: int)
    requires
        0 <= e < entries.len(),
        entries[e].over.has(q),
        forall|k: int| 0 <= k < e ==> !(#[trigger] entries[k]).over.has(q),
    ensures
        first_cover(entries, q) == e,
        covers(entries, q),
    decreases e,
{
    if e == 0 {
    } else {
        assert(!entries[0].over.has(q));
        let rest = entries.drop_first();
        assert(forall|k: int| 0 <= k < e - 1 ==> #[trigger] rest[k] == entries[k + 1]);
        lemma_first_cover_is(rest, q, e - 1);
    }
}

/// A covered point's first cover is a real entry holding it, with no
/// earlier entry holding it.
pub proof fn lemma_first_cover_bounds(entries: Seq<SheafEntry>, q: Seq<usize>)
    requires
        covers(entries, q),
    ensures
        0 <= first_cover(entries, q) < entries.len(),
        entries[first_cover(entries, q)].over.has(q),
        forall|k: int| 0 <= k < first_cover(entries, q) ==> !(#[trigger] entries[k]).over.has(q),
    decreases entries.len(),
{
    if entries[0].over.has(q) {
    } else {
        let rest = entries.drop_first();
        assert(covers(rest, q)) by {
            let e = choose|e: int|
                0 <= e < entries.len() && (#[trigger] entries[e]).over.has(q);
            assert(rest[e - 1] == entries[e]);
            assert(rest[e - 1].over.has(q));
        }
        lemma_first_cover_bounds(rest, q);
        assert(forall|k: int| 0 <= k < rest.len() ==> #[trigger] rest[k] == entries[k + 1]);
        assert forall|k: int| 0 <= k < first_cover(entries, q) implies !(#[trigger] entries[k]).over.has(
            q,
        ) by {
            if k > 0 {
                assert(rest[k - 1] == entries[k]);
                assert(!rest[k - 1].over.has(q));
            }
        }
    }
}

/// Appending entries to the cache changes no covered point's value: the
/// first entry holding it stays the first.
pub proof fn lemma_cached_value_append(
    entries: Seq<SheafEntry>,
    extra: SheafEntry,
    obs: Observable,
    q: Seq<usize>,
)
    requires
        covers(entries, q),
    ensures
        covers(entries.push(extra), q),
        cached_value(entries.push(extra), obs, q) == cached_value(entries, obs, q),
    decreases entries.len(),
{
    lemma_first_cover_bounds(entries, q);
    let grown = entries.push(extra);
    let e = first_cover(entries, q);
    assert(grown[e] == entries[e]);
    assert forall|k: int| 0 <= k < e implies !(#[trigger] grown[k]).over.has(q) by {
        assert(grown[k] == entries[k]);
    }
    lemma_first_cover_is(grown, q, e);
}

/// One value per key, each the exact observable value at its key.
pub open spec fn column_matches(
    m: Ising,
    obs: Observable,
    keys: Seq<Seq<usize>>,
    col: Seq<Rational>,
) -> bool {
    &&& col.len() == keys.len()
    &&& forall|i: int|
        0 <= i < col.len() ==> {
            &&& (#[trigger] col[i]).num == obs_num(m, obs, keys[i])
            &&& col[i].den == obs_den(m, obs, keys[i])
            &&& col[i].wf()
        }
}

/// Every column of the entry holds the exact observable values of the
/// model at the entry's points.
pub open spec fn entry_matches(m: Ising, e: SheafEntry) -> bool {
    &&& column_matches(m, Observable::Energy, e.over.key_seq(), e.energy@)
    &&& column_matches(m, Observable::Spin, e.over.key_seq(), e.spin@)
    &&& column_matches(m, Observable::Correlation, e.over.key_seq(), e.correlation@)
}

/// A section assembled against a cache state: its domain mirrors `over` and
/// each value is the cached value of its point.
pub open spec fn sec_matches_cache(
    sec: Section,
    entries: Seq<SheafEntry>,
    obs: Observable,
    over: OpenSet,
) -> bool {
    &&& sec.wf()
    &&& sec.domain.key_seq() == over.key_seq()
    &&& forall|q: Seq<usize>| #[trigger]
        sec.domain.has(q) ==> sec.val_at(q) == cached_value(entries, obs, q)
}

/// The exact observable values of the model at the member points of `over`,
/// in iteration order. The model must be able to produce each of them:
/// every member valid, and (for the correlation) no point without a
/// neighbour, which a lattice of at least two points guarantees.
fn compute_column(ising: &Ising, over: &OpenSet, obs: Observable) -> (r: Vec<Rational>)
    requires
        ising.wf(),
        over.wf(),
        forall|q: Seq<usize>| #[trigger] over.has(q) ==> ising.valid(q),
        ising.lattice.count() >= 2,
    ensures
        column_matches(*ising, obs, over.key_seq(), r@),
{
    let n = over.points.len();
    let mut col: Vec<Rational> = Vec::new();
    let mut i: usize = 0;
    while i < n
        invariant
            ising.wf(),
            over.wf(),
            forall|q: Seq<usize>| #[trigger] over.has(q) ==> ising.valid(q),
            ising.lattice.count() >= 2,
            over.points@.len() == n,
            0 <= i <= n,
            col@.len() == i,
            forall|t: int|
                0 <= t < i ==> {
                    &&& (#[trigger] col@[t]).num == obs_num(*ising, obs, over.key_seq()[t])
                    &&& col@[t].den == obs_den(*ising, obs, over.key_seq()[t])
                    &&& col@[t].wf()
                },
        decreases n - i,
    {
        let p = &over.points[i];
        proof {
            assert(over.key_seq()[i as int] == p@);
            assert(over.has(p@));
            crate::ising::lemma_every_point_has_neighbor(*ising, p@);
        }
        let v = match Observable::compute(ising, p, obs) {
            Ok(v) => v,
            Err(_) => {
                proof {
                    assert(false);
                }
                Rational::from_int(0)
            },
        };
        col.push(v);
        i = i + 1;
    }
    col
}

/// A section over `open_set` for one observable, assembled from the cache:
/// for each point, the value the first cached entry holding it stores.
/// Refused when some point of `open_set` is in no cached entry.
fn assemble(entries: &Vec<SheafEntry>, open_set: &OpenSet, obs: Observable) -> (r: Result<
    Section,
    Error,
>)
    requires
        forall|e: int| 0 <= e < entries@.len() ==> (#[trigger] entries@[e]).wf(),
        open_set.wf(),
    ensures
        r matches Err(err) ==> err == Error::PointNotCovered && exists|q: Seq<usize>| #[trigger]
            open_set.has(q) && !covers(entries@, q),
        (forall|q: Seq<usize>| #[trigger] open_set.has(q) ==> covers(entries@, q)) ==> r matches Ok(
            _,
        ),
        r matches Ok(sec) ==> sec_matches_cache(sec, entries@, obs, *open_set),
{
    let dom = open_set.duplicate();
    let mut values: Vec<Rational> = Vec::new();
    let n = open_set.points.len();
    let mut i: usize = 0;
    while i < n
        invariant
            forall|e: int| 0 <= e < entries@.len() ==> (#[trigger] entries@[e]).wf(),
            open_set.wf(),
            open_set.points@.len() == n,
            0 <= i <= n,
            values@.len() == i,
            forall|t: int| 0 <= t < i ==> #[trigger] values@[t] == cached_value(
                entries@,
                obs,
                open_set.key_seq()[t],
            ),
        decreases n - i,
    {
        let p = &open_set.points[i];
        proof {
            assert(open_set.key_seq()[i as int] == p@);
            assert(open_set.has(p@));
        }
        let m = entries.len();
        let mut e: usize = 0;
        while e < m
            invariant
                entries@.len() == m,
                0 <= e <= m,
                forall|k: int| 0 <= k < e ==> !(#[trigger] entries@[k]).over.has(p@),
            ensures
                0 <= e <= m,
                forall|k: int| 0 <= k < e ==> !(#[trigger] entries@[k]).over.has(p@),
                e < m ==> entries@[e as int].over.has(p@),
            decreases m - e,
        {
            if entries[e].over.contains_point(p) {
                break;
            }
            e = e + 1;
        }
        if e == m {
            proof {
                assert(!covers(entries@, p@));
            }
            return Err(Error::PointNotCovered);
        }
        let v = entries[e].entry_value(p, obs);
        proof {
            lemma_first_cover_is(entries@, p@, e as int);
            assert(v == cached_value(entries@, obs, p@));
        }
        values.push(v);
        i = i + 1;
    }
    let sec = Section { domain: dom, values };
    proof {
        assert forall|q: Seq<usize>| #[trigger]
            sec.domain.has(q) implies sec.val_at(q) == cached_value(entries@, obs, q) by {
            let k = sec.domain.key_seq().index_of(q);
            assert(sec.domain.key_seq().contains(q));
            assert(0 <= k < sec.domain.key_seq().len() && sec.domain.key_seq()[k] == q);
            assert(values@[k] == cached_value(entries@, obs, open_set.key_seq()[k]));
        }
    }
    Ok(sec)
}

/// The sheaf: a topology together with the cached sections, one cache cell
/// per open set, holding the three observables' values over it side by side.
pub struct Sheaf {
    pub topology: Topology,
    pub sections: Vec<SheafEntry>,
}

impl Sheaf {
    /// Sheaf invariant: a well-formed topology and well-formed cache cells.
    pub open spec fn inv(self) -> bool {
        &&& self.topology.wf()
        &&& forall|e: int| 0 <= e < self.sections@.len() ==> (#[trigger] self.sections@[e]).wf()
    }

    /// Builds the sheaf of a model snapshot: for every observable and every
    /// basis open set of `topology`, the section over that set is computed
    /// from `ising` and cached. The lattice must hold at least two points,
    /// so that the correlation is defined at every point.
    pub fn new(topology: Topology, ising: &Ising) -> (r: Sheaf)
        requires
            topology.wf(),
            ising.wf(),
            topology.lattice.agrees(ising.lattice),
            ising.lattice.count() >= 2,
        ensures
            r.inv(),
            r.topology == topology,
            r.sections@.len() == topology.basis@.len(),
            forall|k: int|
                0 <= k < topology.basis@.len() ==> {
                    &&& (#[trigger] r.sections@[k]).over.key_seq() == topology.basis@[k].key_seq()
                    &&& entry_matches(*ising, r.sections@[k])
                },
    {
        let mut entries: Vec<SheafEntry> = Vec::new();
        let nb = topology.basis.len();
        let mut k: usize = 0;
        while k < nb
            invariant
                topology.wf(),
                ising.wf(),
                topology.lattice.agrees(ising.lattice),
                ising.lattice.count() >= 2,
                topology.basis@.len() == nb,
                0 <= k <= nb,
                entries@.len() == k,
                forall|kk: int|
                    0 <= kk < k ==> {
                        &&& (#[trigger] entries@[kk]).over.key_seq()
                            == topology.basis@[kk].key_seq()
                        &&& entry_matches(*ising, entries@[kk])
                        &&& entries@[kk].wf()
                    },
            decreases nb - k,
        {
            let base = &topology.basis[k];
            proof {
                assert forall|q: Seq<usize>| #[trigger] base.has(q) implies ising.valid(q) by {
                    assert(topology.basis@[k as int].has(q));
                }
            }
            let over = base.duplicate();
            let energy = compute_column(ising, base, Observable::Energy);
            let spin = compute_column(ising, base, Observable::Spin);
            let correlation = compute_column(ising, base, Observable::Correlation);
            entries.push(SheafEntry { over, energy, spin, correlation });
            k = k + 1;
        }
        Sheaf { topology, sections: entries }
    }

    /// The three sections -- energy, spin, correlation, in that order --
    /// over `open_set`, each point's value taken from the first cached
    /// entry holding it; refused when some point of `open_set` is in no
    /// cached entry. On success the result is also cached, as a new cell
    /// appended to the cache, which changes no already-covered point's value.
    pub fn get_sections(&mut self, open_set: &OpenSet) -> (r: Result<Vec<Section>, Error>)
        requires
            old(self).inv(),
            open_set.wf(),
        ensures
            r matches Err(err) ==> err == Error::PointNotCovered && (exists|q: Seq<usize>|
                #[trigger] open_set.has(q) && !covers(old(self).sections@, q)) && *final(self)
                == *old(self),
            (forall|q: Seq<usize>| #[trigger]
                open_set.has(q) ==> covers(old(self).sections@, q)) ==> r matches Ok(_),
            r matches Ok(v) ==> ({
                &&& v@.len() == 3
                &&& sec_matches_cache(v@[0], old(self).sections@, Observable::Energy, *open_set)
                &&& sec_matches_cache(v@[1], old(self).sections@, Observable::Spin, *open_set)
                &&& sec_matches_cache(
                    v@[2],
                    old(self).sections@,
                    Observable::Correlation,
                    *open_set,
                )
                &&& final(self).topology == old(self).topology
                &&& final(self).inv()
                &&& final(self).sections@.len() == old(self).sections@.len() + 1
                &&& forall|e: int|
                    0 <= e < old(self).sections@.len() ==> #[trigger] final(self).sections@[e]
                        == old(self).sections@[e]
                &&& final(self).sections@.last().over.key_seq() == open_set.key_seq()
                &&& final(self).sections@.last().energy@ == v@[0].values@
                &&& final(self).sections@.last().spin@ == v@[1].values@
                &&& final(self).sections@.last().correlation@ == v@[2].values@
                &&& forall|q: Seq<usize>| #[trigger]
                    covers(old(self).sections@, q) ==> covers(final(self).sections@, q)
                &&& forall|obs2: Observable, q: Seq<usize>|
                    covers(old(self).sections@, q) ==> #[trigger] cached_value(
                        final(self).sections@,
                        obs2,
                        q,
                    ) == cached_value(old(self).sections@, obs2, q)
            }),
    {
        let energy_sec = match assemble(&self.sections, open_set, Observable::Energy) {
            Ok(s) => s,
            Err(e) => {
                return Err(e);
            },
        };
        let spin_sec = match assemble(&self.sections, open_set, Observable::Spin) {
            Ok(s) => s,
            Err(e) => {
                return Err(e);
            },
        };
        let corr_sec = match assemble(&self.sections, open_set, Observable::Correlation) {
            Ok(s) => s,
            Err(e) => {
                return Err(e);
            },
        };
        let entry = SheafEntry {
            over: open_set.duplicate(),
            energy: copy_values(&energy_sec.values),
            spin: copy_values(&spin_sec.values),
            correlation: copy_values(&corr_sec.values),
        };
        let ghost before = self.sections@;
        self.sections.push(entry);
        proof {
            assert(self.sections@ == before.push(entry));
            assert forall|obs2: Observable, q: Seq<usize>|
                covers(before, q) implies #[trigger] cached_value(self.sections@, obs2, q)
                == cached_value(before, obs2, q) by {
                lemma_cached_value_append(before, entry, obs2, q);
            }
            assert forall|q: Seq<usize>| #[trigger] covers(before, q) implies covers(
                self.sections@,
                q,
            ) by {
                lemma_cached_value_append(before, entry, Observable::Energy, q);
            }
        }
        let mut out: Vec<Section> = Vec::new();
        out.push(energy_sec);
        out.push(spin_sec);
        out.push(corr_sec);
        Ok(out)
    }

    /// The three sections over `open_set` filtered to `smaller_set`: a pure
    /// projection, no value recomputed. Refused as `NotASubset` when some
    /// point of `smaller_set` lies outside `open_set`; refused as
    /// `PointNotCovered` as `get_sections` over `open_set` would be. On
    /// success both the sections over `open_set` and the restricted ones
    /// are cached.
    pub fn restrict_sections(&mut self, open_set: &OpenSet, smaller_set: &OpenSet) -> (r: Result<
        Vec<Section>,
        Error,
    >)
        requires
            old(self).inv(),
            open_set.wf(),
            smaller_set.wf(),
        ensures
            (exists|p: Seq<usize>| #[trigger] smaller_set.has(p) && !open_set.has(p)) ==> r
                == Err::<Vec<Section>, Error>(Error::NotASubset) && *final(self) == *old(self),
            r matches Err(err) ==> (err == Error::NotASubset || (err == Error::PointNotCovered
                && exists|q: Seq<usize>| #[trigger]
                open_set.has(q) && !covers(old(self).sections@, q))) && *final(self) == *old(
                self,
            ),
            (forall|p: Seq<usize>| #[trigger] smaller_set.has(p) ==> open_set.has(p)) && (forall|
                q: Seq<usize>,
            | #[trigger] open_set.has(q) ==> covers(old(self).sections@, q)) ==> r matches Ok(_),
            r matches Ok(v) ==> ({
                &&& v@.len() == 3
                &&& sec_matches_cache(
                    v@[0],
                    old(self).sections@,
                    Observable::Energy,
                    *smaller_set,
                )
                &&& sec_matches_cache(v@[1], old(self).sections@, Observable::Spin, *smaller_set)
                &&& sec_matches_cache(
                    v@[2],
                    old(self).sections@,
                    Observable::Correlation,
                    *smaller_set,
                )
                &&& final(self).topology == old(self).topology
                &&& final(self).inv()
                &&& final(self).sections@.len() == old(self).sections@.len() + 2
                &&& forall|e: int|
                    0 <= e < old(self).sections@.len() ==> #[trigger] final(self).sections@[e]
                        == old(self).sections@[e]
                &&& forall|q: Seq<usize>| #[trigger]
                    covers(old(self).sections@, q) ==> covers(final(self).sections@, q)
                &&& forall|obs2: Observable, q: Seq<usize>|
                    covers(old(self).sections@, q) ==> #[trigger] cached_value(
                        final(self).sections@,
                        obs2,
                        q,
                    ) == cached_value(old(self).sections@, obs2, q)
            }),
    {
        if !smaller_set.is_subset_of(open_set) {
            return Err(Error::NotASubset);
        }
        let ghost entries0 = self.sections@;
        let big = match self.get_sections(open_set) {
            Ok(v) => v,
            Err(e) => {
                return Err(e);
            },
        };
        let restricted_energy = project(&big[0], smaller_set);
        let restricted_spin = project(&big[1], smaller_set);
        let restricted_corr = project(&big[2], smaller_set);
        let entry = SheafEntry {
            over: smaller_set.duplicate(),
            energy: copy_values(&restricted_energy.values),
            spin: copy_values(&restricted_spin.values),
            correlation: copy_values(&restricted_corr.values),
        };
        let ghost mid = self.sections@;
        self.sections.push(entry);
        proof {
            assert(self.sections@ == mid.push(entry));
            assert forall|obs2: Observable, q: Seq<usize>|
                covers(entries0, q) implies #[trigger] cached_value(self.sections@, obs2, q)
                == cached_value(entries0, obs2, q) by {
                assert(covers(mid, q) && cached_value(mid, obs2, q) == cached_value(
                    entries0,
                    obs2,
                    q,
                ));
                lemma_cached_value_append(mid, entry, obs2, q);
            }
            assert forall|q: Seq<usize>| #[trigger] covers(entries0, q) implies covers(
                self.sections@,
                q,
            ) by {
                lemma_cached_value_append(mid, entry, Observable::Energy, q);
            }
            assert forall|q: Seq<usize>| #[trigger]
                restricted_energy.domain.has(q) implies restricted_energy.val_at(q)
                == cached_value(entries0, Observable::Energy, q) by {
                assert(smaller_set.has(q));
                assert(open_set.has(q));
                assert(big@[0].domain.has(q));
                assert(big@[0].val_at(q) == cached_value(entries0, Observable::Energy, q));
            }
            assert forall|q: Seq<usize>| #[trigger]
                restricted_spin.domain.has(q) implies restricted_spin.val_at(q) == cached_value(
                entries0,
                Observable::Spin,
                q,
            ) by {
                assert(smaller_set.has(q));
                assert(open_set.has(q));
                assert(big@[1].domain.has(q));
                assert(big@[1].val_at(q) == cached_value(entries0, Observable::Spin, q));
            }
            assert forall|q: Seq<usize>| #[trigger]
                restricted_corr.domain.has(q) implies restricted_corr.val_at(q) == cached_value(
                entries0,
                Observable::Correlation,
                q,
            ) by {
                assert(smaller_set.has(q));
                assert(open_set.has(q));
                assert(big@[2].domain.has(q));
                assert(big@[2].val_at(q) == cached_value(entries0, Observable::Correlation, q));
            }
        }
        let mut out: Vec<Section> = Vec::new();
        out.push(restricted_energy);
        out.push(restricted_spin);
        out.push(restricted_corr);
        Ok(out)
    }

    /// The glued section over the union of `open_sets` for one observable,
    /// from the cache. The cache answers every point of every set from its
    /// first entry holding it, so two cached sections never disagree on a
    /// shared point and the merge cannot mismatch.
    fn glue_one(&self, open_sets: &Vec<OpenSet>, obs: Observable) -> (r: Result<Section, Error>)
        requires
            self.inv(),
            forall|k: int| 0 <= k < open_sets@.len() ==> (#[trigger] open_sets@[k]).wf(),
        ensures
            (r == Err::<Section, Error>(Error::EmptyOverlap)) <==> !(exists|q: Seq<usize>|
                #[trigger] sets_common(open_sets@, q)),
            r matches Err(err) ==> (err == Error::EmptyOverlap || (err == Error::PointNotCovered
                && exists|k: int, q: Seq<usize>|
                0 <= k < open_sets@.len() && #[trigger] open_sets@[k].has(q) && !covers(
                    self.sections@,
                    q,
                ))),
            ((exists|q: Seq<usize>| #[trigger] sets_common(open_sets@, q)) && (forall|
                k: int,
                q: Seq<usize>,
            |
                0 <= k < open_sets@.len() && #[trigger] open_sets@[k].has(q) ==> covers(
                    self.sections@,
                    q,
                ))) ==> r matches Ok(_),
            r matches Ok(sec) ==> {
                &&& sec.wf()
                &&& forall|q: Seq<usize>| #[trigger]
                    sec.domain.has(q) <==> exists|k: int|
                        0 <= k < open_sets@.len() && (#[trigger] open_sets@[k]).has(q)
                &&& forall|q: Seq<usize>| #[trigger]
                    sec.domain.has(q) ==> sec.val_at(q) == cached_value(self.sections@, obs, q)
            },
    {
        let inter = self.topology.intersection(open_sets);
        if inter.len() == 0 {
            proof {
                assert forall|q: Seq<usize>| !(#[trigger] sets_common(open_sets@, q)) by {
                    if sets_common(open_sets@, q) {
                        assert(inter.has(q));
                        assert(inter.key_seq().contains(q));
                        let jj = choose|jj: int|
                            0 <= jj < inter.key_seq().len() && inter.key_seq()[jj] == q;
                        assert(false);
                    }
                }
            }
            return Err(Error::EmptyOverlap);
        }
        let ghost q0 = inter.key_seq()[0];
        proof {
            assert(inter.key_seq().contains(q0));
            assert(inter.has(q0));
            assert(sets_common(open_sets@, q0));
        }
        let n = open_sets.len();
        let mut secs: Vec<Section> = Vec::new();
        let mut k: usize = 0;
        while k < n
            invariant
                self.inv(),
                forall|kk: int| 0 <= kk < open_sets@.len() ==> (#[trigger] open_sets@[kk]).wf(),
                open_sets@.len() == n,
                sets_common(open_sets@, q0),
                0 <= k <= n,
                secs@.len() == k,
                forall|kk: int|
                    0 <= kk < k ==> sec_matches_cache(
                        #[trigger] secs@[kk],
                        self.sections@,
                        obs,
                        open_sets@[kk],
                    ),
            decreases n - k,
        {
            let s = match assemble(&self.sections, &open_sets[k], obs) {
                Ok(s) => s,
                Err(e) => {
                    proof {
                        let q = choose|q: Seq<usize>| #[trigger]
                            open_sets@[k as int].has(q) && !covers(self.sections@, q);
                        assert(open_sets@[k as int].has(q) && !covers(self.sections@, q));
                    }
                    return Err(e);
                },
            };
            secs.push(s);
            k = k + 1;
        }
        proof {
            // Every point of the total overlap is common to the assembled
            // sections, and cached sections agree wherever they share a point.
            assert(common_point(secs@, q0)) by {
                assert forall|kk: int| 0 <= kk < secs@.len() implies (#[trigger] secs@[kk]).domain.has(
                    q0,
                ) by {
                    assert(open_sets@[kk].has(q0));
                    assert(secs@[kk].domain.key_seq() == open_sets@[kk].key_seq());
                }
            }
            assert forall|q: Seq<usize>| #[trigger]
                common_point(secs@, q) implies sections_agree_at(secs@, q) by {
                assert forall|kk: int| 0 <= kk < secs@.len() implies (#[trigger] secs@[kk]).val_at(q)
                    == secs@[0].val_at(q) by {
                    assert(secs@[kk].domain.has(q) && secs@[0].domain.has(q));
                    assert(secs@[kk].val_at(q) == cached_value(self.sections@, obs, q));
                    assert(secs@[0].val_at(q) == cached_value(self.sections@, obs, q));
                }
            }
        }
        match glue_sections(&secs) {
            Ok(sec) => {
                proof {
                    assert forall|q: Seq<usize>| #[trigger] sec.domain.has(q) implies sec.val_at(q)
                        == cached_value(self.sections@, obs, q) by {
                        lemma_first_owner_bounds(secs@, q);
                        let fo = first_owner(secs@, q);
                        assert(secs@[fo].val_at(q) == cached_value(self.sections@, obs, q));
                    }
                    assert forall|q: Seq<usize>| #[trigger] sec.domain.has(q) implies (exists|
                        kk: int,
                    | 0 <= kk < open_sets@.len() && (#[trigger] open_sets@[kk]).has(q)) by {
                        let kk = choose|kk: int|
                            0 <= kk < secs@.len() && (#[trigger] secs@[kk]).domain.has(q);
                        assert(open_sets@[kk].has(q));
                    }
                    assert forall|q: Seq<usize>| (exists|kk: int|
                        0 <= kk < open_sets@.len() && (#[trigger] open_sets@[kk]).has(q)) implies
                        #[trigger] sec.domain.has(q) by {
                        let kk = choose|kk: int|
                            0 <= kk < open_sets@.len() && (#[trigger] open_sets@[kk]).has(q);
                        assert(secs@[kk].domain.has(q));
                        assert(glue_covers(secs@, q));
                    }
                }
                Ok(sec)
            },
            Err(_) => {
                proof {
                    assert(false);
                }
                Err(Error::EmptyOverlap)
            },
        }
    }

    /// The three glued sections -- energy, spin, correlation, in that order
    /// -- over the union of `open_sets`, from the cached sections. Fails
    /// with `EmptyOverlap` when the open sets have no point in common, and
    /// with `PointNotCovered` when some point of some open set is in no
    /// cached entry; a mismatch cannot arise, because every cached point has
    /// one value, which every derived section shares.
    pub fn glue(&self, open_sets: &Vec<OpenSet>) -> (r: Result<Vec<Section>, Error>)
        requires
            self.inv(),
            forall|k: int| 0 <= k < open_sets@.len() ==> (#[trigger] open_sets@[k]).wf(),
        ensures
            (r == Err::<Vec<Section>, Error>(Error::EmptyOverlap)) <==> !(exists|q: Seq<usize>|
                #[trigger] sets_common(open_sets@, q)),
            r matches Err(err) ==> (err == Error::EmptyOverlap || (err == Error::PointNotCovered
                && exists|k: int, q: Seq<usize>|
                0 <= k < open_sets@.len() && #[trigger] open_sets@[k].has(q) && !covers(
                    self.sections@,
                    q,
                ))),
            ((exists|q: Seq<usize>| #[trigger] sets_common(open_sets@, q)) && (forall|
                k: int,
                q: Seq<usize>,
            |
                0 <= k < open_sets@.len() && #[trigger] open_sets@[k].has(q) ==> covers(
                    self.sections@,
                    q,
                ))) ==> r matches Ok(_),
            r matches Ok(v) ==> ({
                &&& v@.len() == 3
                &&& glued_matches(v@[0], self.sections@, Observable::Energy, open_sets@)
                &&& glued_matches(v@[1], self.sections@, Observable::Spin, open_sets@)
                &&& glued_matches(v@[2], self.sections@, Observable::Correlation, open_sets@)
            }),
    {
        let energy = match self.glue_one(open_sets, Observable::Energy) {
            Ok(s) => s,
            Err(e) => {
                return Err(e);
            },
        };
        let spin = match self.glue_one(open_sets, Observable::Spin) {
            Ok(s) => s,
            Err(e) => {
                return Err(e);
            },
        };
        let correlation = match self.glue_one(open_sets, Observable::Correlation) {
            Ok(s) => s,
            Err(e) => {
                return Err(e);
            },
        };
        let mut out: Vec<Section> = Vec::new();
        out.push(energy);
        out.push(spin);
        out.push(correlation);
        Ok(out)
    }
}

/// A point held by every one of the open sets.
pub open spec fn sets_common(sets: Seq<OpenSet>, q: Seq<usize>) -> bool {
    sets.len() > 0 && forall|k: int| 0 <= k < sets.len() ==> (#[trigger] sets[k]).has(q)
}

/// A glued section against a cache state: its domain is the union of the
/// open sets, and each value is the cached value of its point.
pub open spec fn glued_matches(
    sec: Section,
    entries: Seq<SheafEntry>,
    obs: Observable,
    sets: Seq<OpenSet>,
) -> bool {
    &&& sec.wf()
    &&& forall|q: Seq<usize>| #[trigger]
        sec.domain.has(q) <==> exists|k: int| 0 <= k < sets.len() && (#[trigger] sets[k]).has(q)
    &&& forall|q: Seq<usize>| #[trigger]
        sec.domain.has(q) ==> sec.val_at(q) == cached_value(entries, obs, q)
}

/// Some section's domain holds the point `q`.
pub open spec fn glue_covers(ss: Seq<Section>, q: Seq<usize>) -> bool {
    exists|k: int| 0 <= k < ss.len() && (#[trigger] ss[k]).domain.has(q)
}

/// Index of the first section whose domain holds `q`.
pub open spec fn first_owner(ss: Seq<Section>, q: Seq<usize>) -> int
    decreases ss.len(),
{
    if ss.len() == 0 {
        0
    } else if ss[0].domain.has(q) {
        0
    } else {
        1 + first_owner(ss.drop_first(), q)
    }
}

/// The glued value at a covered point `q`: the value of the first section
/// holding `q`. For a point only covered by one input this is that input's
/// value unmodified; for a point of the overlap it is the shared value the
/// agreement check verified.
pub open spec fn glue_value(ss: Seq<Section>, q: Seq<usize>) -> Rational {
    ss[first_owner(ss, q)].val_at(q)
}

/// Every section's domain holds `q`.
pub open spec fn common_point(ss: Seq<Section>, q: Seq<usize>) -> bool {
    ss.len() > 0 && forall|k: int| 0 <= k < ss.len() ==> (#[trigger] ss[k]).domain.has(q)
}

/// All sections report the same value at `q`.
pub open spec fn sections_agree_at(ss: Seq<Section>, q: Seq<usize>) -> bool {
    forall|k: int| 0 <= k < ss.len() ==> (#[trigger] ss[k]).val_at(q) == ss[0].val_at(q)
}

/// The first section holding `q` of an exhaustive forward scan is the first
/// owner.
pub proof fn lemma_first_owner_is(ss: Seq<Section>, q: Seq<usize>, k: int)
    requires
        0 <= k < ss.len(),
        ss[k].domain.has(q),
        forall|t: int| 0 <= t < k ==> !(#[trigger] ss[t]).domain.has(q),
    ensures
        first_owner(ss, q) == k,
        glue_covers(ss, q),
    decreases k,
{
    if k == 0 {
    } else {
        assert(!ss[0].domain.has(q));
        let rest = ss.drop_first();
        assert(forall|t: int| 0 <= t < rest.len() ==> #[trigger] rest[t] == ss[t + 1]);
        lemma_first_owner_is(rest, q, k - 1);
    }
}

/// A covered point's first owner is a real section holding it.
pub proof fn lemma_first_owner_bounds(ss: Seq<Section>, q: Seq<usize>)
    requires
        glue_covers(ss, q),
    ensures
        0 <= first_owner(ss, q) < ss.len(),
        ss[first_owner(ss, q)].domain.has(q),
    decreases ss.len(),
{
    if ss[0].domain.has(q) {
    } else {
        let rest = ss.drop_first();
        assert(glue_covers(rest, q)) by {
            let k = choose|k: int| 0 <= k < ss.len() && (#[trigger] ss[k]).domain.has(q);
            assert(rest[k - 1] == ss[k]);
            assert(rest[k - 1].domain.has(q));
        }
        lemma_first_owner_bounds(rest, q);
        assert(ss[first_owner(ss, q)] == rest[first_owner(rest, q)]);
    }
}

/// Merges sections over overlapping open sets into one section over the
/// union of their domains, for one observable. Fails with `EmptyOverlap`
/// when the intersection of all the domains is empty; fails with
/// `OverlapMismatch`, naming an offending point, when two sections disagree
/// on a point of that intersection (values compared exactly, numerator and
/// denominator). On success, a point covered by one input keeps that input's
/// value, and a point covered by several takes the value of the first.
pub fn glue_sections(sections: &Vec<Section>) -> (r: Result<Section, Error>)
    requires
        forall|k: int| 0 <= k < sections@.len() ==> (#[trigger] sections@[k]).wf(),
    ensures
        (r == Err::<Section, Error>(Error::EmptyOverlap)) <==> !(exists|q: Seq<usize>| #[trigger]
            common_point(sections@, q)),
        r matches Err(err) ==> (err == Error::EmptyOverlap || err matches Error::OverlapMismatch(
            _,
        )),
        r matches Err(Error::OverlapMismatch(p)) ==> common_point(sections@, p@)
            && !sections_agree_at(sections@, p@),
        ((exists|q: Seq<usize>| #[trigger] common_point(sections@, q)) && (forall|q: Seq<usize>|
            #[trigger] common_point(sections@, q) ==> sections_agree_at(sections@, q))) <==> (
        r matches Ok(_)),
        r matches Ok(sec) ==> {
            &&& sec.wf()
            &&& forall|q: Seq<usize>| #[trigger] sec.domain.has(q) <==> glue_covers(sections@, q)
            &&& forall|q: Seq<usize>| #[trigger]
                sec.domain.has(q) ==> sec.val_at(q) == glue_value(sections@, q)
        },
{
    let n = sections.len();
    if n == 0 {
        return Err(Error::EmptyOverlap);
    }
    let m = sections[0].domain.points.len();
    let mut found_common = false;
    let mut j: usize = 0;
    while j < m
        invariant
            forall|k: int| 0 <= k < sections@.len() ==> (#[trigger] sections@[k]).wf(),
            sections@.len() == n,
            n >= 1,
            sections@[0].domain.points@.len() == m,
            0 <= j <= m,
            found_common == (exists|jj: int|
                0 <= jj < j && #[trigger] common_point(
                    sections@,
                    sections@[0].domain.key_seq()[jj],
                )),
            forall|jj: int|
                0 <= jj < j && #[trigger] common_point(sections@, sections@[0].domain.key_seq()[jj])
                    ==> sections_agree_at(sections@, sections@[0].domain.key_seq()[jj]),
        decreases m - j,
    {
        let p = &sections[0].domain.points[j];
        proof {
            assert(sections@[0].domain.key_seq()[j as int] == p@);
            assert(sections@[0].domain.has(p@));
        }
        let mut everywhere = true;
        let mut k: usize = 0;
        while k < n
            invariant_except_break
                everywhere == (forall|kk: int|
                    0 <= kk < k ==> (#[trigger] sections@[kk]).domain.has(p@)),
            invariant
                sections@.len() == n,
                0 <= k <= n,
            ensures
                everywhere == (forall|kk: int|
                    0 <= kk < n ==> (#[trigger] sections@[kk]).domain.has(p@)),
            decreases n - k,
        {
            if !sections[k].domain.contains_point(p) {
                everywhere = false;
                proof {
                    assert(!sections@[k as int].domain.has(p@));
                }
                break;
            }
            k = k + 1;
        }
        if everywhere {
            let v0 = sections[0].value_at(p);
            let mut k2: usize = 1;
            while k2 < n
                invariant
                    forall|k: int| 0 <= k < sections@.len() ==> (#[trigger] sections@[k]).wf(),
                    sections@.len() == n,
                    common_point(sections@, p@),
                    sections@[0].domain.has(p@),
                    v0 == sections@[0].val_at(p@),
                    1 <= k2 <= n,
                    forall|kk: int|
                        0 <= kk < k2 ==> (#[trigger] sections@[kk]).val_at(p@) == sections@[0].val_at(
                            p@,
                        ),
                decreases n - k2,
            {
                let vk = sections[k2].value_at(p);
                if vk.num != v0.num || vk.den != v0.den {
                    proof {
                        assert(sections@[k2 as int].val_at(p@) != sections@[0].val_at(p@));
                        assert(!sections_agree_at(sections@, p@));
                    }
                    return Err(Error::OverlapMismatch(copy_point(p)));
                }
                k2 = k2 + 1;
            }
            found_common = true;
            proof {
                assert(sections_agree_at(sections@, p@));
                assert(common_point(sections@, sections@[0].domain.key_seq()[j as int]));
            }
        } else {
            proof {
                assert(!common_point(sections@, p@));
                assert forall|jj: int|
                    0 <= jj < j + 1 && #[trigger] common_point(
                        sections@,
                        sections@[0].domain.key_seq()[jj],
                    ) implies sections_agree_at(
                    sections@,
                    sections@[0].domain.key_seq()[jj],
                ) by {}
            }
        }
        j = j + 1;
    }
    if !found_common {
        proof {
            assert forall|q: Seq<usize>| !(#[trigger] common_point(sections@, q)) by {
                if common_point(sections@, q) {
                    assert(sections@[0].domain.has(q));
                    let jj = choose|jj: int|
                        0 <= jj < sections@[0].domain.key_seq().len()
                            && sections@[0].domain.key_seq()[jj] == q;
                    assert(common_point(sections@, sections@[0].domain.key_seq()[jj]));
                }
            }
        }
        return Err(Error::EmptyOverlap);
    }
    proof {
        assert forall|q: Seq<usize>| #[trigger]
            common_point(sections@, q) implies sections_agree_at(sections@, q) by {
            assert(sections@[0].domain.has(q));
            let jj = choose|jj: int|
                0 <= jj < sections@[0].domain.key_seq().len() && sections@[0].domain.key_seq()[jj]
                    == q;
            assert(common_point(sections@, sections@[0].domain.key_seq()[jj]));
        }
    }
    let mut dom = OpenSet::new();
    let mut values: Vec<Rational> = Vec::new();
    let mut k: usize = 0;
    while k < n
        invariant
            forall|kk: int| 0 <= kk < sections@.len() ==> (#[trigger] sections@[kk]).wf(),
            sections@.len() == n,
            0 <= k <= n,
            dom.wf(),
            values@.len() == dom.key_seq().len(),
            forall|q: Seq<usize>| #[trigger]
                dom.has(q) <==> exists|kk: int|
                    0 <= kk < k && (#[trigger] sections@[kk]).domain.has(q),
            forall|i: int| 0 <= i < values@.len() ==> #[trigger] values@[i] == glue_value(
                sections@,
                dom.key_seq()[i],
            ),
        decreases n - k,
    {
        let mj = sections[k].domain.points.len();
        let mut j2: usize = 0;
        while j2 < mj
            invariant
                forall|kk: int| 0 <= kk < sections@.len() ==> (#[trigger] sections@[kk]).wf(),
                sections@.len() == n,
                0 <= k < n,
                sections@[k as int].domain.points@.len() == mj,
                0 <= j2 <= mj,
                dom.wf(),
                values@.len() == dom.key_seq().len(),
                forall|q: Seq<usize>| #[trigger]
                    dom.has(q) <==> (exists|kk: int|
                        0 <= kk < k && (#[trigger] sections@[kk]).domain.has(q)) || (exists|jj: int|
                        0 <= jj < j2 && #[trigger] sections@[k as int].domain.key_seq()[jj] == q),
                forall|i: int| 0 <= i < values@.len() ==> #[trigger] values@[i] == glue_value(
                    sections@,
                    dom.key_seq()[i],
                ),
            decreases mj - j2,
        {
            let p = &sections[k].domain.points[j2];
            proof {
                assert(sections@[k as int].domain.key_seq()[j2 as int] == p@);
                assert(sections@[k as int].domain.has(p@));
            }
            if !dom.contains_point(p) {
                let ghost prev_keys = dom.key_seq();
                dom.insert_copy(p);
                proof {
                    assert(dom.key_seq() == prev_keys.push(p@));
                    // `p` lies in no earlier section and nowhere earlier in
                    // this one, so this section is its first owner.
                    assert forall|t: int| 0 <= t < k implies !(#[trigger] sections@[t]).domain.has(
                        p@,
                    ) by {}
                    lemma_first_owner_is(sections@, p@, k as int);
                    let ks = sections@[k as int].domain.key_seq();
                    let idx = ks.index_of(p@);
                    assert(ks.contains(p@));
                    assert(0 <= idx < ks.len() && ks[idx] == p@);
                    assert(idx == j2 as int);
                    assert(sections@[k as int].val_at(p@) == sections@[k as int].values@[j2 as int]);
                }
                let v = sections[k].values[j2];
                values.push(v);
                proof {
                    assert forall|i: int| 0 <= i < values@.len() implies #[trigger] values@[i]
                        == glue_value(sections@, dom.key_seq()[i]) by {
                        if i < values@.len() - 1 {
                            assert(dom.key_seq()[i] == prev_keys[i]);
                        } else {
                            assert(dom.key_seq()[i] == p@);
                        }
                    }
                    assert forall|q: Seq<usize>| #[trigger] dom.has(q) implies ((exists|kk: int|
                        0 <= kk < k && (#[trigger] sections@[kk]).domain.has(q)) || (exists|jj: int|
                        0 <= jj < j2 + 1 && #[trigger] sections@[k as int].domain.key_seq()[jj]
                            == q)) by {
                        if q == p@ {
                            assert(sections@[k as int].domain.key_seq()[j2 as int] == q);
                        }
                    }
                }
            } else {
                proof {
                    assert forall|q: Seq<usize>| #[trigger] dom.has(q) implies ((exists|kk: int|
                        0 <= kk < k && (#[trigger] sections@[kk]).domain.has(q)) || (exists|jj: int|
                        0 <= jj < j2 + 1 && #[trigger] sections@[k as int].domain.key_seq()[jj]
                            == q)) by {}
                }
            }
            j2 = j2 + 1;
        }
        proof {
            assert forall|q: Seq<usize>| #[trigger] dom.has(q) implies (exists|kk: int|
                0 <= kk < k + 1 && (#[trigger] sections@[kk]).domain.has(q)) by {
                if exists|jj: int|
                    0 <= jj < mj && #[trigger] sections@[k as int].domain.key_seq()[jj] == q {
                    assert(sections@[k as int].domain.has(q));
                }
            }
            assert forall|q: Seq<usize>| (exists|kk: int|
                0 <= kk < k + 1 && (#[trigger] sections@[kk]).domain.has(q)) implies #[trigger] dom.has(
                q,
            ) by {
                let kk = choose|kk: int|
                    0 <= kk < k + 1 && (#[trigger] sections@[kk]).domain.has(q);
                if kk == k {
                    let jj = choose|jj: int|
                        0 <= jj < sections@[kk].domain.key_seq().len()
                            && sections@[kk].domain.key_seq()[jj] == q;
                    assert(sections@[k as int].domain.key_seq()[jj] == q);
                }
            }
        }
        k = k + 1;
    }
    let sec = Section { domain: dom, values };
    proof {
        assert forall|q: Seq<usize>| #[trigger] sec.domain.has(q) implies sec.val_at(q)
            == glue_value(sections@, q) by {
            let i = sec.domain.key_seq().index_of(q);
            assert(sec.domain.key_seq().contains(q));
            assert(0 <= i < sec.domain.key_seq().len() && sec.domain.key_seq()[i] == q);
            assert(sec.values@[i] == glue_value(sections@, sec.domain.key_seq()[i]));
        }
    }
    Ok(sec)
}

/// The gluing law, commutativity: gluing two sections that agree on every
/// shared point gives the same section whichever order they are given in --
/// the same covered points, and the same value at each.
pub proof fn lemma_glue_commutative(a: Section, b: Section, ab: Seq<Section>, ba: Seq<Section>)
    requires
        a.wf(),
        b.wf(),
        ab == seq![a, b],
        ba == seq![b, a],
        forall|q: Seq<usize>|
            #![trigger a.domain.has(q), b.domain.has(q)]
            a.domain.has(q) && b.domain.has(q) ==> a.val_at(q) == b.val_at(q),
    ensures
        forall|q: Seq<usize>| #[trigger] glue_covers(ab, q) <==> glue_covers(ba, q),
        forall|q: Seq<usize>| #[trigger]
            glue_covers(ab, q) ==> glue_value(ab, q) == glue_value(ba, q),
{
    assert(ab.drop_first() =~= seq![b]);
    assert(ba.drop_first() =~= seq![a]);
    assert forall|q: Seq<usize>| #[trigger]
        glue_covers(ab, q) implies glue_covers(ba, q) by {
        let k = choose|k: int| 0 <= k < ab.len() && (#[trigger] ab[k]).domain.has(q);
        if k == 0 {
            assert(ba[1].domain.has(q));
        } else {
            assert(ba[0].domain.has(q));
        }
    }
    assert forall|q: Seq<usize>| glue_covers(ba, q) implies #[trigger] glue_covers(ab, q) by {
        let k = choose|k: int| 0 <= k < ba.len() && (#[trigger] ba[k]).domain.has(q);
        if k == 0 {
            assert(ab[1].domain.has(q));
        } else {
            assert(ab[0].domain.has(q));
        }
    }
    assert forall|q: Seq<usize>| glue_covers(ab, q) implies #[trigger] glue_value(ab, q)
        == glue_value(ba, q) by {
        if a.domain.has(q) && b.domain.has(q) {
            assert(first_owner(ab, q) == 0 && first_owner(ba, q) == 0);
            assert(glue_value(ab, q) == a.val_at(q) && glue_value(ba, q) == b.val_at(q));
        } else if a.domain.has(q) {
            assert(first_owner(ab, q) == 0);
            assert(first_owner(ba, q) == 1 + first_owner(seq![a], q));
            assert(first_owner(seq![a], q) == 0);
            assert(glue_value(ab, q) == a.val_at(q) && glue_value(ba, q) == a.val_at(q));
        } else {
            assert(b.domain.has(q));
            assert(first_owner(ba, q) == 0);
            assert(first_owner(ab, q) == 1 + first_owner(seq![b], q));
            assert(first_owner(seq![b], q) == 0);
            assert(glue_value(ab, q) == b.val_at(q) && glue_value(ba, q) == b.val_at(q));
        }
    }
}

/// The gluing law, associativity over pairwise application: if `ab` is the
/// glue of `{a, b}` -- it covers what `a` and `b` cover and holds the glued
/// value at each point -- then gluing `{ab, c}` covers the same points as
/// gluing `{a, b, c}` at once, and holds the same value at each of them.
/// (With mutually agreeing sections the agreement checks of both routes
/// pass, so whenever their overlaps are nonempty both glues succeed and
/// their results are this same section.)
pub proof fn lemma_glue_associative(
    a: Section,
    b: Section,
    c: Section,
    ab: Section,
    two: Seq<Section>,
    three: Seq<Section>,
    paired: Seq<Section>,
)
    requires
        a.wf(),
        b.wf(),
        c.wf(),
        ab.wf(),
        two == seq![a, b],
        three == seq![a, b, c],
        paired == seq![ab, c],
        forall|q: Seq<usize>| #[trigger] ab.domain.has(q) <==> glue_covers(two, q),
        forall|q: Seq<usize>| #[trigger] ab.domain.has(q) ==> ab.val_at(q) == glue_value(two, q),
    ensures
        forall|q: Seq<usize>| #[trigger] glue_covers(paired, q) <==> glue_covers(three, q),
        forall|q: Seq<usize>| #[trigger]
            glue_covers(paired, q) ==> glue_value(paired, q) == glue_value(three, q),
{
    assert(paired.drop_first() =~= seq![c]);
    assert(three.drop_first() =~= seq![b, c]);
    assert(seq![b, c].drop_first() =~= seq![c]);
    assert(two.drop_first() =~= seq![b]);
    assert forall|q: Seq<usize>| #[trigger]
        glue_covers(paired, q) implies glue_covers(three, q) by {
        let k = choose|k: int| 0 <= k < paired.len() && (#[trigger] paired[k]).domain.has(q);
        if k == 0 {
            let t = choose|t: int| 0 <= t < two.len() && (#[trigger] two[t]).domain.has(q);
            assert(three[t].domain.has(q));
        } else {
            assert(three[2].domain.has(q));
        }
    }
    assert forall|q: Seq<usize>| glue_covers(three, q) implies #[trigger] glue_covers(
        paired,
        q,
    ) by {
        let k = choose|k: int| 0 <= k < three.len() && (#[trigger] three[k]).domain.has(q);
        if k == 2 {
            assert(paired[1].domain.has(q));
        } else if k == 1 {
            assert(two[1].domain.has(q));
            assert(glue_covers(two, q));
            assert(paired[0].domain.has(q));
        } else {
            assert(two[0].domain.has(q));
            assert(glue_covers(two, q));
            assert(paired[0].domain.has(q));
        }
    }
    assert forall|q: Seq<usize>| glue_covers(paired, q) implies #[trigger] glue_value(paired, q)
        == glue_value(three, q) by {
        if ab.domain.has(q) {
            assert(first_owner(paired, q) == 0);
            assert(glue_value(paired, q) == ab.val_at(q));
            if a.domain.has(q) {
                assert(first_owner(two, q) == 0 && first_owner(three, q) == 0);
                assert(glue_value(two, q) == a.val_at(q) && glue_value(three, q) == a.val_at(q));
            } else {
                assert(glue_covers(two, q));
                let t = choose|t: int| 0 <= t < two.len() && (#[trigger] two[t]).domain.has(q);
                assert(t == 1 && b.domain.has(q));
                assert(first_owner(two, q) == 1 + first_owner(seq![b], q));
                assert(first_owner(seq![b], q) == 0);
                assert(first_owner(three, q) == 1 + first_owner(seq![b, c], q));
                assert(first_owner(seq![b, c], q) == 0);
                assert(glue_value(two, q) == b.val_at(q) && glue_value(three, q) == b.val_at(q));
            }
        } else {
            assert(paired[1].domain.has(q));
            assert(c.domain.has(q));
            assert(!glue_covers(two, q));
            assert(!a.domain.has(q)) by {
                if a.domain.has(q) {
                    assert(two[0].domain.has(q));
                }
            }
            assert(!b.domain.has(q)) by {
                if b.domain.has(q) {
                    assert(two[1].domain.has(q));
                }
            }
            assert(first_owner(paired, q) == 1 + first_owner(seq![c], q));
            assert(first_owner(seq![c], q) == 0);
            assert(glue_value(paired, q) == c.val_at(q));
            assert(first_owner(three, q) == 1 + first_owner(seq![b, c], q));
            assert(first_owner(seq![b, c], q) == 1 + first_owner(seq![c], q));
            assert(glue_value(three, q) == c.val_at(q));
        }
    }
}

/// A copy of a value column.
fn copy_values(v: &Vec<Rational>) -> (r: Vec<Rational>)
    ensures
        r@ == v@,
{
    let mut r: Vec<Rational> = Vec::new();
    let n = v.len();
    let mut i: usize = 0;
    while i < n
        invariant
            v@.len() == n,
            0 <= i <= n,
            r@ =~= v@.take(i as int),
        decreases n - i,
    {
        r.push(v[i]);
        proof {
            assert(r@ =~= v@.take(i + 1));
        }
        i = i + 1;
    }
    proof {
        assert(v@.take(n as int) =~= v@);
    }
    r
}

/// The section filtered to the points of `target`, a subset of its domain:
/// a pure projection of domain and values.
fn project(sec: &Section, target: &OpenSet) -> (r: Section)
    requires
        sec.wf(),
        target.wf(),
        forall|p: Seq<usize>| #[trigger] target.has(p) ==> sec.domain.has(p),
    ensures
        r.wf(),
        r.domain.key_seq() == target.key_seq(),
        forall|q: Seq<usize>| #[trigger] r.domain.has(q) ==> r.val_at(q) == sec.val_at(q),
{
    let dom = target.duplicate();
    let mut values: Vec<Rational> = Vec::new();
    let n = target.points.len();
    let mut i: usize = 0;
    while i < n
        invariant
            sec.wf(),
            target.wf(),
            forall|p: Seq<usize>| #[trigger] target.has(p) ==> sec.domain.has(p),
            target.points@.len() == n,
            0 <= i <= n,
            values@.len() == i,
            forall|t: int| 0 <= t < i ==> #[trigger] values@[t] == sec.val_at(
                target.key_seq()[t],
            ),
        decreases n - i,
    {
        let p = &target.points[i];
        proof {
            assert(target.key_seq()[i as int] == p@);
            assert(target.has(p@));
        }
        let v = sec.value_at(p);
        values.push(v);
        i = i + 1;
    }
    let r = Section { domain: dom, values };
    proof {
        assert forall|q: Seq<usize>| #[trigger] r.domain.has(q) implies r.val_at(q) == sec.val_at(
            q,
        ) by {
            let k = r.domain.key_seq().index_of(q);
            assert(r.domain.key_seq().contains(q));
            assert(0 <= k < r.domain.key_seq().len() && r.domain.key_seq()[k] == q);
            assert(values@[k] == sec.val_at(target.key_seq()[k]));
        }
    }
    r
}

} // verus!
