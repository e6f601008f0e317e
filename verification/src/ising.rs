//! The Ising engine: a spin assignment over every lattice point plus the
//! physical parameters (coupling `J`, applied field `h`, temperature `T`),
//! with exact energy and observable computation and the single-site
//! Metropolis update.
//!
//! Spins map to the integers +1 / -1 and `J` and `h` are integers, so every
//! energy is an exact integer and magnetization and correlation are exact
//! rationals. The spin assignment is one vector indexed by the row-major
//! point index, holding exactly one spin per valid lattice point for the
//! model's whole lifetime.
//!
//! The Metropolis acceptance draw `r <= exp(-dE / (k_B T))` is the one piece
//! that needs floating point and randomness; the caller performs it and
//! hands the verdict to `metropolis_stepper` as a plain boolean, which
//! applies the textbook rule: a flip with `dE <= 0` is always kept, an
//! unfavorable flip is kept exactly when the verdict says so.

use vstd::prelude::*;
use vstd::pervasive::VecAdditionalExecFns;

use crate::error::Error;
use crate::lattice::{
    adjacent, count_of, index_of, point_at, valid_point, views_of, copy_point, is_adjacent,
    lemma_index_of_bounds, lemma_point_at_index_of, lemma_index_of_point_at,
    lemma_count_of_positive, Lattice, MAX_POINTS,
};
use crate::rational::Rational;
use crate::topology::{OpenSet, Topology};

use rand::Rng;

verus! {

/// A spin: one of the two permitted values.
#[derive(Clone, Copy, Debug, PartialEq, Eq, Structural)]
pub enum Spin {
    Up,
    Down,
}

/// The numeric value of a spin: +1 for `Up`, -1 for `Down`.
pub open spec fn spin_val(s: Spin) -> int {
    match s {
        Spin::Up => 1,
        Spin::Down => -1,
    }
}

/// The opposite spin.
pub open spec fn flip_of(s: Spin) -> Spin {
    match s {
        Spin::Up => Spin::Down,
        Spin::Down => Spin::Up,
    }
}

/// Sum of the numeric values of the first `i` spins.
pub open spec fn spin_sum(spins: Seq<Spin>, i: int) -> int
    decreases i,
{
    if i <= 0 {
        0
    } else {
        spin_sum(spins, i - 1) + spin_val(spins[i - 1])
    }
}

/// Number of lattice points among the first `i` (in row-major order) that
/// are adjacent to `p`.
pub open spec fn nbr_count(extent: Seq<usize>, p: Seq<usize>, i: int) -> int
    decreases i,
{
    if i <= 0 {
        0
    } else {
        nbr_count(extent, p, i - 1) + if adjacent(point_at(extent, i - 1), p) {
            1int
        } else {
            0int
        }
    }
}

/// Sum of the spin values of the neighbours of `p` among the first `i`
/// lattice points.
pub open spec fn nbr_field(extent: Seq<usize>, spins: Seq<Spin>, p: Seq<usize>, i: int) -> int
    decreases i,
{
    if i <= 0 {
        0
    } else {
        nbr_field(extent, spins, p, i - 1) + if adjacent(point_at(extent, i - 1), p) {
            spin_val(spins[i - 1])
        } else {
            0int
        }
    }
}

/// Spin-spin alignment of `p` with its neighbours among the first `i`
/// lattice points: the sum of `s(p) * s(q)` over adjacent `q`.
pub open spec fn nbr_corr(extent: Seq<usize>, spins: Seq<Spin>, p: Seq<usize>, i: int) -> int {
    spin_val(spins[index_of(extent, p)]) * nbr_field(extent, spins, p, i)
}

pub proof fn lemma_nbr_count_bounds(extent: Seq<usize>, p: Seq<usize>, i: int)
    requires
        0 <= i,
    ensures
        0 <= nbr_count(extent, p, i) <= i,
    decreases i,
{
    if i > 0 {
        lemma_nbr_count_bounds(extent, p, i - 1);
    }
}

pub proof fn lemma_nbr_field_bounds(extent: Seq<usize>, spins: Seq<Spin>, p: Seq<usize>, i: int)
    requires
        0 <= i,
    ensures
        -nbr_count(extent, p, i) <= nbr_field(extent, spins, p, i) <= nbr_count(extent, p, i),
        -i <= nbr_field(extent, spins, p, i) <= i,
    decreases i,
{
    if i > 0 {
        lemma_nbr_field_bounds(extent, spins, p, i - 1);
        lemma_nbr_count_bounds(extent, p, i - 1);
    }
}

/// Updating the spin at `p` itself does not change the field of its
/// neighbours: `p` is never its own neighbour.
pub proof fn lemma_nbr_field_update(
    extent: Seq<usize>,
    spins: Seq<Spin>,
    p: Seq<usize>,
    s2: Spin,
    i: int,
)
    requires
        crate::lattice::extents_positive(extent),
        valid_point(extent, p),
        spins.len() == count_of(extent),
        0 <= i <= count_of(extent),
    ensures
        nbr_field(extent, spins.update(index_of(extent, p), s2), p, i) == nbr_field(
            extent,
            spins,
            p,
            i,
        ),
    decreases i,
{
    lemma_index_of_bounds(extent, p);
    if i > 0 {
        lemma_nbr_field_update(extent, spins, p, s2, i - 1);
        let ip = index_of(extent, p);
        if adjacent(point_at(extent, i - 1), p) {
            if i - 1 == ip {
                lemma_point_at_index_of(extent, p);
                crate::lattice::lemma_adjacent_not_equal(point_at(extent, i - 1), p);
                assert(false);
            }
            assert(spins.update(ip, s2)[i - 1] == spins[i - 1]);
        }
    }
}

/// The bond energy contribution of the ordered pair of lattice points `a`,
/// `b` (by row-major index): `s(a) * s(b)` when they are adjacent, else zero.
pub open spec fn pair_bond(extent: Seq<usize>, spins: Seq<Spin>, a: int, b: int) -> int {
    if adjacent(point_at(extent, a), point_at(extent, b)) {
        spin_val(spins[a]) * spin_val(spins[b])
    } else {
        0
    }
}

/// Sum of `pair_bond(a, b)` over `b < j`.
pub open spec fn row_bond(extent: Seq<usize>, spins: Seq<Spin>, a: int, j: int) -> int
    decreases j,
{
    if j <= 0 {
        0
    } else {
        row_bond(extent, spins, a, j - 1) + pair_bond(extent, spins, a, j - 1)
    }
}

/// Sum of `s(a) * s(b)` over every unordered adjacent pair `{a, b}` of the
/// first `i` lattice points, each pair counted exactly once (as `b < a`).
pub open spec fn bond_sum(extent: Seq<usize>, spins: Seq<Spin>, i: int) -> int
    decreases i,
{
    if i <= 0 {
        0
    } else {
        bond_sum(extent, spins, i - 1) + row_bond(extent, spins, i - 1, i - 1)
    }
}

pub proof fn lemma_pair_bond_bounds(extent: Seq<usize>, spins: Seq<Spin>, a: int, b: int)
    ensures
        -1 <= pair_bond(extent, spins, a, b) <= 1,
{
    if adjacent(point_at(extent, a), point_at(extent, b)) {
        if spins[a] == Spin::Up {
            assert(spin_val(spins[a]) == 1);
        } else {
            assert(spin_val(spins[a]) == -1);
        }
        if spins[b] == Spin::Up {
            assert(spin_val(spins[b]) == 1);
        } else {
            assert(spin_val(spins[b]) == -1);
        }
    }
}

pub proof fn lemma_row_bond_bounds(extent: Seq<usize>, spins: Seq<Spin>, a: int, j: int)
    requires
        0 <= j,
    ensures
        -j <= row_bond(extent, spins, a, j) <= j,
    decreases j,
{
    if j > 0 {
        lemma_row_bond_bounds(extent, spins, a, j - 1);
        lemma_pair_bond_bounds(extent, spins, a, j - 1);
    }
}

pub proof fn lemma_bond_sum_bounds(extent: Seq<usize>, spins: Seq<Spin>, i: int)
    requires
        0 <= i,
    ensures
        -(i * i) <= bond_sum(extent, spins, i) <= i * i,
    decreases i,
{
    if i > 0 {
        lemma_bond_sum_bounds(extent, spins, i - 1);
        lemma_row_bond_bounds(extent, spins, i - 1, i - 1);
        assert((i - 1) * (i - 1) + (i - 1) <= i * i && -(i * i) <= -((i - 1) * (i - 1)) - (i - 1))
            by (nonlinear_arith)
            requires
                i >= 1,
        ;
    }
}

/// Sum of `pair_bond(a, j)` over `a < i`: one column of the bond matrix.
pub open spec fn col_bond(extent: Seq<usize>, spins: Seq<Spin>, j: int, i: int) -> int
    decreases i,
{
    if i <= 0 {
        0
    } else {
        col_bond(extent, spins, j, i - 1) + pair_bond(extent, spins, i - 1, j)
    }
}

/// Sum of the full-width rows `row_bond(a, w)` over `a < i`.
pub open spec fn rows_to(extent: Seq<usize>, spins: Seq<Spin>, i: int, w: int) -> int
    decreases i,
{
    if i <= 0 {
        0
    } else {
        rows_to(extent, spins, i - 1, w) + row_bond(extent, spins, i - 1, w)
    }
}

/// Sum over the first `i` lattice points of their whole-lattice spin-spin
/// alignment `nbr_corr`.
pub open spec fn corr_sum(extent: Seq<usize>, spins: Seq<Spin>, i: int) -> int
    decreases i,
{
    if i <= 0 {
        0
    } else {
        corr_sum(extent, spins, i - 1) + nbr_corr(
            extent,
            spins,
            point_at(extent, i - 1),
            count_of(extent) as int,
        )
    }
}

pub proof fn lemma_pair_bond_symmetric(extent: Seq<usize>, spins: Seq<Spin>, a: int, b: int)
    ensures
        pair_bond(extent, spins, a, b) == pair_bond(extent, spins, b, a),
{
    crate::lattice::lemma_adjacent_symmetric(point_at(extent, a), point_at(extent, b));
    assert(spin_val(spins[a]) * spin_val(spins[b]) == spin_val(spins[b]) * spin_val(spins[a]))
        by (nonlinear_arith);
}

/// A point is never bonded to itself: it is not its own neighbour.
pub proof fn lemma_pair_bond_self(extent: Seq<usize>, spins: Seq<Spin>, a: int)
    ensures
        pair_bond(extent, spins, a, a) == 0,
{
    crate::lattice::lemma_l1_self_is_zero(point_at(extent, a));
}

/// The bond matrix is symmetric: a column equals the matching row.
pub proof fn lemma_col_eq_row(extent: Seq<usize>, spins: Seq<Spin>, j: int, i: int)
    requires
        0 <= i,
    ensures
        col_bond(extent, spins, j, i) == row_bond(extent, spins, j, i),
    decreases i,
{
    if i > 0 {
        lemma_col_eq_row(extent, spins, j, i - 1);
        lemma_pair_bond_symmetric(extent, spins, i - 1, j);
    }
}

/// Widening every row by one column adds that column's sum.
pub proof fn lemma_rows_to_width(extent: Seq<usize>, spins: Seq<Spin>, i: int, w: int)
    requires
        0 <= i,
        1 <= w,
    ensures
        rows_to(extent, spins, i, w) == rows_to(extent, spins, i, w - 1) + col_bond(
            extent,
            spins,
            w - 1,
            i,
        ),
    decreases i,
{
    if i > 0 {
        lemma_rows_to_width(extent, spins, i - 1, w);
    }
}

/// Summing full rows of the symmetric, zero-diagonal bond matrix over a
/// square counts every unordered pair twice.
pub proof fn lemma_square_double(extent: Seq<usize>, spins: Seq<Spin>, k: int)
    requires
        0 <= k,
    ensures
        rows_to(extent, spins, k, k) == 2 * bond_sum(extent, spins, k),
    decreases k,
{
    if k > 0 {
        lemma_square_double(extent, spins, k - 1);
        lemma_rows_to_width(extent, spins, k - 1, k);
        lemma_col_eq_row(extent, spins, k - 1, k - 1);
        lemma_pair_bond_self(extent, spins, k - 1);
        assert(row_bond(extent, spins, k - 1, k) == row_bond(extent, spins, k - 1, k - 1)
            + pair_bond(extent, spins, k - 1, k - 1));
    }
}

/// The whole-lattice alignment of the `a`-th point, seen from that point,
/// equals the `a`-th row of the bond matrix.
pub proof fn lemma_nbr_corr_eq_row(extent: Seq<usize>, spins: Seq<Spin>, a: int, j: int)
    requires
        crate::lattice::extents_positive(extent),
        0 <= a < count_of(extent),
        0 <= j,
    ensures
        nbr_corr(extent, spins, point_at(extent, a), j) == row_bond(extent, spins, a, j),
    decreases j,
{
    lemma_index_of_point_at(extent, a);
    let p = point_at(extent, a);
    let sv = spin_val(spins[a]);
    if j <= 0 {
        assert(sv * nbr_field(extent, spins, p, j) == 0) by (nonlinear_arith)
            requires
                nbr_field(extent, spins, p, j) == 0,
        ;
    } else {
        lemma_nbr_corr_eq_row(extent, spins, a, j - 1);
        crate::lattice::lemma_adjacent_symmetric(point_at(extent, j - 1), p);
        let f0 = nbr_field(extent, spins, p, j - 1);
        let t = if adjacent(point_at(extent, j - 1), p) {
            spin_val(spins[j - 1])
        } else {
            0int
        };
        assert(nbr_field(extent, spins, p, j) == f0 + t);
        assert(sv * (f0 + t) == sv * f0 + sv * t) by (nonlinear_arith);
        if adjacent(p, point_at(extent, j - 1)) {
            assert(pair_bond(extent, spins, a, j - 1) == sv * spin_val(spins[j - 1]));
        } else {
            assert(sv * t == 0) by (nonlinear_arith)
                requires
                    t == 0,
            ;
        }
    }
}

/// Summing the first `i` points' alignments equals summing the first `i`
/// full rows of the bond matrix.
pub proof fn lemma_corr_sum_eq_rows(extent: Seq<usize>, spins: Seq<Spin>, i: int)
    requires
        crate::lattice::extents_positive(extent),
        0 <= i <= count_of(extent),
    ensures
        corr_sum(extent, spins, i) == rows_to(extent, spins, i, count_of(extent) as int),
    decreases i,
{
    if i > 0 {
        lemma_corr_sum_eq_rows(extent, spins, i - 1);
        lemma_nbr_corr_eq_row(extent, spins, i - 1, count_of(extent) as int);
    }
}

/// The double-counting law: summing the per-site neighbour alignment over
/// every lattice point visits each bond from both of its endpoints, so the
/// sum is exactly twice the bond sum in which each unordered adjacent pair
/// is counted once.
pub proof fn lemma_neighbor_sum_counts_bonds_twice(extent: Seq<usize>, spins: Seq<Spin>)
    requires
        crate::lattice::extents_positive(extent),
    ensures
        corr_sum(extent, spins, count_of(extent) as int) == 2 * bond_sum(
            extent,
            spins,
            count_of(extent) as int,
        ),
{
    lemma_corr_sum_eq_rows(extent, spins, count_of(extent) as int);
    lemma_square_double(extent, spins, count_of(extent) as int);
}

/// Sum of the local energies of the first `i` lattice points.
pub open spec fn local_energy_sum(
    extent: Seq<usize>,
    spins: Seq<Spin>,
    coupling: int,
    field: int,
    i: int,
) -> int
    decreases i,
{
    if i <= 0 {
        0
    } else {
        local_energy_sum(extent, spins, coupling, field, i - 1) + local_energy_of(
            extent,
            spins,
            coupling,
            field,
            point_at(extent, i - 1),
        )
    }
}

/// The naive sum of local energies splits into the field term over the spin
/// sum and the coupling term over the summed alignments.
pub proof fn lemma_local_energy_sum_split(
    extent: Seq<usize>,
    spins: Seq<Spin>,
    coupling: int,
    field: int,
    i: int,
)
    requires
        crate::lattice::extents_positive(extent),
        0 <= i <= count_of(extent),
    ensures
        local_energy_sum(extent, spins, coupling, field, i) == -field * spin_sum(spins, i)
            - coupling * corr_sum(extent, spins, i),
    decreases i,
{
    if i > 0 {
        lemma_local_energy_sum_split(extent, spins, coupling, field, i - 1);
        lemma_index_of_point_at(extent, i - 1);
        let s0 = spin_sum(spins, i - 1);
        let sv = spin_val(spins[i - 1]);
        let x0 = corr_sum(extent, spins, i - 1);
        let c = nbr_corr(extent, spins, point_at(extent, i - 1), count_of(extent) as int);
        assert(-field * (s0 + sv) == -field * s0 + -field * sv) by (nonlinear_arith);
        assert(coupling * (x0 + c) == coupling * x0 + coupling * c) by (nonlinear_arith);
    }
}

/// The halving correction of the total energy, explicitly: twice the total
/// energy is the naive sum of the per-site local energies plus one more
/// copy of the field term. That is, relative to the naive sum -- which
/// visits every bond from both endpoints -- the total energy halves the
/// neighbour-interaction term and leaves the field term whole.
pub proof fn lemma_total_energy_halves_bond_term(
    extent: Seq<usize>,
    spins: Seq<Spin>,
    coupling: int,
    field: int,
)
    requires
        crate::lattice::extents_positive(extent),
    ensures
        2 * total_energy_of(extent, spins, coupling, field) == local_energy_sum(
            extent,
            spins,
            coupling,
            field,
            count_of(extent) as int,
        ) + -field * spin_sum(spins, count_of(extent) as int),
{
    let n = count_of(extent) as int;
    lemma_local_energy_sum_split(extent, spins, coupling, field, n);
    lemma_neighbor_sum_counts_bonds_twice(extent, spins);
    let s = spin_sum(spins, n);
    let b = bond_sum(extent, spins, n);
    assert(coupling * (2 * b) == 2 * (coupling * b)) by (nonlinear_arith);
    assert(2 * (-field * s - coupling * b) == (-field * s - coupling * (2 * b)) + -field * s)
        by (nonlinear_arith);
}

/// Bound on any local energy the model can produce; a machine limit that
/// keeps the Metropolis energy difference within `i128`.
pub const ENERGY_LIMIT: i128 = 0x8000_0000_0000_0000_0000_0000;

/// The local energy at `p`: `-h * s(p) - J * sum over neighbours n of
/// s(p) * s(n)`.
pub open spec fn local_energy_of(
    extent: Seq<usize>,
    spins: Seq<Spin>,
    coupling: int,
    field: int,
    p: Seq<usize>,
) -> int {
    -field * spin_val(spins[index_of(extent, p)]) - coupling * nbr_corr(
        extent,
        spins,
        p,
        count_of(extent) as int,
    )
}

/// The total energy: the field term summed over every point, plus the bond
/// term with every unordered adjacent pair counted exactly once. (A naive
/// sum of the per-site local energies would count each bond twice, from both
/// endpoints; summing over unordered pairs is that halving correction, and
/// it leaves the field term alone.)
pub open spec fn total_energy_of(
    extent: Seq<usize>,
    spins: Seq<Spin>,
    coupling: int,
    field: int,
) -> int {
    -field * spin_sum(spins, count_of(extent) as int) - coupling * bond_sum(
        extent,
        spins,
        count_of(extent) as int,
    )
}

/// All spins of one model configuration are `Up`.
pub open spec fn all_up(spins: Seq<Spin>) -> bool {
    forall|j: int| 0 <= j < spins.len() ==> #[trigger] spins[j] == Spin::Up
}

/// On an all-`Up` configuration the spin sum equals the spin count, so the
/// magnetization -- spin sum over spin count -- equals one, whatever the
/// lattice size.
pub proof fn lemma_all_up_spin_sum(spins: Seq<Spin>, i: int)
    requires
        all_up(spins),
        0 <= i <= spins.len(),
    ensures
        spin_sum(spins, i) == i,
    decreases i,
{
    if i > 0 {
        lemma_all_up_spin_sum(spins, i - 1);
    }
}

/// Number of `Up` spins among the first `i`.
pub open spec fn up_count(spins: Seq<Spin>, i: int) -> int
    decreases i,
{
    if i <= 0 {
        0
    } else {
        up_count(spins, i - 1) + if spins[i - 1] == Spin::Up {
            1int
        } else {
            0int
        }
    }
}

/// The spin sum counts each `Up` as +1 and each `Down` as -1, so a
/// configuration of `i` spins with `u` of them `Up` sums to `2u - i`; in
/// particular an exact 50/50 configuration has spin sum zero, and so
/// magnetization zero.
pub proof fn lemma_spin_sum_from_up_count(spins: Seq<Spin>, i: int)
    requires
        0 <= i,
    ensures
        spin_sum(spins, i) == 2 * up_count(spins, i) - i,
    decreases i,
{
    if i > 0 {
        lemma_spin_sum_from_up_count(spins, i - 1);
    }
}

/// The Ising spin model.
pub struct Ising {
    /// The index space of the model.
    pub lattice: Lattice,
    /// One spin per valid lattice point, indexed by the row-major point index.
    pub spins: Vec<Spin>,
    /// Coupling strength `J`.
    pub coupling: i64,
    /// External field `h`.
    pub applied_field: i64,
    /// Temperature `T`; positive. Read by the caller that computes the
    /// Boltzmann acceptance probability.
    pub temperature: Rational,
    /// The topology owned by the model, over the same lattice.
    pub topology: Topology,
}

impl Ising {
    /// Model invariant: a well-formed lattice, exactly one spin per valid
    /// point, a positive temperature, and a well-formed topology over the
    /// same lattice.
    pub open spec fn wf(self) -> bool {
        &&& self.lattice.wf()
        &&& self.spins@.len() == self.lattice.count()
        &&& self.temperature.wf()
        &&& self.temperature.num >= 1
        &&& self.topology.wf()
        &&& self.topology.lattice.agrees(self.lattice)
    }

    /// Whether `p` is a valid point of the model's lattice.
    pub open spec fn valid(self, p: Seq<usize>) -> bool {
        valid_point(self.lattice.size@, p)
    }

    /// The spin stored at a valid point.
    pub open spec fn spin_at(self, p: Seq<usize>) -> Spin {
        self.spins@[index_of(self.lattice.size@, p)]
    }

    /// A model over `lattice` with every spin `Up` and a fresh topology whose
    /// basis holds the empty set and the full lattice set.
    pub fn new(lattice: Lattice, coupling: i64, applied_field: i64, temperature: Rational) -> (r:
        Ising)
        requires
            lattice.wf(),
            temperature.wf(),
            temperature.num >= 1,
        ensures
            r.wf(),
            r.lattice == lattice,
            r.coupling == coupling,
            r.applied_field == applied_field,
            r.temperature == temperature,
            all_up(r.spins@),
            r.spins@.len() == lattice.count(),
            r.topology.basis@.len() == 2,
            forall|q: Seq<usize>| !(#[trigger] r.topology.basis@[0].has(q)),
            forall|q: Seq<usize>| #[trigger] r.topology.basis@[1].has(q) <==> valid_point(
                lattice.size@,
                q,
            ),
    {
        let pts = lattice.all_points();
        let n = pts.len();
        let mut spins: Vec<Spin> = Vec::new();
        let mut j: usize = 0;
        while j < n
            invariant
                0 <= j <= n,
                spins@.len() == j,
                all_up(spins@),
            decreases n - j,
        {
            spins.push(Spin::Up);
            j = j + 1;
        }
        let topology = Topology::new(lattice.duplicate());
        Ising { lattice, spins, coupling, applied_field, temperature, topology }
    }

    /// The spin at `idx`; refused when `idx` is not a valid lattice point.
    pub fn get_spin(&self, idx: &Vec<usize>) -> (r: Result<Spin, Error>)
        requires
            self.wf(),
        ensures
            self.valid(idx@) ==> r == Ok::<Spin, Error>(self.spin_at(idx@)),
            !self.valid(idx@) ==> r == Err::<Spin, Error>(Error::OutOfBounds),
    {
        if !self.lattice.is_valid(idx) {
            return Err(Error::OutOfBounds);
        }
        let i = self.lattice.point_index(idx);
        Ok(self.spins[i])
    }

    /// Replaces the spin at `idx` unconditionally (idempotent); refused when
    /// `idx` is not a valid lattice point. Afterwards the spin read back at
    /// `idx` is exactly the one stored, and no other point changed.
    pub fn set_spin(&mut self, idx: &Vec<usize>, spin: Spin) -> (r: Result<(), Error>)
        requires
            old(self).wf(),
        ensures
            !old(self).valid(idx@) ==> r == Err::<(), Error>(Error::OutOfBounds) && *final(self)
                == *old(self),
            old(self).valid(idx@) ==> {
                &&& r == Ok::<(), Error>(())
                &&& final(self).spins@ == old(self).spins@.update(
                    index_of(old(self).lattice.size@, idx@),
                    spin,
                )
                &&& final(self).spin_at(idx@) == spin
                &&& final(self).lattice == old(self).lattice
                &&& final(self).coupling == old(self).coupling
                &&& final(self).applied_field == old(self).applied_field
                &&& final(self).temperature == old(self).temperature
                &&& final(self).topology == old(self).topology
                &&& final(self).wf()
            },
    {
        if !self.lattice.is_valid(idx) {
            return Err(Error::OutOfBounds);
        }
        let i = self.lattice.point_index(idx);
        self.spins.set(i, spin);
        Ok(())
    }

    /// All lattice points at Manhattan distance exactly one from `idx`;
    /// refused when `idx` is not a valid lattice point. The result holds
    /// every such point, each valid, and its length is the model's neighbour
    /// count of `idx`.
    pub fn nearest_neighbor(&self, idx: &Vec<usize>) -> (r: Result<Vec<Vec<usize>>, Error>)
        requires
            self.wf(),
        ensures
            !self.valid(idx@) ==> r == Err::<Vec<Vec<usize>>, Error>(Error::OutOfBounds),
            self.valid(idx@) ==> (r matches Ok(v) && {
                &&& v@.len() == nbr_count(self.lattice.size@, idx@, self.lattice.count() as int)
                &&& forall|j: int|
                    0 <= j < v@.len() ==> valid_point(self.lattice.size@, #[trigger] v@[j]@)
                        && adjacent(v@[j]@, idx@)
                &&& forall|q: Seq<usize>|
                    valid_point(self.lattice.size@, q) && adjacent(q, idx@) ==> views_of(
                        v@,
                    ).contains(q)
            }),
    {
        if !self.lattice.is_valid(idx) {
            return Err(Error::OutOfBounds);
        }
        let pts = self.lattice.all_points();
        let n = pts.len();
        let mut v: Vec<Vec<usize>> = Vec::new();
        let mut t: usize = 0;
        while t < n
            invariant
                self.wf(),
                pts@.len() == n,
                n == self.lattice.count(),
                forall|u: int| 0 <= u < n ==> #[trigger] pts@[u]@ == point_at(
                    self.lattice.size@,
                    u,
                ),
                0 <= t <= n,
                v@.len() == nbr_count(self.lattice.size@, idx@, t as int),
                forall|j: int|
                    0 <= j < v@.len() ==> valid_point(self.lattice.size@, #[trigger] v@[j]@)
                        && adjacent(v@[j]@, idx@),
                forall|u: int|
                    0 <= u < t && adjacent(#[trigger] point_at(self.lattice.size@, u), idx@)
                        ==> views_of(v@).contains(point_at(self.lattice.size@, u)),
            decreases n - t,
        {
            let ghost prevv = v@;
            if is_adjacent(&pts[t], idx) {
                proof {
                    lemma_index_of_point_at(self.lattice.size@, t as int);
                }
                v.push(copy_point(&pts[t]));
                proof {
                    assert(v@[prevv.len() as int]@ == point_at(self.lattice.size@, t as int));
                    assert(views_of(v@)[prevv.len() as int] == point_at(
                        self.lattice.size@,
                        t as int,
                    ));
                    assert forall|u: int|
                        0 <= u < t + 1 && adjacent(
                            #[trigger] point_at(self.lattice.size@, u),
                            idx@,
                        ) implies views_of(v@).contains(point_at(self.lattice.size@, u)) by {
                        if u < t {
                            let w = choose|w: int|
                                0 <= w < views_of(prevv).len() && views_of(prevv)[w] == point_at(
                                    self.lattice.size@,
                                    u,
                                );
                            assert(views_of(v@)[w] == point_at(self.lattice.size@, u));
                        }
                    }
                }
            } else {
                proof {
                    assert forall|u: int|
                        0 <= u < t + 1 && adjacent(
                            #[trigger] point_at(self.lattice.size@, u),
                            idx@,
                        ) implies views_of(v@).contains(point_at(self.lattice.size@, u)) by {}
                }
            }
            t = t + 1;
        }
        proof {
            assert forall|q: Seq<usize>|
                valid_point(self.lattice.size@, q) && adjacent(q, idx@) implies views_of(
                v@,
            ).contains(q) by {
                lemma_index_of_bounds(self.lattice.size@, q);
                lemma_point_at_index_of(self.lattice.size@, q);
                assert(point_at(self.lattice.size@, index_of(self.lattice.size@, q)) == q);
            }
        }
        Ok(v)
    }

    /// The mean spin value over all lattice points, as an exact rational:
    /// spin sum over point count, in `[-1, 1]`.
    pub fn magnetization(&self) -> (r: Rational)
        requires
            self.wf(),
        ensures
            r.num == spin_sum(self.spins@, self.spins@.len() as int),
            r.den == self.lattice.count(),
            r.wf(),
    {
        let n = self.spins.len();
        let mut acc: i64 = 0;
        let mut j: usize = 0;
        while j < n
            invariant
                self.wf(),
                self.spins@.len() == n,
                n <= MAX_POINTS,
                0 <= j <= n,
                acc == spin_sum(self.spins@, j as int),
                -(j as int) <= acc <= j as int,
            decreases n - j,
        {
            let s: i64 = match self.spins[j] {
                Spin::Up => 1,
                Spin::Down => -1,
            };
            acc = acc + s;
            j = j + 1;
        }
        proof {
            lemma_count_of_positive(self.lattice.size@);
        }
        Rational { num: acc as i128, den: n as i128 }
    }

    /// A uniformly random valid lattice point.
    pub fn propose_site(&self) -> (r: Vec<usize>)
        requires
            self.wf(),
        ensures
            self.valid(r@),
    {
        let dim = self.lattice.size.len();
        let mut p: Vec<usize> = Vec::new();
        let mut d: usize = 0;
        while d < dim
            invariant
                self.wf(),
                self.lattice.size@.len() == dim,
                0 <= d <= dim,
                p@.len() == d,
                forall|k: int| 0 <= k < d ==> #[trigger] p@[k] < self.lattice.size@[k],
            decreases dim - d,
        {
            let c = random_below(self.lattice.size[d]);
            p.push(c);
            d = d + 1;
        }
        p
    }

    /// Number of neighbours of `p` in the whole lattice.
    pub open spec fn nbr_count_of(self, p: Seq<usize>) -> int {
        nbr_count(self.lattice.size@, p, self.lattice.count() as int)
    }

    /// Spin-spin alignment of `p` with all its neighbours.
    pub open spec fn nbr_corr_of(self, p: Seq<usize>) -> int {
        nbr_corr(self.lattice.size@, self.spins@, p, self.lattice.count() as int)
    }

    /// Sum of all spin values.
    pub open spec fn spin_total(self) -> int {
        spin_sum(self.spins@, self.spins@.len() as int)
    }

    /// The local energy at `p`.
    pub open spec fn local_energy_spec(self, p: Seq<usize>) -> int {
        local_energy_of(
            self.lattice.size@,
            self.spins@,
            self.coupling as int,
            self.applied_field as int,
            p,
        )
    }

    /// The total energy of the configuration.
    pub open spec fn total_energy_spec(self) -> int {
        total_energy_of(self.lattice.size@, self.spins@, self.coupling as int, self.applied_field as int)
    }

    /// Numerator of the spin-spin correlation at `p`, over the denominator
    /// below: `(sum over neighbours of s(p) s(n)) / k - (spin sum / N)^2`,
    /// brought to the common denominator `k * N * N`.
    pub open spec fn correlation_num(self, p: Seq<usize>) -> int {
        let n = self.lattice.count() as int;
        self.nbr_corr_of(p) * (n * n) - self.spin_total() * self.spin_total() * self.nbr_count_of(p)
    }

    /// Denominator of the spin-spin correlation at `p`.
    pub open spec fn correlation_den(self, p: Seq<usize>) -> int {
        let n = self.lattice.count() as int;
        self.nbr_count_of(p) * (n * n)
    }

    /// The local energy at `idx`: `-h * s(idx) - J * sum over neighbours n
    /// of s(idx) * s(n)`, exactly; refused when `idx` is not a valid lattice
    /// point.
    pub fn local_energy(&self, idx: &Vec<usize>) -> (r: Result<i128, Error>)
        requires
            self.wf(),
        ensures
            !self.valid(idx@) ==> r == Err::<i128, Error>(Error::OutOfBounds),
            self.valid(idx@) ==> (r matches Ok(e) && e == self.local_energy_spec(idx@)
                && -ENERGY_LIMIT < e < ENERGY_LIMIT),
    {
        if !self.lattice.is_valid(idx) {
            return Err(Error::OutOfBounds);
        }
        let pts = self.lattice.all_points();
        let n = pts.len();
        let ip = self.lattice.point_index(idx);
        let mut fld: i64 = 0;
        let mut t: usize = 0;
        while t < n
            invariant
                self.wf(),
                self.valid(idx@),
                pts@.len() == n,
                n == self.lattice.count(),
                n <= MAX_POINTS,
                forall|u: int| 0 <= u < n ==> #[trigger] pts@[u]@ == point_at(
                    self.lattice.size@,
                    u,
                ),
                0 <= t <= n,
                fld == nbr_field(self.lattice.size@, self.spins@, idx@, t as int),
                -(t as int) <= fld <= t as int,
            decreases n - t,
        {
            if is_adjacent(&pts[t], idx) {
                let s = spin_sign(self.spins[t]);
                fld = fld + s;
            }
            t = t + 1;
        }
        let s = spin_sign(self.spins[ip]);
        let sf: i64 = if s == 1 {
            fld
        } else {
            -fld
        };
        proof {
            assert(sf as int == spin_val(self.spins@[ip as int]) * nbr_field(
                self.lattice.size@,
                self.spins@,
                idx@,
                n as int,
            )) by {
                if s == 1 {
                    assert(spin_val(self.spins@[ip as int]) == 1);
                } else {
                    assert(spin_val(self.spins@[ip as int]) == -1);
                }
            }
        }
        let term1: i128 = if s == 1 {
            -(self.applied_field as i128)
        } else {
            self.applied_field as i128
        };
        proof {
            assert((self.coupling as i128) * (sf as i128) <= 0x4000_0000_0000_0000_0000_0000
                && (self.coupling as i128) * (sf as i128) >= -0x4000_0000_0000_0000_0000_0000)
                by (nonlinear_arith)
                requires
                    -0x8000_0000_0000_0000 <= self.coupling as i128 <= 0x8000_0000_0000_0000,
                    -0x8000_0000 <= sf as i128 <= 0x8000_0000,
            ;
        }
        let term2: i128 = (self.coupling as i128) * (sf as i128);
        let e: i128 = term1 - term2;
        proof {
            assert(term1 as int == -(self.applied_field as int) * spin_val(
                self.spins@[ip as int],
            )) by {
                if s == 1 {
                    assert(spin_val(self.spins@[ip as int]) == 1);
                } else {
                    assert(spin_val(self.spins@[ip as int]) == -1);
                }
            }
        }
        Ok(e)
    }

    /// The total energy of the configuration, exactly: the field term over
    /// every point plus the bond term with each bond counted once (the
    /// neighbour-interaction term halved relative to a naive sum of local
    /// energies; the field term not halved).
    pub fn total_energy(&self) -> (r: i128)
        requires
            self.wf(),
        ensures
            r == self.total_energy_spec(),
    {
        let pts = self.lattice.all_points();
        let n = pts.len();
        let mut s_acc: i64 = 0;
        let mut j: usize = 0;
        while j < n
            invariant
                self.wf(),
                self.spins@.len() == n,
                n <= MAX_POINTS,
                0 <= j <= n,
                s_acc == spin_sum(self.spins@, j as int),
                -(j as int) <= s_acc <= j as int,
            decreases n - j,
        {
            let s = spin_sign(self.spins[j]);
            s_acc = s_acc + s;
            j = j + 1;
        }
        let mut b_acc: i64 = 0;
        let mut a: usize = 0;
        while a < n
            invariant
                self.wf(),
                pts@.len() == n,
                n == self.lattice.count(),
                n <= MAX_POINTS,
                self.spins@.len() == n,
                forall|u: int| 0 <= u < n ==> #[trigger] pts@[u]@ == point_at(
                    self.lattice.size@,
                    u,
                ),
                0 <= a <= n,
                b_acc == bond_sum(self.lattice.size@, self.spins@, a as int),
                -((a as int) * (a as int)) <= b_acc <= (a as int) * (a as int),
            decreases n - a,
        {
            let sa = spin_sign(self.spins[a]);
            let mut b: usize = 0;
            while b < a
                invariant
                    self.wf(),
                    pts@.len() == n,
                    n == self.lattice.count(),
                    n <= MAX_POINTS,
                    self.spins@.len() == n,
                    forall|u: int| 0 <= u < n ==> #[trigger] pts@[u]@ == point_at(
                        self.lattice.size@,
                        u,
                    ),
                    0 <= b <= a < n,
                    sa as int == spin_val(self.spins@[a as int]),
                    b_acc == bond_sum(self.lattice.size@, self.spins@, a as int) + row_bond(
                        self.lattice.size@,
                        self.spins@,
                        a as int,
                        b as int,
                    ),
                    -((a as int) * (a as int)) - (b as int) <= b_acc <= (a as int) * (a as int) + (
                    b as int),
                decreases a - b,
            {
                proof {
                    assert((a as int) * (a as int) + (b as int) + 1 <= (MAX_POINTS as int)
                        * (MAX_POINTS as int) + MAX_POINTS) by (nonlinear_arith)
                        requires
                            0 <= b <= a < n <= MAX_POINTS,
                    ;
                }
                if is_adjacent(&pts[a], &pts[b]) {
                    let sb = spin_sign(self.spins[b]);
                    let term: i64 = if sa == sb {
                        1
                    } else {
                        -1
                    };
                    proof {
                        assert(term as int == spin_val(self.spins@[a as int]) * spin_val(
                            self.spins@[b as int],
                        )) by {
                            if self.spins@[a as int] == Spin::Up {
                                assert(spin_val(self.spins@[a as int]) == 1);
                            } else {
                                assert(spin_val(self.spins@[a as int]) == -1);
                            }
                        }
                        assert(pair_bond(self.lattice.size@, self.spins@, a as int, b as int)
                            == term as int);
                    }
                    b_acc = b_acc + term;
                } else {
                    proof {
                        assert(pair_bond(self.lattice.size@, self.spins@, a as int, b as int)
                            == 0);
                    }
                }
                b = b + 1;
            }
            proof {
                assert(bond_sum(self.lattice.size@, self.spins@, a + 1) == bond_sum(
                    self.lattice.size@,
                    self.spins@,
                    a as int,
                ) + row_bond(self.lattice.size@, self.spins@, a as int, a as int));
                lemma_bond_sum_bounds(self.lattice.size@, self.spins@, a + 1);
                assert((a + 1) * (a + 1) <= (MAX_POINTS as int) * (MAX_POINTS as int))
                    by (nonlinear_arith)
                    requires
                        0 <= a < n <= MAX_POINTS,
                ;
            }
            a = a + 1;
        }
        proof {
            let nn = n as int;
            assert(-0x4000_0000_0000_0000 <= b_acc as int <= 0x4000_0000_0000_0000)
                by (nonlinear_arith)
                requires
                    0 <= nn <= 0x8000_0000,
                    -(nn * nn) <= b_acc as int <= nn * nn,
            ;
            assert((self.coupling as i128) * (b_acc as i128)
                <= 0x4000_0000_0000_0000_0000_0000_0000_0000 && (self.coupling as i128) * (
            b_acc as i128) >= -0x4000_0000_0000_0000_0000_0000_0000_0000) by (nonlinear_arith)
                requires
                    -0x8000_0000_0000_0000 <= self.coupling as i128 <= 0x8000_0000_0000_0000,
                    -0x4000_0000_0000_0000 <= b_acc as i128 <= 0x4000_0000_0000_0000,
            ;
            assert((self.applied_field as i128) * (s_acc as i128)
                <= 0x8000_0000_0000_0000_0000_0000 && (self.applied_field as i128) * (
            s_acc as i128) >= -0x8000_0000_0000_0000_0000_0000) by (nonlinear_arith)
                requires
                    -0x8000_0000_0000_0000 <= self.applied_field as i128 <= 0x8000_0000_0000_0000,
                    -0x8000_0000 <= s_acc as i128 <= 0x8000_0000,
            ;
        }
        let field_term: i128 = (self.applied_field as i128) * (s_acc as i128);
        let bond_term: i128 = (self.coupling as i128) * (b_acc as i128);
        proof {
            assert(-(self.applied_field as int) * (s_acc as int) == -((self.applied_field as int)
                * (s_acc as int)) && -(self.coupling as int) * (b_acc as int) == -((
            self.coupling as int) * (b_acc as int))) by (nonlinear_arith);
        }
        -field_term - bond_term
    }

    /// The spin-spin correlation at `idx`: the mean over its neighbours `n`
    /// of `s(idx) * s(n)`, minus the squared magnetization, as one exact
    /// rational over the common denominator `k * N * N`. Refused when `idx`
    /// is invalid; refused as `NoNeighbors` when `idx` has no neighbour at
    /// all (a one-point lattice), since the mean is then undefined.
    pub fn correlation(&self, idx: &Vec<usize>) -> (r: Result<Rational, Error>)
        requires
            self.wf(),
        ensures
            !self.valid(idx@) ==> r == Err::<Rational, Error>(Error::OutOfBounds),
            self.valid(idx@) && self.nbr_count_of(idx@) == 0 ==> r == Err::<Rational, Error>(
                Error::NoNeighbors,
            ),
            self.valid(idx@) && self.nbr_count_of(idx@) >= 1 ==> (r matches Ok(v) && {
                &&& v.num == self.correlation_num(idx@)
                &&& v.den == self.correlation_den(idx@)
                &&& v.wf()
            }),
    {
        if !self.lattice.is_valid(idx) {
            return Err(Error::OutOfBounds);
        }
        let pts = self.lattice.all_points();
        let n = pts.len();
        let ip = self.lattice.point_index(idx);
        let mut k: usize = 0;
        let mut fld: i64 = 0;
        let mut t: usize = 0;
        while t < n
            invariant
                self.wf(),
                self.valid(idx@),
                pts@.len() == n,
                n == self.lattice.count(),
                n <= MAX_POINTS,
                forall|u: int| 0 <= u < n ==> #[trigger] pts@[u]@ == point_at(
                    self.lattice.size@,
                    u,
                ),
                0 <= t <= n,
                k == nbr_count(self.lattice.size@, idx@, t as int),
                k <= t,
                fld == nbr_field(self.lattice.size@, self.spins@, idx@, t as int),
                -(k as int) <= fld <= k as int,
            decreases n - t,
        {
            if is_adjacent(&pts[t], idx) {
                let s = spin_sign(self.spins[t]);
                k = k + 1;
                fld = fld + s;
            }
            t = t + 1;
        }
        if k == 0 {
            return Err(Error::NoNeighbors);
        }
        let mut s_acc: i64 = 0;
        let mut j: usize = 0;
        while j < n
            invariant
                self.wf(),
                self.spins@.len() == n,
                n <= MAX_POINTS,
                0 <= j <= n,
                s_acc == spin_sum(self.spins@, j as int),
                -(j as int) <= s_acc <= j as int,
            decreases n - j,
        {
            let s = spin_sign(self.spins[j]);
            s_acc = s_acc + s;
            j = j + 1;
        }
        let s = spin_sign(self.spins[ip]);
        let corr: i64 = if s == 1 {
            fld
        } else {
            -fld
        };
        proof {
            assert(corr as int == self.nbr_corr_of(idx@)) by {
                if s == 1 {
                    assert(spin_val(self.spins@[ip as int]) == 1);
                } else {
                    assert(spin_val(self.spins@[ip as int]) == -1);
                }
            }
        }
        let ni: i128 = n as i128;
        proof {
            assert(1 <= ni * ni <= 0x4000_0000_0000_0000) by (nonlinear_arith)
                requires
                    1 <= ni <= 0x8000_0000,
            ;
        }
        let n2: i128 = ni * ni;
        proof {
            assert((corr as i128) * n2 <= 0x2000_0000_0000_0000_0000_0000 && (corr as i128) * n2
                >= -0x2000_0000_0000_0000_0000_0000) by (nonlinear_arith)
                requires
                    -0x8000_0000 <= corr as i128 <= 0x8000_0000,
                    1 <= n2 <= 0x4000_0000_0000_0000,
            ;
            assert((s_acc as i128) * (s_acc as i128) <= 0x4000_0000_0000_0000 && (s_acc as i128)
                * (s_acc as i128) >= 0) by (nonlinear_arith)
                requires
                    -0x8000_0000 <= s_acc as i128 <= 0x8000_0000,
            ;
        }
        let t1: i128 = (corr as i128) * n2;
        let s2: i128 = (s_acc as i128) * (s_acc as i128);
        proof {
            assert(s2 * (k as i128) <= 0x2000_0000_0000_0000_0000_0000 && s2 * (k as i128) >= 0)
                by (nonlinear_arith)
                requires
                    0 <= s2 <= 0x4000_0000_0000_0000,
                    1 <= k as i128 <= 0x8000_0000,
            ;
            assert(1 <= (k as i128) * n2 <= 0x2000_0000_0000_0000_0000_0000) by (nonlinear_arith)
                requires
                    1 <= k as i128 <= 0x8000_0000,
                    1 <= n2 <= 0x4000_0000_0000_0000,
            ;
        }
        let t2: i128 = s2 * (k as i128);
        let num: i128 = t1 - t2;
        let den: i128 = (k as i128) * n2;
        Ok(Rational { num, den })
    }

    /// One Metropolis trial at the valid point `idx`, after the caller drew
    /// the site and -- for the unfavorable case -- the Boltzmann acceptance
    /// verdict `accept_unfavorable` (a draw `r` in `[0, 1)` compared against
    /// `exp(-dE / (k_B T))`). The spin at `idx` is flipped; since flipping
    /// the one spin that every term of the local energy carries negates that
    /// energy, the energy change is `dE == -2 * E_local(idx)` on the old
    /// configuration. The flip is kept when `dE <= 0` (always, the textbook
    /// rule -- `dE == 0` accepts), and otherwise exactly when the caller's
    /// verdict says so; else it is reverted. No point other than `idx` ever
    /// changes, and the spin count and domain never change.
    pub fn metropolis_stepper(&mut self, idx: &Vec<usize>, accept_unfavorable: bool) -> (r: Result<
        (),
        Error,
    >)
        requires
            old(self).wf(),
        ensures
            !old(self).valid(idx@) ==> r == Err::<(), Error>(Error::OutOfBounds) && *final(self)
                == *old(self),
            old(self).valid(idx@) ==> {
                &&& r == Ok::<(), Error>(())
                &&& final(self).lattice == old(self).lattice
                &&& final(self).coupling == old(self).coupling
                &&& final(self).applied_field == old(self).applied_field
                &&& final(self).temperature == old(self).temperature
                &&& final(self).topology == old(self).topology
                &&& final(self).wf()
                &&& final(self).spins@.len() == old(self).spins@.len()
                &&& final(self).spins@ == (if -2 * old(self).local_energy_spec(idx@) <= 0
                    || accept_unfavorable {
                    old(self).spins@.update(
                        index_of(old(self).lattice.size@, idx@),
                        flip_of(old(self).spin_at(idx@)),
                    )
                } else {
                    old(self).spins@
                })
            },
    {
        if !self.lattice.is_valid(idx) {
            return Err(Error::OutOfBounds);
        }
        let e0 = match self.local_energy(idx) {
            Ok(e) => e,
            Err(e) => {
                return Err(e);
            },
        };
        let s0 = match self.get_spin(idx) {
            Ok(s) => s,
            Err(e) => {
                return Err(e);
            },
        };
        let new_spin = match s0 {
            Spin::Up => Spin::Down,
            Spin::Down => Spin::Up,
        };
        let _ = self.set_spin(idx, new_spin);
        let e1 = match self.local_energy(idx) {
            Ok(e) => e,
            Err(e) => {
                return Err(e);
            },
        };
        proof {
            let extent = old(self).lattice.size@;
            let ip = index_of(extent, idx@);
            lemma_index_of_bounds(extent, idx@);
            lemma_nbr_field_update(extent, old(self).spins@, idx@, new_spin, count_of(extent) as int);
            assert(self.spins@[ip] == new_spin);
            let h = old(self).applied_field as int;
            let j = old(self).coupling as int;
            let f = nbr_field(extent, old(self).spins@, idx@, count_of(extent) as int);
            let sv0 = spin_val(old(self).spins@[ip]);
            let sv1 = spin_val(new_spin);
            assert(nbr_field(extent, self.spins@, idx@, count_of(extent) as int) == f);
            assert(e0 as int == -h * sv0 - j * (sv0 * f));
            assert(e1 as int == -h * sv1 - j * (sv1 * f));
            assert(sv1 == -sv0 && (sv0 == 1 || sv0 == -1)) by {
                if s0 == Spin::Up {
                    assert(sv0 == 1 && sv1 == -1);
                } else {
                    assert(sv0 == -1 && sv1 == 1);
                }
            }
            assert(e1 as int == -(e0 as int)) by (nonlinear_arith)
                requires
                    e0 as int == -h * sv0 - j * (sv0 * f),
                    e1 as int == -h * sv1 - j * (sv1 * f),
                    sv1 == -sv0,
            ;
        }
        let delta: i128 = e1 - e0;
        if delta > 0 && !accept_unfavorable {
            let _ = self.set_spin(idx, s0);
            proof {
                let extent = old(self).lattice.size@;
                let ip = index_of(extent, idx@);
                assert(self.spins@ =~= old(self).spins@);
            }
        }
        Ok(())
    }

    /// The open set of all points currently holding spin `Up`.
    pub fn get_up_spin_set(&self) -> (r: OpenSet)
        requires
            self.wf(),
        ensures
            r.wf(),
            forall|q: Seq<usize>| #[trigger]
                r.has(q) <==> (self.valid(q) && self.spin_at(q) == Spin::Up),
    {
        self.topology.open_set_from_spins(self, Spin::Up)
    }

    /// The open set of all points currently holding spin `Down`.
    pub fn get_down_spin_set(&self) -> (r: OpenSet)
        requires
            self.wf(),
        ensures
            r.wf(),
            forall|q: Seq<usize>| #[trigger]
                r.has(q) <==> (self.valid(q) && self.spin_at(q) == Spin::Down),
    {
        self.topology.open_set_from_spins(self, Spin::Down)
    }
}

/// The neighbour relation of the model is symmetric: for valid points `p`
/// and `q`, `q` is among the neighbours of `p` -- characterised by
/// `nearest_neighbor`'s contract as valid and adjacent -- exactly when `p`
/// is among the neighbours of `q`.
pub proof fn lemma_neighbors_symmetric(m: Ising, p: Seq<usize>, q: Seq<usize>)
    requires
        m.wf(),
        m.valid(p),
        m.valid(q),
    ensures
        (m.valid(q) && adjacent(q, p)) <==> (m.valid(p) && adjacent(p, q)),
{
    crate::lattice::lemma_adjacent_symmetric(p, q);
}

/// On an all-`Up` configuration the magnetization is one, whatever the
/// lattice size: the rational `magnetization` returns has its numerator
/// (the spin sum) equal to its denominator (the point count).
pub proof fn lemma_all_up_magnetization(m: Ising)
    requires
        m.wf(),
        all_up(m.spins@),
    ensures
        spin_sum(m.spins@, m.spins@.len() as int) == m.lattice.count(),
{
    lemma_all_up_spin_sum(m.spins@, m.spins@.len() as int);
}

/// On an exact 50/50 configuration -- as many `Up` as `Down` spins -- the
/// magnetization is zero: the spin sum, the numerator of the rational
/// `magnetization` returns, vanishes.
pub proof fn lemma_balanced_magnetization(spins: Seq<Spin>)
    requires
        2 * up_count(spins, spins.len() as int) == spins.len(),
    ensures
        spin_sum(spins, spins.len() as int) == 0,
{
    lemma_spin_sum_from_up_count(spins, spins.len() as int);
}

pub proof fn lemma_nbr_count_positive(extent: Seq<usize>, p: Seq<usize>, t: int, i: int)
    requires
        0 <= t < i,
        adjacent(point_at(extent, t), p),
    ensures
        nbr_count(extent, p, i) >= 1,
    decreases i,
{
    if t == i - 1 {
        lemma_nbr_count_bounds(extent, p, i - 1);
    } else {
        lemma_nbr_count_positive(extent, p, t, i - 1);
    }
}

/// On a lattice of at least two points, every valid point has at least one
/// neighbour, so the spin-spin correlation is defined everywhere.
pub proof fn lemma_every_point_has_neighbor(m: Ising, p: Seq<usize>)
    requires
        m.wf(),
        m.valid(p),
        m.lattice.count() >= 2,
    ensures
        m.nbr_count_of(p) >= 1,
{
    let extent = m.lattice.size@;
    crate::lattice::lemma_neighbor_exists(extent, p);
    let q = choose|q: Seq<usize>| valid_point(extent, q) && #[trigger] adjacent(q, p);
    lemma_index_of_bounds(extent, q);
    lemma_point_at_index_of(extent, q);
    let t = index_of(extent, q);
    assert(adjacent(point_at(extent, t), p));
    lemma_nbr_count_positive(extent, p, t, count_of(extent) as int);
}

/// The numeric sign of a spin, as a machine integer.
fn spin_sign(s: Spin) -> (r: i64)
    ensures
        r as int == spin_val(s),
        r == 1i64 || r == -1i64,
{
    match s {
        Spin::Up => 1,
        Spin::Down => -1,
    }
}

/// Relies on rand's `Rng::gen_range` over `0..bound` on the thread-local
/// generator: the sample lies within the range. The draw panics only on an
/// empty range, which the precondition rules out; nothing is assumed about
/// the distribution of the result.
#[verifier::external_body]
fn random_below(bound: usize) -> (r: usize)
    requires
        bound >= 1,
    ensures
        r < bound,
{
    rand::thread_rng().gen_range(0..bound)
}

} // verus!
