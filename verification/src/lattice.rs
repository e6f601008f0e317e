//! The discrete index space of the spin model: an N-dimensional lattice with
//! a fixed per-axis extent. A lattice point is a coordinate tuple; the module
//! fixes a row-major order on the points (last axis varies fastest) and
//! proves that the order is a bijection between `[0, count)` and the valid
//! points. Adjacency (Manhattan distance exactly one) also lives here.

use vstd::prelude::*;

use crate::error::Error;

use itertools::Itertools;

verus! {

/// Largest number of points a lattice may hold. This is a machine limit:
/// spins are stored in one vector indexed by the row-major point index, and
/// the exact energy and correlation arithmetic below needs the point count
/// (and so every per-axis extent and every neighbour count) to stay well
/// inside the fixed-width integers it is carried in.
pub const MAX_POINTS: usize = 0x8000_0000;

/// Number of points in the Cartesian product of `[0, extent[d])` over all axes.
pub open spec fn count_of(extent: Seq<usize>) -> nat
    decreases extent.len(),
{
    if extent.len() == 0 {
        1
    } else {
        count_of(extent.drop_last()) * (extent.last() as nat)
    }
}

/// Every axis has a positive extent.
pub open spec fn extents_positive(extent: Seq<usize>) -> bool {
    forall|d: int| 0 <= d < extent.len() ==> 1 <= #[trigger] extent[d]
}

/// `p` is a valid coordinate tuple: one coordinate per axis, each strictly
/// below the extent of its axis.
pub open spec fn valid_point(extent: Seq<usize>, p: Seq<usize>) -> bool {
    &&& p.len() == extent.len()
    &&& forall|d: int| 0 <= d < p.len() ==> #[trigger] p[d] < extent[d]
}

/// The `i`-th point of the lattice in row-major order (last axis fastest).
pub open spec fn point_at(extent: Seq<usize>, i: int) -> Seq<usize>
    decreases extent.len(),
{
    if extent.len() == 0 {
        Seq::empty()
    } else {
        point_at(extent.drop_last(), i / (extent.last() as int)).push(
            (i % (extent.last() as int)) as usize,
        )
    }
}

/// The row-major index of the point `p`.
pub open spec fn index_of(extent: Seq<usize>, p: Seq<usize>) -> int
    decreases extent.len(),
{
    if extent.len() == 0 {
        0
    } else {
        index_of(extent.drop_last(), p.drop_last()) * (extent.last() as int) + (p.last() as int)
    }
}

/// The views of a sequence of coordinate vectors, as mathematical sequences.
pub open spec fn views_of(s: Seq<Vec<usize>>) -> Seq<Seq<usize>> {
    s.map_values(|v: Vec<usize>| v@)
}

pub proof fn lemma_count_of_positive(extent: Seq<usize>)
    requires
        extents_positive(extent),
    ensures
        count_of(extent) >= 1,
    decreases extent.len(),
{
    if extent.len() > 0 {
        assert(extents_positive(extent.drop_last()));
        lemma_count_of_positive(extent.drop_last());
        assert(count_of(extent.drop_last()) * (extent.last() as nat) >= 1) by (nonlinear_arith)
            requires
                count_of(extent.drop_last()) >= 1,
                extent.last() >= 1,
        ;
    }
}

pub proof fn lemma_index_of_bounds(extent: Seq<usize>, p: Seq<usize>)
    requires
        valid_point(extent, p),
    ensures
        0 <= index_of(extent, p) < count_of(extent),
    decreases extent.len(),
{
    if extent.len() > 0 {
        assert(valid_point(extent.drop_last(), p.drop_last()));
        lemma_index_of_bounds(extent.drop_last(), p.drop_last());
        let q = index_of(extent.drop_last(), p.drop_last());
        let c = count_of(extent.drop_last()) as int;
        let e = extent.last() as int;
        let r = p.last() as int;
        assert(p[extent.len() - 1] < extent[extent.len() - 1]);
        assert(0 <= q * e + r < c * e) by (nonlinear_arith)
            requires
                0 <= q < c,
                0 <= r < e,
        ;
    }
}

pub proof fn lemma_point_at_index_of(extent: Seq<usize>, p: Seq<usize>)
    requires
        valid_point(extent, p),
    ensures
        point_at(extent, index_of(extent, p)) == p,
    decreases extent.len(),
{
    if extent.len() == 0 {
        assert(point_at(extent, index_of(extent, p)) =~= p);
    } else {
        assert(valid_point(extent.drop_last(), p.drop_last()));
        lemma_point_at_index_of(extent.drop_last(), p.drop_last());
        lemma_index_of_bounds(extent.drop_last(), p.drop_last());
        let q = index_of(extent.drop_last(), p.drop_last());
        let e = extent.last() as int;
        let r = p.last() as int;
        assert(p[extent.len() - 1] < extent[extent.len() - 1]);
        let i = q * e + r;
        vstd::arithmetic::div_mod::lemma_fundamental_div_mod_converse(i, e, q, r);
        assert(point_at(extent, i) =~= p);
    }
}

pub proof fn lemma_index_of_point_at(extent: Seq<usize>, i: int)
    requires
        extents_positive(extent),
        0 <= i < count_of(extent),
    ensures
        valid_point(extent, point_at(extent, i)),
        index_of(extent, point_at(extent, i)) == i,
    decreases extent.len(),
{
    if extent.len() == 0 {
        assert(point_at(extent, i) =~= Seq::<usize>::empty());
    } else {
        let e = extent.last() as int;
        let c = count_of(extent.drop_last()) as int;
        assert(e >= 1);
        assert(0 <= i / e < c && 0 <= i % e < e) by (nonlinear_arith)
            requires
                0 <= i < c * e,
                e >= 1,
        ;
        assert(extents_positive(extent.drop_last()));
        lemma_index_of_point_at(extent.drop_last(), i / e);
        let head = point_at(extent.drop_last(), i / e);
        let p = point_at(extent, i);
        assert(p == head.push((i % e) as usize));
        assert(p.drop_last() =~= head);
        assert(valid_point(extent, p)) by {
            assert(forall|d: int| 0 <= d < p.len() - 1 ==> #[trigger] p[d] == head[d]);
        }
        assert(p.last() == (i % e) as usize);
        assert(index_of(extent, p) == (i / e) * e + (i % e));
        vstd::arithmetic::div_mod::lemma_fundamental_div_mod(i, e);
        assert((i / e) * e + (i % e) == i);
    }
}

/// Distinct row-major indices give distinct points.
pub proof fn lemma_point_at_injective(extent: Seq<usize>, i: int, j: int)
    requires
        extents_positive(extent),
        0 <= i < count_of(extent),
        0 <= j < count_of(extent),
        i != j,
    ensures
        point_at(extent, i) != point_at(extent, j),
{
    lemma_index_of_point_at(extent, i);
    lemma_index_of_point_at(extent, j);
}

/// The count over a prefix of the axes never exceeds the full count.
pub proof fn lemma_count_of_take(extent: Seq<usize>, d: int)
    requires
        extents_positive(extent),
        0 <= d <= extent.len(),
    ensures
        count_of(extent.take(d)) <= count_of(extent),
    decreases extent.len() - d,
{
    if d == extent.len() {
        assert(extent.take(d) =~= extent);
    } else {
        lemma_count_of_take(extent, d + 1);
        let t = extent.take(d + 1);
        assert(t.drop_last() =~= extent.take(d));
        assert(t.last() == extent[d]);
        assert(count_of(extent.take(d)) <= count_of(t)) by (nonlinear_arith)
            requires
                count_of(t) == count_of(t.drop_last()) * (t.last() as nat),
                count_of(t.drop_last()) == count_of(extent.take(d)),
                t.last() >= 1,
        ;
    }
}

/// Manhattan distance of two coordinates on one axis.
pub open spec fn abs_diff(a: usize, b: usize) -> nat {
    if a >= b {
        (a - b) as nat
    } else {
        (b - a) as nat
    }
}

/// Manhattan (L1) distance of two coordinate tuples of equal length.
pub open spec fn l1_distance(p: Seq<usize>, q: Seq<usize>) -> nat
    decreases p.len(),
{
    if p.len() == 0 || q.len() == 0 {
        0
    } else {
        l1_distance(p.drop_last(), q.drop_last()) + abs_diff(p.last(), q.last())
    }
}

/// Two coordinate tuples are adjacent when they have the same length and
/// Manhattan distance exactly one.
pub open spec fn adjacent(p: Seq<usize>, q: Seq<usize>) -> bool {
    p.len() == q.len() && l1_distance(p, q) == 1
}

pub proof fn lemma_l1_symmetric(p: Seq<usize>, q: Seq<usize>)
    ensures
        l1_distance(p, q) == l1_distance(q, p),
    decreases p.len(),
{
    if p.len() > 0 && q.len() > 0 {
        lemma_l1_symmetric(p.drop_last(), q.drop_last());
    }
}

pub proof fn lemma_l1_self_is_zero(p: Seq<usize>)
    ensures
        l1_distance(p, p) == 0,
    decreases p.len(),
{
    if p.len() > 0 {
        lemma_l1_self_is_zero(p.drop_last());
    }
}

/// Adjacent points differ: their distance is one, not zero.
pub proof fn lemma_adjacent_not_equal(p: Seq<usize>, q: Seq<usize>)
    requires
        adjacent(p, q),
    ensures
        p != q,
{
    lemma_l1_self_is_zero(p);
}

/// Adjacency is symmetric: the Manhattan distance does not depend on the
/// order of its arguments.
pub proof fn lemma_adjacent_symmetric(p: Seq<usize>, q: Seq<usize>)
    ensures
        adjacent(p, q) <==> adjacent(q, p),
{
    lemma_l1_symmetric(p, q);
}

/// Changing one coordinate moves a point by exactly the coordinate change.
pub proof fn lemma_l1_update(p: Seq<usize>, d: int, x: usize)
    requires
        0 <= d < p.len(),
    ensures
        l1_distance(p, p.update(d, x)) == abs_diff(p[d], x),
    decreases p.len(),
{
    let q = p.update(d, x);
    if d == p.len() - 1 {
        assert(q.drop_last() =~= p.drop_last());
        lemma_l1_self_is_zero(p.drop_last());
    } else {
        assert(q.drop_last() =~= p.drop_last().update(d, x));
        lemma_l1_update(p.drop_last(), d, x);
        assert(q.last() == p.last());
    }
}

/// A lattice of at least two points has an axis of extent at least two.
pub proof fn lemma_wide_axis_exists(extent: Seq<usize>)
    requires
        extents_positive(extent),
        count_of(extent) >= 2,
    ensures
        exists|d: int| 0 <= d < extent.len() && #[trigger] extent[d] >= 2,
    decreases extent.len(),
{
    if extent.len() == 0 {
        assert(false);
    } else if extent.last() >= 2 {
        assert(extent[extent.len() - 1] >= 2);
    } else {
        assert(extent.last() == 1);
        assert(count_of(extent) == count_of(extent.drop_last()) * 1);
        assert(extents_positive(extent.drop_last()));
        lemma_wide_axis_exists(extent.drop_last());
        let d = choose|d: int|
            0 <= d < extent.drop_last().len() && #[trigger] extent.drop_last()[d] >= 2;
        assert(extent[d] >= 2);
    }
}

/// On a lattice of at least two points, every valid point has a neighbour:
/// step by one along an axis of extent at least two.
pub proof fn lemma_neighbor_exists(extent: Seq<usize>, p: Seq<usize>)
    requires
        extents_positive(extent),
        valid_point(extent, p),
        count_of(extent) >= 2,
    ensures
        exists|q: Seq<usize>| valid_point(extent, q) && #[trigger] adjacent(q, p),
{
    lemma_wide_axis_exists(extent);
    let d = choose|d: int| 0 <= d < extent.len() && #[trigger] extent[d] >= 2;
    let x: usize = if p[d] >= 1 {
        (p[d] - 1) as usize
    } else {
        1usize
    };
    let q = p.update(d, x);
    lemma_l1_update(p, d, x);
    lemma_l1_symmetric(p, q);
    assert(valid_point(extent, q)) by {
        assert(forall|k: int| 0 <= k < q.len() && k != d ==> #[trigger] q[k] == p[k]);
        assert(q[d] == x && x < extent[d]);
    }
    assert(adjacent(q, p));
}

/// The absolute difference of two coordinates.
pub fn abs_distance(a: usize, b: usize) -> (r: usize)
    ensures
        r == abs_diff(a, b),
{
    if a > b {
        a - b
    } else {
        b - a
    }
}

/// Decides adjacency of two coordinate tuples.
pub fn is_adjacent(p: &Vec<usize>, q: &Vec<usize>) -> (r: bool)
    ensures
        r == adjacent(p@, q@),
{
    if p.len() != q.len() {
        return false;
    }
    // Manhattan distance, saturated at two: anything at two or beyond is
    // equally non-adjacent, and the cap keeps the accumulator tiny.
    let mut capped: usize = 0;
    let n = p.len();
    let mut d: usize = 0;
    while d < n
        invariant
            p@.len() == n,
            q@.len() == n,
            0 <= d <= n,
            capped == if l1_distance(p@.take(d as int), q@.take(d as int)) >= 2 {
                2int
            } else {
                l1_distance(p@.take(d as int), q@.take(d as int)) as int
            },
        decreases n - d,
    {
        let step = abs_distance(p[d], q[d]);
        let stepc = if step > 2 {
            2
        } else {
            step
        };
        let next = capped + stepc;
        capped = if next > 2 {
            2
        } else {
            next
        };
        proof {
            let pd = p@.take(d + 1);
            let qd = q@.take(d + 1);
            assert(pd.drop_last() =~= p@.take(d as int));
            assert(qd.drop_last() =~= q@.take(d as int));
            assert(pd.last() == p@[d as int]);
            assert(qd.last() == q@[d as int]);
        }
        d = d + 1;
    }
    proof {
        assert(p@.take(n as int) =~= p@);
        assert(q@.take(n as int) =~= q@);
    }
    capped == 1
}

/// Copies a coordinate tuple.
pub fn copy_point(p: &Vec<usize>) -> (r: Vec<usize>)
    ensures
        r@ == p@,
{
    let mut r: Vec<usize> = Vec::new();
    let n = p.len();
    let mut d: usize = 0;
    while d < n
        invariant
            p@.len() == n,
            0 <= d <= n,
            r@ =~= p@.take(d as int),
        decreases n - d,
    {
        r.push(p[d]);
        proof {
            assert(r@ =~= p@.take(d + 1));
        }
        d = d + 1;
    }
    proof {
        assert(p@.take(n as int) =~= p@);
    }
    r
}

/// Decides whether two coordinate tuples are equal.
pub fn points_equal(p: &Vec<usize>, q: &Vec<usize>) -> (r: bool)
    ensures
        r == (p@ == q@),
{
    if p.len() != q.len() {
        proof {
            assert(p@ != q@);
        }
        return false;
    }
    let n = p.len();
    let mut d: usize = 0;
    while d < n
        invariant
            p@.len() == n,
            q@.len() == n,
            0 <= d <= n,
            forall|k: int| 0 <= k < d ==> p@[k] == q@[k],
        decreases n - d,
    {
        if p[d] != q[d] {
            return false;
        }
        d = d + 1;
    }
    proof {
        assert(p@ =~= q@);
    }
    true
}

/// An N-dimensional discrete index space with a fixed per-axis extent.
pub struct Lattice {
    /// Number of axes.
    pub dimension: usize,
    /// Extent of each axis; a point's coordinate on axis `d` ranges over
    /// `[0, size[d])`.
    pub size: Vec<usize>,
}

impl Lattice {
    /// The lattice invariant: a positive number of axes, one positive extent
    /// per axis, and a total point count within the machine limit.
    pub open spec fn wf(self) -> bool {
        &&& self.dimension >= 1
        &&& self.size@.len() == self.dimension
        &&& extents_positive(self.size@)
        &&& count_of(self.size@) <= MAX_POINTS
    }

    /// Total number of valid points.
    pub open spec fn count(self) -> nat {
        count_of(self.size@)
    }

    /// Whether `p` is a valid point of this lattice.
    pub open spec fn valid(self, p: Seq<usize>) -> bool {
        valid_point(self.size@, p)
    }

    /// A lattice with the given number of axes and no extents yet; callers
    /// supply the extents through `set_size`.
    pub fn new(dimension: usize) -> (r: Lattice)
        requires
            dimension >= 1,
        ensures
            r.dimension == dimension,
            r.size@ == Seq::<usize>::empty(),
    {
        Lattice { dimension, size: Vec::new() }
    }

    /// Replaces the per-axis extents; rejects an extent vector whose length
    /// disagrees with the declared dimension.
    pub fn set_size(&mut self, size: Vec<usize>) -> (r: Result<(), Error>)
        requires
            old(self).dimension >= 1,
            extents_positive(size@),
            count_of(size@) <= MAX_POINTS,
        ensures
            size@.len() != old(self).dimension ==> r == Err::<(), Error>(Error::DimensionMismatch)
                && *final(self) == *old(self),
            size@.len() == old(self).dimension ==> r == Ok::<(), Error>(())
                && final(self).dimension == old(self).dimension && final(self).size@ == size@
                && final(self).wf(),
    {
        if size.len() != self.dimension {
            return Err(Error::DimensionMismatch);
        }
        self.size = size;
        Ok(())
    }

    /// Two lattices describe the same index space.
    pub open spec fn agrees(self, other: Lattice) -> bool {
        self.dimension == other.dimension && self.size@ == other.size@
    }

    /// A copy of this lattice.
    pub fn duplicate(&self) -> (r: Lattice)
        ensures
            r.agrees(*self),
    {
        Lattice { dimension: self.dimension, size: copy_point(&self.size) }
    }

    /// Decides validity of a point for this lattice.
    pub fn is_valid(&self, p: &Vec<usize>) -> (r: bool)
        ensures
            r == self.valid(p@),
    {
        if p.len() != self.size.len() {
            return false;
        }
        let n = p.len();
        let mut d: usize = 0;
        while d < n
            invariant
                p@.len() == n,
                self.size@.len() == n,
                0 <= d <= n,
                forall|k: int| 0 <= k < d ==> #[trigger] p@[k] < self.size@[k],
            decreases n - d,
        {
            if p[d] >= self.size[d] {
                return false;
            }
            d = d + 1;
        }
        true
    }

    /// The row-major index of a valid point.
    pub fn point_index(&self, p: &Vec<usize>) -> (r: usize)
        requires
            self.wf(),
            self.valid(p@),
        ensures
            r == index_of(self.size@, p@),
            r < self.count(),
    {
        let n = self.size.len();
        let mut acc: usize = 0;
        let mut d: usize = 0;
        proof {
            assert(self.size@.take(0) =~= Seq::<usize>::empty());
            assert(p@.take(0) =~= Seq::<usize>::empty());
        }
        while d < n
            invariant
                self.wf(),
                self.valid(p@),
                self.size@.len() == n,
                p@.len() == n,
                0 <= d <= n,
                acc == index_of(self.size@.take(d as int), p@.take(d as int)),
                acc < count_of(self.size@.take(d as int)),
                count_of(self.size@.take(d as int)) <= MAX_POINTS,
            decreases n - d,
        {
            proof {
                let et = self.size@.take(d + 1);
                let pt = p@.take(d + 1);
                assert(et.drop_last() =~= self.size@.take(d as int));
                assert(pt.drop_last() =~= p@.take(d as int));
                assert(et.last() == self.size@[d as int]);
                assert(pt.last() == p@[d as int]);
                assert(valid_point(et, pt));
                lemma_index_of_bounds(et, pt);
                assert(extents_positive(self.size@));
                lemma_count_of_take(self.size@, d + 1);
                assert(self.size@.take(n as int) =~= self.size@);
            }
            acc = acc * self.size[d] + p[d];
            d = d + 1;
        }
        proof {
            assert(self.size@.take(n as int) =~= self.size@);
            assert(p@.take(n as int) =~= p@);
        }
        acc
    }

    /// Every valid point of the lattice, in row-major order.
    pub fn all_points(&self) -> (r: Vec<Vec<usize>>)
        requires
            self.wf(),
        ensures
            r@.len() == self.count(),
            forall|i: int| 0 <= i < r@.len() ==> #[trigger] r@[i]@ == point_at(self.size@, i),
    {
        cartesian_points(&self.size)
    }
}

/// Relies on itertools' `multi_cartesian_product`: over the per-axis ranges
/// `0..extent[d]` it yields every coordinate tuple of the product space
/// exactly once, in lexicographic order with the last axis varying fastest --
/// that is, the tuple at position `i` is `point_at(extent, i)`.
#[verifier::external_body]
fn cartesian_points(extent: &Vec<usize>) -> (r: Vec<Vec<usize>>)
    requires
        extent@.len() >= 1,
        count_of(extent@) <= MAX_POINTS,
    ensures
        r@.len() == count_of(extent@),
        forall|i: int| 0 <= i < r@.len() ==> #[trigger] r@[i]@ == point_at(extent@, i),
{
    (0..extent.len()).map(|d| 0..extent[d]).multi_cartesian_product().collect()
}

} // verus!
