use jiki::error::Error;
use jiki::ising::{Ising, Spin};
use jiki::lattice::Lattice;
use jiki::rational::Rational;
use jiki::sheaf::{glue_sections, Observable, Section, Sheaf};
use jiki::topology::{OpenSet, Topology};

fn line_lattice(len: usize) -> Lattice {
    let mut lat = Lattice::new(1);
    lat.set_size(vec![len]).unwrap();
    lat
}

fn grid2x2() -> Lattice {
    let mut lat = Lattice::new(2);
    lat.set_size(vec![2, 2]).unwrap();
    lat
}

fn open_set(points: Vec<Vec<usize>>) -> OpenSet {
    let mut s = OpenSet::new();
    for p in &points {
        s.insert_copy(p);
    }
    s
}

fn section(points: Vec<Vec<usize>>, values: Vec<i64>) -> Section {
    let vals = values.into_iter().map(Rational::from_int).collect();
    Section { domain: open_set(points), values: vals }
}

fn kelvin() -> Rational {
    Rational::from_int(300)
}

#[test]
fn trivial_sets_are_open() {
    let topo = Topology::new(grid2x2());
    let empty = OpenSet::new();
    let full = OpenSet { points: grid2x2().all_points() };
    assert!(topo.is_open(&empty));
    assert!(topo.is_open(&full));

    let line_topo = Topology::new(line_lattice(5));
    assert!(line_topo.is_open(&OpenSet::new()));
    assert!(line_topo.is_open(&OpenSet { points: line_lattice(5).all_points() }));
}

#[test]
fn openness_is_a_refinement_test() {
    // The full lattice set sits in the basis, and it is neither contained in
    // nor disjoint from a proper nonempty subset, so such a subset is not
    // open against the trivial basis.
    let topo = Topology::new(line_lattice(4));
    let half = open_set(vec![vec![0], vec![1]]);
    assert!(!topo.is_open(&half));
}

#[test]
fn union_and_intersection() {
    let topo = Topology::new(line_lattice(4));
    let a = open_set(vec![vec![0], vec![1]]);
    let b = open_set(vec![vec![1], vec![2]]);
    let u = topo.union(&vec![a, b]);
    assert_eq!(u.len(), 3);
    assert!(u.contains_point(&vec![0]));
    assert!(u.contains_point(&vec![1]));
    assert!(u.contains_point(&vec![2]));
    assert!(!u.contains_point(&vec![3]));

    let a2 = open_set(vec![vec![0], vec![1]]);
    let b2 = open_set(vec![vec![1], vec![2]]);
    let i = topo.intersection(&vec![a2, b2]);
    assert_eq!(i.len(), 1);
    assert!(i.contains_point(&vec![1]));

    let none: Vec<OpenSet> = Vec::new();
    assert_eq!(topo.intersection(&none).len(), 0);
    assert_eq!(topo.union(&none).len(), 0);
}

#[test]
fn neighborhood_and_closure() {
    let mut topo = Topology::new(line_lattice(4));
    topo.add_basis(open_set(vec![vec![0], vec![1]]));
    // Every basis element containing the point joins its neighbourhood; the
    // full lattice set contains every point, so the neighbourhood is full.
    let nb = topo.get_open_neighborhood(&vec![0]);
    assert_eq!(nb.len(), 4);
    // And so the closure of any nonempty set is the whole lattice.
    let cl = topo.closure(&open_set(vec![vec![3]]));
    assert_eq!(cl.len(), 4);
    let cl_empty = topo.closure(&OpenSet::new());
    assert_eq!(cl_empty.len(), 0);
}

#[test]
fn empty_set_is_closed() {
    let topo = Topology::new(line_lattice(4));
    assert!(topo.is_closed(&OpenSet::new()));
    let full = OpenSet { points: line_lattice(4).all_points() };
    assert!(topo.is_closed(&full));
    assert!(!topo.is_closed(&open_set(vec![vec![1]])));
}

#[test]
fn open_set_from_spins_partition() {
    let mut model = Ising::new(line_lattice(4), 1, 0, kelvin());
    model.set_spin(&vec![2], Spin::Down).unwrap();
    let ups = model.topology.open_set_from_spins(&model, Spin::Up);
    let downs = model.topology.open_set_from_spins(&model, Spin::Down);
    assert_eq!(ups.len(), 3);
    assert_eq!(downs.len(), 1);
    assert!(downs.contains_point(&vec![2]));
}

#[test]
fn observable_compute_values() {
    let model = Ising::new(line_lattice(4), 1, 0, kelvin());
    let spin_val = Observable::compute(&model, &vec![1], Observable::Spin).unwrap();
    assert!(spin_val.equals_int(1));
    let energy_val = Observable::compute(&model, &vec![1], Observable::Energy).unwrap();
    assert!(energy_val.equals_int(-2));
    assert_eq!(
        Observable::compute(&model, &vec![9], Observable::Energy),
        Err(Error::OutOfBounds)
    );
}

#[test]
fn glue_merges_agreeing_sections() {
    let a = section(vec![vec![0], vec![1]], vec![10, 11]);
    let b = section(vec![vec![1], vec![2]], vec![11, 12]);
    let glued = glue_sections(&vec![a, b]).unwrap();
    assert_eq!(glued.domain.len(), 3);
    assert!(glued.value_at(&vec![0]).equals_int(10));
    assert!(glued.value_at(&vec![1]).equals_int(11));
    assert!(glued.value_at(&vec![2]).equals_int(12));
}

#[test]
fn glue_rejects_disjoint_sections() {
    let a = section(vec![vec![0]], vec![1]);
    let b = section(vec![vec![3]], vec![4]);
    assert_eq!(glue_sections(&vec![a, b]).unwrap_err(), Error::EmptyOverlap);
    let none: Vec<Section> = Vec::new();
    assert_eq!(glue_sections(&none).unwrap_err(), Error::EmptyOverlap);
}

#[test]
fn glue_rejects_overlap_mismatch() {
    let a = section(vec![vec![0], vec![1]], vec![10, 11]);
    let b = section(vec![vec![1], vec![2]], vec![99, 12]);
    match glue_sections(&vec![a, b]) {
        Err(Error::OverlapMismatch(p)) => assert_eq!(p, vec![1]),
        other => panic!("expected an overlap mismatch, got {:?}", other.is_ok()),
    }
}

#[test]
fn glue_pairwise_matches_glue_at_once() {
    // Three pairwise-overlapping, mutually-agreeing sections sharing the
    // point 1: gluing {A, B} and then the result with C gives the same
    // section as gluing {A, B, C} at once.
    let a = section(vec![vec![0], vec![1]], vec![10, 11]);
    let b = section(vec![vec![1], vec![2]], vec![11, 12]);
    let c = section(vec![vec![1], vec![3]], vec![11, 13]);
    let ab = glue_sections(&vec![a, b]).unwrap();
    let a2 = section(vec![vec![0], vec![1]], vec![10, 11]);
    let b2 = section(vec![vec![1], vec![2]], vec![11, 12]);
    let c2 = section(vec![vec![1], vec![3]], vec![11, 13]);
    let stepwise = glue_sections(&vec![ab, c]).unwrap();
    let at_once = glue_sections(&vec![a2, b2, c2]).unwrap();
    assert!(stepwise.domain.same_set(&at_once.domain));
    for i in 0..at_once.domain.len() {
        let p = at_once.domain.get(i).clone();
        assert_eq!(stepwise.value_at(&p), at_once.value_at(&p));
    }
}

#[test]
fn glue_commutes() {
    let a = section(vec![vec![0], vec![1]], vec![10, 11]);
    let b = section(vec![vec![1], vec![2]], vec![11, 12]);
    let ab = glue_sections(&vec![a, b]).unwrap();
    let a2 = section(vec![vec![0], vec![1]], vec![10, 11]);
    let b2 = section(vec![vec![1], vec![2]], vec![11, 12]);
    let ba = glue_sections(&vec![b2, a2]).unwrap();
    assert!(ab.domain.same_set(&ba.domain));
    for i in 0..ab.domain.len() {
        let p = ab.domain.get(i).clone();
        assert_eq!(ab.value_at(&p), ba.value_at(&p));
    }
}

#[test]
fn restrict_rejects_non_subset() {
    let model = Ising::new(grid2x2(), 1, 0, kelvin());
    let topo = Topology::new(grid2x2());
    let mut sheaf = Sheaf::new(topo, &model);
    let full = OpenSet { points: grid2x2().all_points() };
    let outside = open_set(vec![vec![0, 0], vec![5, 5]]);
    assert_eq!(
        sheaf.restrict_sections(&full, &outside).unwrap_err(),
        Error::NotASubset
    );
}

#[test]
fn restrict_projects_values() {
    let model = Ising::new(line_lattice(4), 1, 0, kelvin());
    let topo = Topology::new(line_lattice(4));
    let mut sheaf = Sheaf::new(topo, &model);
    let full = OpenSet { points: line_lattice(4).all_points() };
    let small = open_set(vec![vec![1], vec![2]]);
    let secs = sheaf.restrict_sections(&full, &small).unwrap();
    assert_eq!(secs.len(), 3);
    // Spin section over the restriction: value one at both points.
    assert!(secs[1].value_at(&vec![1]).equals_int(1));
    assert!(secs[1].value_at(&vec![2]).equals_int(1));
    assert_eq!(secs[0].domain.len(), 2);
    // Energy at the interior point 1 of an all-up line with J=1, h=0.
    assert!(secs[0].value_at(&vec![1]).equals_int(-2));
}

#[test]
fn get_sections_rejects_uncovered_points() {
    let model = Ising::new(grid2x2(), 1, 0, kelvin());
    let topo = Topology::new(grid2x2());
    let mut sheaf = Sheaf::new(topo, &model);
    let stray = open_set(vec![vec![9, 9]]);
    assert_eq!(
        sheaf.get_sections(&stray).unwrap_err(),
        Error::PointNotCovered
    );
}

#[test]
fn sheaf_glue_over_rows() {
    let model = Ising::new(grid2x2(), 1, 0, kelvin());
    let mut topo = Topology::new(grid2x2());
    let row0 = open_set(vec![vec![0, 0], vec![0, 1]]);
    let row1 = open_set(vec![vec![1, 0], vec![1, 1]]);
    topo.add_basis(row0);
    topo.add_basis(row1);
    let sheaf = Sheaf::new(topo, &model);
    // The rows do not intersect: gluing them is refused.
    let rows = vec![
        open_set(vec![vec![0, 0], vec![0, 1]]),
        open_set(vec![vec![1, 0], vec![1, 1]]),
    ];
    assert_eq!(sheaf.glue(&rows).unwrap_err(), Error::EmptyOverlap);
    // A row and the full set share the row: the glue covers the union.
    let full = OpenSet { points: grid2x2().all_points() };
    let mixed = vec![open_set(vec![vec![0, 0], vec![0, 1]]), full];
    let glued = sheaf.glue(&mixed).unwrap();
    assert_eq!(glued.len(), 3);
    assert_eq!(glued[0].domain.len(), 4);
    assert!(glued[1].value_at(&vec![1, 1]).equals_int(1));
}

#[test]
fn end_to_end_grid_scenario() {
    // A 2x2 grid, all spins up, J=1, h=0; basis: full set plus each row.
    let lat = grid2x2();
    let model = Ising::new(lat, 1, 0, kelvin());
    // Four bonds with free boundaries, each contributing -1.
    assert_eq!(model.total_energy(), -4);

    let mut topo = Topology::new(grid2x2());
    topo.add_basis(open_set(vec![vec![0, 0], vec![0, 1]]));
    topo.add_basis(open_set(vec![vec![1, 0], vec![1, 1]]));
    let mut sheaf = Sheaf::new(topo, &model);
    let full = OpenSet { points: grid2x2().all_points() };
    let secs = sheaf.get_sections(&full).unwrap();
    assert_eq!(secs.len(), 3);
    // The spin section over the full set carries the value one everywhere.
    for p in grid2x2().all_points() {
        assert!(secs[1].value_at(&p).equals_int(1));
    }
}
