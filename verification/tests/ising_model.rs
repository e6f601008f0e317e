use jiki::error::Error;
use jiki::ising::{Ising, Spin};
use jiki::lattice::{abs_distance, Lattice};
use jiki::rational::Rational;

fn line_lattice(len: usize) -> Lattice {
    let mut lat = Lattice::new(1);
    lat.set_size(vec![len]).unwrap();
    lat
}

fn grid_lattice(rows: usize, cols: usize) -> Lattice {
    let mut lat = Lattice::new(2);
    lat.set_size(vec![rows, cols]).unwrap();
    lat
}

fn room_temperature() -> Rational {
    Rational::from_int(300)
}

#[test]
fn abs_distance_both_orders() {
    assert_eq!(abs_distance(7, 3), 4);
    assert_eq!(abs_distance(3, 7), 4);
    assert_eq!(abs_distance(5, 5), 0);
}

#[test]
fn set_size_rejects_wrong_length() {
    let mut lat = Lattice::new(2);
    assert_eq!(lat.set_size(vec![3]), Err(Error::DimensionMismatch));
    assert_eq!(lat.set_size(vec![3, 4]), Ok(()));
}

#[test]
fn all_points_row_major_order() {
    // Exercises the Cartesian-product enumeration: exactly the four points
    // of a 2x2 grid, last axis fastest.
    let lat = grid_lattice(2, 2);
    let pts = lat.all_points();
    assert_eq!(
        pts,
        vec![vec![0, 0], vec![0, 1], vec![1, 0], vec![1, 1]]
    );
}

#[test]
fn is_valid_checks_length_and_bounds() {
    let lat = grid_lattice(2, 3);
    assert!(lat.is_valid(&vec![1, 2]));
    assert!(!lat.is_valid(&vec![2, 0]));
    assert!(!lat.is_valid(&vec![0, 3]));
    assert!(!lat.is_valid(&vec![0]));
    assert!(!lat.is_valid(&vec![0, 0, 0]));
}

#[test]
fn set_get_round_trip() {
    let mut model = Ising::new(line_lattice(4), 1, 0, room_temperature());
    for i in 0..4usize {
        assert_eq!(model.get_spin(&vec![i]).unwrap(), Spin::Up);
    }
    assert_eq!(model.set_spin(&vec![2], Spin::Down), Ok(()));
    assert_eq!(model.get_spin(&vec![2]).unwrap(), Spin::Down);
    assert_eq!(model.get_spin(&vec![1]).unwrap(), Spin::Up);
    assert_eq!(model.set_spin(&vec![2], Spin::Up), Ok(()));
    assert_eq!(model.get_spin(&vec![2]).unwrap(), Spin::Up);
}

#[test]
fn spin_access_out_of_bounds() {
    let mut model = Ising::new(line_lattice(4), 1, 0, room_temperature());
    assert_eq!(model.get_spin(&vec![4]), Err(Error::OutOfBounds));
    assert_eq!(model.set_spin(&vec![4], Spin::Down), Err(Error::OutOfBounds));
    assert_eq!(model.get_spin(&vec![0, 0]), Err(Error::OutOfBounds));
    assert!(model.local_energy(&vec![9]).is_err());
    assert_eq!(model.correlation(&vec![9]).unwrap_err(), Error::OutOfBounds);
    assert_eq!(
        model.nearest_neighbor(&vec![9]).unwrap_err(),
        Error::OutOfBounds
    );
}

#[test]
fn neighbors_symmetric() {
    let model = Ising::new(grid_lattice(2, 3), 1, 0, room_temperature());
    let pts = model.lattice.all_points();
    for p in &pts {
        let np = model.nearest_neighbor(p).unwrap();
        for q in &pts {
            let nq = model.nearest_neighbor(q).unwrap();
            assert_eq!(np.contains(q), nq.contains(p));
        }
    }
}

#[test]
fn neighbors_of_interior_and_corner() {
    let model = Ising::new(grid_lattice(2, 2), 1, 0, room_temperature());
    let mut n00 = model.nearest_neighbor(&vec![0, 0]).unwrap();
    n00.sort();
    assert_eq!(n00, vec![vec![0, 1], vec![1, 0]]);

    let line = Ising::new(line_lattice(4), 1, 0, room_temperature());
    let mut n1 = line.nearest_neighbor(&vec![1]).unwrap();
    n1.sort();
    assert_eq!(n1, vec![vec![0], vec![2]]);
    let n0 = line.nearest_neighbor(&vec![0]).unwrap();
    assert_eq!(n0, vec![vec![1]]);
}

#[test]
fn total_energy_line_of_four() {
    // Three bonds, each contributing -1; no field term.
    let model = Ising::new(line_lattice(4), 1, 0, room_temperature());
    assert_eq!(model.total_energy(), -3);
}

#[test]
fn local_energy_exact_values() {
    let model = Ising::new(line_lattice(4), 2, 3, room_temperature());
    // Interior point: -h*1 - J*(1*1 + 1*1) = -3 - 4 = -7.
    assert_eq!(model.local_energy(&vec![1]).unwrap(), -7);
    // Boundary point has one neighbour: -3 - 2 = -5.
    assert_eq!(model.local_energy(&vec![0]).unwrap(), -5);
}

#[test]
fn total_energy_counts_each_bond_once() {
    // A 2x3 grid with free boundaries has 7 bonds; all spins up, J=1, h=0.
    let model = Ising::new(grid_lattice(2, 3), 1, 0, room_temperature());
    assert_eq!(model.total_energy(), -7);
    // The naive sum of local energies would give twice that.
    let mut naive: i128 = 0;
    for p in model.lattice.all_points() {
        naive += model.local_energy(&p).unwrap();
    }
    assert_eq!(naive, -14);
}

#[test]
fn magnetization_all_up_is_one() {
    for model in [
        Ising::new(line_lattice(5), 1, 0, room_temperature()),
        Ising::new(grid_lattice(3, 2), 2, 1, room_temperature()),
    ] {
        let m = model.magnetization();
        assert!(m.equals_int(1));
    }
}

#[test]
fn magnetization_alternating_is_zero() {
    let mut model = Ising::new(line_lattice(6), 1, 0, room_temperature());
    for i in 0..6usize {
        if i % 2 == 1 {
            model.set_spin(&vec![i], Spin::Down).unwrap();
        }
    }
    let m = model.magnetization();
    assert!(m.equals_int(0));
    assert_eq!(m.num, 0);
    assert_eq!(m.den, 6);
}

#[test]
fn correlation_exact_value() {
    let mut model = Ising::new(line_lattice(4), 1, 0, room_temperature());
    model.set_spin(&vec![0], Spin::Down).unwrap();
    // At point 1: neighbours 0 and 2, alignment sum 0, spin sum 2, N=4, k=2:
    // num = 0*16 - 4*2 = -8, den = 2*16 = 32, i.e. -1/4.
    let c = model.correlation(&vec![1]).unwrap();
    assert_eq!(c.num, -8);
    assert_eq!(c.den, 32);
}

#[test]
fn correlation_needs_a_neighbor() {
    let mut lat = Lattice::new(1);
    lat.set_size(vec![1]).unwrap();
    let model = Ising::new(lat, 1, 0, room_temperature());
    assert_eq!(model.correlation(&vec![0]).unwrap_err(), Error::NoNeighbors);
}

#[test]
fn metropolis_keeps_favorable_flip() {
    // With J = -1 and all spins up, flipping any spin lowers the energy, so
    // the flip is kept whatever the acceptance verdict says.
    let mut model = Ising::new(line_lattice(4), -1, 0, room_temperature());
    model.metropolis_stepper(&vec![1], false).unwrap();
    assert_eq!(model.get_spin(&vec![1]).unwrap(), Spin::Down);
}

#[test]
fn metropolis_unfavorable_flip_follows_verdict() {
    // With J = 1 and all spins up, flipping raises the energy: the flip is
    // kept exactly when the caller's acceptance verdict is positive.
    let mut model = Ising::new(line_lattice(4), 1, 0, room_temperature());
    model.metropolis_stepper(&vec![1], false).unwrap();
    assert_eq!(model.get_spin(&vec![1]).unwrap(), Spin::Up);
    model.metropolis_stepper(&vec![1], true).unwrap();
    assert_eq!(model.get_spin(&vec![1]).unwrap(), Spin::Down);
    assert_eq!(
        model.metropolis_stepper(&vec![7], true),
        Err(Error::OutOfBounds)
    );
}

#[test]
fn metropolis_preserves_spin_domain() {
    let mut model = Ising::new(grid_lattice(2, 2), 1, 0, room_temperature());
    assert_eq!(model.spins.len(), 4);
    for step in 0..20 {
        let site = model.propose_site();
        assert!(model.lattice.is_valid(&site));
        model.metropolis_stepper(&site, step % 2 == 0).unwrap();
        // The spin count and the domain never change: every valid point
        // still answers, every invalid one is still refused.
        assert_eq!(model.spins.len(), 4);
        for p in model.lattice.all_points() {
            assert!(model.get_spin(&p).is_ok());
        }
        assert_eq!(model.get_spin(&vec![2, 0]), Err(Error::OutOfBounds));
    }
}

#[test]
fn propose_site_on_single_point_lattice() {
    // Exercises the random draw: on a one-point lattice the only value the
    // range admits is zero on each axis.
    let mut lat = Lattice::new(2);
    lat.set_size(vec![1, 1]).unwrap();
    let model = Ising::new(lat, 1, 0, room_temperature());
    for _ in 0..5 {
        assert_eq!(model.propose_site(), vec![0, 0]);
    }
}

#[test]
fn spin_sets_partition_the_lattice() {
    let mut model = Ising::new(line_lattice(4), 1, 0, room_temperature());
    model.set_spin(&vec![0], Spin::Down).unwrap();
    let up = model.get_up_spin_set();
    let down = model.get_down_spin_set();
    assert_eq!(up.len(), 3);
    assert_eq!(down.len(), 1);
    assert!(down.contains_point(&vec![0]));
    assert!(up.contains_point(&vec![1]));
    assert!(!up.contains_point(&vec![0]));
}
