//! An Ising-type spin model on a discrete, arbitrary-dimensional lattice,
//! with a point-set-topology and sheaf layer over it that expresses locality
//! of derived observables (energy, spin, spin-spin correlation).
//!
//! All observable values are kept exact: spins map to the integers +1 / -1,
//! the coupling and applied-field parameters are integers, and derived
//! quantities (magnetization, correlation, section values) are exact
//! rationals. The only inexact pieces of the whole model -- the Boltzmann
//! acceptance probability `exp(-dE / (k_B T))` and the random draws behind
//! it -- are decided outside the library and handed in as plain values.

pub mod error;
pub mod ising;
pub mod lattice;
pub mod rational;
pub mod sheaf;
pub mod topology;

pub use error::Error;
pub use lattice::abs_distance;
pub use lattice::Lattice;
