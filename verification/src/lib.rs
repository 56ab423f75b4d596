//! Algebra toolkit for lattice-based cryptosystems of the Kyber family:
//! modular scalar arithmetic, arithmetic over the cyclotomic quotient ring
//! Z/pZ[X]/(X^n + 1), and generic matrix operations over ring-like entries.

pub mod arithmetic;
pub mod kyberpoly;
pub mod matrix;
pub mod ring;
