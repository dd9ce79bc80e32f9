//! Exact simulation of a multi-qubit quantum register.
//!
//! Amplitudes are kept in the ring of cyclotomic integers Z[omega] with
//! omega = e^(i*pi/4), in which every gate of the catalog has an entry-wise
//! exact matrix up to a positive real scalar.  The stored amplitude vector
//! therefore determines the physical state as its unit-norm scaling, and all
//! gate applications and measurement collapses are exact integer arithmetic.

pub mod bigint;
pub mod circuit;
pub mod complex;
pub mod embed;
pub mod gate;
pub mod laws;
pub mod linalg;
