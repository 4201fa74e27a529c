//! A MIR interpreter, so far for one thread and scalars only.
//!
//! What it covers is the shape a kernel body actually has once the compiler is
//! done with it: locals, assignments, checked arithmetic with its overflow
//! assertions, comparisons, switches, and casts. Memory with provenance, calls
//! and the SIMT layer are not covered.

pub mod driver;
pub mod fixtures;
pub mod interp;
pub mod kinds;
pub mod laws;
pub mod ops;
pub mod syntax;
pub mod value;
