//! Compiler passes and witness-solving engine for arithmetic circuits.
//!
//! A circuit is an ordered sequence of opcodes over a fixed prime field.
//! The compiler rewrites the circuit into the shape a proving backend can
//! consume; the solving engine binds the remaining unknown witnesses by
//! replaying the opcodes against a growing partial assignment.

use vstd::prelude::*;

pub mod field;
pub mod ir;
pub mod compiler;
pub mod pwg;
pub mod brillig;

verus! {

/// The structural constraint language a proving backend accepts: either
/// rank-1 constraint systems (degree bound only) or a PLONK-style system
/// with a fixed bound on the number of linear terms per constraint.
#[derive(Clone, Copy, PartialEq, Eq, Structural, Debug)]
pub enum Language {
    R1CS,
    PLONKCSat { width: usize },
}

} // verus!
