//! Execution core of a register-indexed zero-knowledge virtual machine.
//!
//! A program runs twice in lockstep: once over concrete values to produce a
//! result, and once over symbolic circuit variables to produce a constraint
//! system proving that result correct, under a three-level visibility
//! discipline (constant / public / private). This crate verifies the fidelity
//! contract between the two domains: the mode lattice and its propagation
//! through modular scalar addition, register addressing, the dual-domain
//! register file with its load/store/type-check contract, and the value
//! serialization contract (text, compact binary, and framed binary forms).

pub mod bytes;
pub mod ident;
pub mod mode;
pub mod puzzle;
pub mod register;
pub mod registers;
pub mod num;
pub mod scalar;
pub mod strings;
pub mod text;
pub mod types;
pub mod value;

use vstd::prelude::*;

verus! {

/// The error taxonomy of the execution core. Every failure is terminal for
/// the current instruction and propagates as a hard failure of the enclosing
/// function activation.
#[derive(Clone, Copy, Debug, PartialEq, Eq, Structural)]
pub enum VmError {
    /// A register locator was never stored, or the register is not declared
    /// for the current function.
    UndefinedRegister,
    /// A path segment is absent in the target struct or record.
    PathNotFound,
    /// A resolved value's shape disagrees with the declared register type.
    TypeMismatch,
    /// Malformed register or value text.
    ParseError,
    /// A locator was stored twice in one function activation.
    DoubleAssignment,
}

} // verus!
