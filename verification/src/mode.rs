//! The visibility lattice of circuit values, and the declared resource cost
//! of the scalar addition primitive.

use vstd::prelude::*;

verus! {

/// Visibility / knowledge classification of a circuit value.
#[derive(Clone, Copy, Debug, PartialEq, Eq, Structural)]
pub enum Mode {
    /// Known to the circuit at build time.
    Constant,
    /// Known to the verifier.
    Public,
    /// Known only to the prover.
    Private,
}

impl Mode {
    /// The combination rule for a binary arithmetic primitive: the result is
    /// Constant only if both operands are Constant, otherwise Private.
    /// Public is never produced by a binary arithmetic combination.
    pub open spec fn spec_combine(self, other: Mode) -> Mode {
        if self is Constant && other is Constant {
            Mode::Constant
        } else {
            Mode::Private
        }
    }

    /// Combines two operand modes into the output mode of a binary
    /// arithmetic primitive.
    pub fn combine(self, other: Mode) -> (r: Mode)
        ensures
            r == self.spec_combine(other),
    {
        match (self, other) {
            (Mode::Constant, Mode::Constant) => Mode::Constant,
            (_, _) => Mode::Private,
        }
    }

    pub open spec fn is_constant(self) -> bool {
        self is Constant
    }
}

/// A fixed tuple of resource counts declared by a circuit primitive:
/// auxiliary constants, public inputs, private inputs, and constraints.
#[derive(Clone, Copy, Debug, PartialEq, Eq, Structural)]
pub struct Count {
    pub constants: u64,
    pub public: u64,
    pub private: u64,
    pub constraints: u64,
}

impl Count {
    pub open spec fn spec_new(constants: u64, public: u64, private: u64, constraints: u64) -> Count {
        Count { constants, public, private, constraints }
    }

    pub fn new(constants: u64, public: u64, private: u64, constraints: u64) -> (r: Count)
        ensures
            r == Count::spec_new(constants, public, private, constraints),
    {
        Count { constants, public, private, constraints }
    }
}

/// The output-mode function declared for scalar addition: a pure function of
/// the input-mode pair, independent of the operands' values.
pub open spec fn spec_add_output_mode(a: Mode, b: Mode) -> Mode {
    a.spec_combine(b)
}

/// Returns the declared output mode of scalar addition for a pair of
/// operand modes: Constant only for Constant + Constant, otherwise Private.
pub fn add_output_mode(a: Mode, b: Mode) -> (r: Mode)
    ensures
        r == spec_add_output_mode(a, b),
{
    match (a, b) {
        (Mode::Constant, Mode::Constant) => Mode::Constant,
        (_, _) => Mode::Private,
    }
}

/// The declared cost table for scalar addition. For Constant + Constant the
/// cost is one allocated constant and zero constraints; for any other mode
/// pair it is the fixed non-zero cost of the conditional modular reduction.
pub open spec fn spec_add_count(a: Mode, b: Mode) -> Count {
    if a is Constant && b is Constant {
        Count::spec_new(1, 0, 0, 0)
    } else {
        Count::spec_new(1, 0, 185, 187)
    }
}

/// Returns the declared cost of scalar addition for a pair of operand modes.
pub fn add_count(a: Mode, b: Mode) -> (r: Count)
    ensures
        r == spec_add_count(a, b),
{
    match (a, b) {
        (Mode::Constant, Mode::Constant) => Count::new(1, 0, 0, 0),
        (_, _) => Count::new(1, 0, 185, 187),
    }
}

/// The mode combination is commutative, and so are the declared output-mode
/// and cost functions of scalar addition: swapping the operand modes never
/// changes the declared output mode or cost.
pub proof fn lemma_mode_tables_commutative(a: Mode, b: Mode)
    ensures
        a.spec_combine(b) == b.spec_combine(a),
        spec_add_output_mode(a, b) == spec_add_output_mode(b, a),
        spec_add_count(a, b) == spec_add_count(b, a),
{
}

} // verus!
