//! Modular scalar addition in both execution domains: a native evaluator over
//! canonical residues, and a circuit evaluator that performs the conditional
//! modular reduction while a counter accumulates the emitted resource costs.
//!
//! The scalar field is the Mersenne prime 2^61 - 1; intermediate sums are
//! carried in the strictly larger base field (2^127 - 1), so a raw sum of two
//! canonical residues can never alias across the scalar modulus.

use vstd::prelude::*;
use crate::mode::{Mode, Count, spec_add_count, spec_add_output_mode};
use crate::num::{bits_val, u128_to_bits_le, bits_le_to_u128, lemma_pow2_127};
use vstd::arithmetic::power2::pow2;

verus! {

/// The scalar field modulus, 2^61 - 1 (prime). Scalar values at rest are
/// canonical residues strictly below it.
pub const SCALAR_MODULUS: u64 = 0x1fff_ffff_ffff_ffff;

/// The bit width of the scalar field.
pub const SCALAR_BITS: usize = 61;

/// The base field modulus, 2^127 - 1 (prime): strictly larger than twice the
/// scalar modulus, so the raw sum of two canonical scalars fits without
/// wrapping.
pub const BASE_MODULUS: u128 = 0x7fff_ffff_ffff_ffff_ffff_ffff_ffff_ffff;

/// Modular addition over the scalar field.
pub open spec fn spec_scalar_add(u: u64, v: u64) -> nat {
    ((u + v) as nat) % (SCALAR_MODULUS as nat)
}

/// Native scalar addition: the sum of two canonical residues, reduced to a
/// canonical residue.
pub fn scalar_add(u: u64, v: u64) -> (r: u64)
    requires
        u < SCALAR_MODULUS,
        v < SCALAR_MODULUS,
    ensures
        r as nat == spec_scalar_add(u, v),
        r < SCALAR_MODULUS,
{
    let s: u64 = u + v;
    let ghost m: nat = SCALAR_MODULUS as nat;
    if s >= SCALAR_MODULUS {
        proof {
            assert(((s - SCALAR_MODULUS) as nat + m) % m == ((s - SCALAR_MODULUS) as nat) % m)
                by (nonlinear_arith)
                requires
                    m > 0,
            ;
            assert(((s - SCALAR_MODULUS) as nat) % m == (s - SCALAR_MODULUS) as nat)
                by (nonlinear_arith)
                requires
                    m > 0,
                    ((s - SCALAR_MODULUS) as nat) < m,
            ;
        }
        s - SCALAR_MODULUS
    } else {
        proof {
            assert((s as nat) % m == s as nat) by (nonlinear_arith)
                requires
                    m > 0,
                    (s as nat) < m,
            ;
        }
        s
    }
}

/// Scalar addition is commutative: the two operand orders give the same
/// canonical residue, in the native domain and therefore, by the fidelity
/// contract of `Counter::scalar_add`, in the circuit domain as well.
pub proof fn lemma_scalar_add_commutes(u: u64, v: u64)
    ensures
        spec_scalar_add(u, v) == spec_scalar_add(v, u),
{
}

/// A circuit scalar: the visibility mode, the canonical residue carried by
/// the symbolic variable, and the lazily memoized little-endian bit
/// decomposition (computed once by the operation that produced the value,
/// never invalidated, because values are immutable after construction).
pub struct CircuitScalar {
    pub mode: Mode,
    pub value: u64,
    pub bits_le: Option<Vec<bool>>,
}

impl CircuitScalar {
    /// Well-formedness: the residue is canonical, and a cached bit
    /// decomposition is exactly the `SCALAR_BITS`-bit decomposition of it.
    pub open spec fn wf(self) -> bool {
        &&& self.value < SCALAR_MODULUS
        &&& match self.bits_le {
            Some(bits) => bits@.len() == SCALAR_BITS && bits_val(bits@) == self.value as nat,
            None => true,
        }
    }

    /// Injects a plain scalar into the circuit domain under the given mode.
    pub fn new(mode: Mode, value: u64) -> (r: CircuitScalar)
        requires
            value < SCALAR_MODULUS,
        ensures
            r.wf(),
            r.mode == mode,
            r.value == value,
    {
        CircuitScalar { mode, value, bits_le: None }
    }

    /// Ejects the plain value: the projection of the symbolic variable back
    /// into the native domain.
    pub fn eject_value(&self) -> (r: u64)
        ensures
            r == self.value,
    {
        self.value
    }

    /// Ejects the mode of the symbolic variable.
    pub fn eject_mode(&self) -> (r: Mode)
        ensures
            r == self.mode,
    {
        self.mode
    }

    pub open spec fn is_constant(self) -> bool {
        self.mode is Constant
    }
}

/// The resource counter of one circuit under construction: how many constant,
/// public and private variables, and how many constraints, have been emitted.
pub struct Counter {
    pub constants: u64,
    pub public: u64,
    pub private: u64,
    pub constraints: u64,
}

impl Counter {
    /// The counter moved from `pre` to `post` by exactly the declared cost `c`.
    pub open spec fn delta(pre: Counter, post: Counter, c: Count) -> bool {
        &&& post.constants == pre.constants + c.constants
        &&& post.public == pre.public + c.public
        &&& post.private == pre.private + c.private
        &&& post.constraints == pre.constraints + c.constraints
    }

    /// Headroom for one primitive operation.
    pub open spec fn headroom(self) -> bool {
        &&& self.constants <= u64::MAX - 200
        &&& self.public <= u64::MAX - 200
        &&& self.private <= u64::MAX - 200
        &&& self.constraints <= u64::MAX - 200
    }

    /// Headroom for one whole instruction.
    pub open spec fn op_headroom(self) -> bool {
        &&& self.constants <= u64::MAX - 1000
        &&& self.public <= u64::MAX - 1000
        &&& self.private <= u64::MAX - 1000
        &&& self.constraints <= u64::MAX - 1000
    }

    /// A fresh counter for a new circuit: nothing emitted yet.
    pub fn new() -> (r: Counter)
        ensures
            r.constants == 0,
            r.public == 0,
            r.private == 0,
            r.constraints == 0,
    {
        Counter { constants: 0, public: 0, private: 0, constraints: 0 }
    }

    /// Injects a constant base-field variable: one constant allocated, no
    /// constraints.
    pub fn inject_constant(&mut self, x: u128) -> (r: u128)
        requires
            old(self).headroom(),
            x < BASE_MODULUS,
        ensures
            r == x,
            Counter::delta(*old(self), *final(self), Count::spec_new(1, 0, 0, 0)),
    {
        self.constants = self.constants + 1;
        x
    }

    /// Adds two base-field variables. The sum must stay below the base
    /// modulus, so the addition is a plain linear combination: no variables
    /// and no constraints are emitted.
    pub fn field_add(&mut self, a: u128, b: u128) -> (r: u128)
        requires
            a + b < BASE_MODULUS,
        ensures
            r == a + b,
            Counter::delta(*old(self), *final(self), Count::spec_new(0, 0, 0, 0)),
    {
        a + b
    }

    /// Subtracts two base-field variables, modulo the base modulus: a plain
    /// linear combination, no variables and no constraints.
    pub fn field_sub(&mut self, a: u128, b: u128) -> (r: u128)
        requires
            a < BASE_MODULUS,
            b < BASE_MODULUS,
        ensures
            r < BASE_MODULUS,
            b <= a ==> r == a - b,
            b > a ==> r == a + BASE_MODULUS - b,
            Counter::delta(*old(self), *final(self), Count::spec_new(0, 0, 0, 0)),
    {
        if a >= b {
            a - b
        } else {
            a + (BASE_MODULUS - b)
        }
    }

    /// Decomposes a base-field variable into its `n` low little-endian bits:
    /// one private variable and one bit constraint per bit, plus the one
    /// constraint tying the recomposition back to the input.
    pub fn to_lower_bits_le(&mut self, x: u128, n: usize) -> (r: Vec<bool>)
        requires
            old(self).headroom(),
            n <= 127,
            (x as nat) < pow2(n as nat),
        ensures
            r@.len() == n,
            bits_val(r@) == x as nat,
            Counter::delta(
                *old(self),
                *final(self),
                Count::spec_new(0, 0, n as u64, (n + 1) as u64),
            ),
    {
        self.private = self.private + (n as u64);
        self.constraints = self.constraints + (n as u64) + 1;
        u128_to_bits_le(x, n)
    }

    /// Recomposes a base-field variable from little-endian bits: a plain
    /// linear combination, no variables and no constraints.
    pub fn from_bits_le(&mut self, bits: &Vec<bool>) -> (r: u128)
        requires
            bits@.len() <= 127,
        ensures
            r as nat == bits_val(bits@),
            Counter::delta(*old(self), *final(self), Count::spec_new(0, 0, 0, 0)),
    {
        bits_le_to_u128(bits)
    }

    /// Compares two base-field variables known to be scalar-width: one
    /// private variable and one constraint per scalar bit.
    pub fn is_less_than(&mut self, a: u128, b: u128) -> (r: bool)
        requires
            old(self).headroom(),
        ensures
            r == (a < b),
            Counter::delta(
                *old(self),
                *final(self),
                Count::spec_new(0, 0, SCALAR_BITS as u64, SCALAR_BITS as u64),
            ),
    {
        self.private = self.private + (SCALAR_BITS as u64);
        self.constraints = self.constraints + (SCALAR_BITS as u64);
        a < b
    }

    /// Selects between two base-field variables by a boolean: one private
    /// variable and one selection constraint.
    pub fn ternary(&mut self, cond: bool, a: u128, b: u128) -> (r: u128)
        requires
            old(self).headroom(),
        ensures
            r == if cond {
                a
            } else {
                b
            },
            Counter::delta(*old(self), *final(self), Count::spec_new(0, 0, 1, 1)),
    {
        self.private = self.private + 1;
        self.constraints = self.constraints + 1;
        if cond {
            a
        } else {
            b
        }
    }

    /// Circuit scalar addition. If both operands are constants the sum is
    /// computed directly and injected as a new constant. Otherwise both
    /// operands are lifted into the base field, summed, decomposed into
    /// `SCALAR_BITS + 1` bits (the extra bit is the carry), recomposed, and
    /// conditionally reduced by the scalar modulus via a less-than comparison
    /// and a ternary selection; the canonical bit decomposition of the result
    /// is cached on it.
    ///
    /// The contract is the full fidelity contract of the primitive: the
    /// ejected value equals native addition, the output mode is the declared
    /// output-mode function of the input modes, and the counter moves by
    /// exactly the declared cost table, for every mode combination.
    pub fn scalar_add(&mut self, x: &CircuitScalar, y: &CircuitScalar) -> (r: CircuitScalar)
        requires
            old(self).op_headroom(),
            x.wf(),
            y.wf(),
        ensures
            r.wf(),
            r.value as nat == spec_scalar_add(x.value, y.value),
            r.mode == spec_add_output_mode(x.mode, y.mode),
            Counter::delta(*old(self), *final(self), spec_add_count(x.mode, y.mode)),
    {
        let combined = x.eject_mode().combine(y.eject_mode());
        if matches!(combined, Mode::Constant) {
            let sum = scalar_add(x.eject_value(), y.eject_value());
            let _injected: u128 = self.inject_constant(sum as u128);
            CircuitScalar { mode: Mode::Constant, value: sum, bits_le: None }
        } else {
            proof {
                lemma_pow2_127();
            }
            // Lift both scalars into the base field and sum them there; the
            // raw sum cannot alias across the scalar modulus.
            let sum = self.field_add(x.eject_value() as u128, y.eject_value() as u128);
            // Extract the scalar-width bits plus one carry bit, and recover
            // the sanitized sum from them.
            let carry_bits = self.to_lower_bits_le(sum, SCALAR_BITS + 1);
            let recovered = self.from_bits_le(&carry_bits);
            // The scalar modulus as a constant base-field variable.
            let modulus = self.inject_constant(SCALAR_MODULUS as u128);
            // Conditional modular reduction: select the sum or the sum minus
            // the modulus, whichever is the canonical residue.
            let below = self.is_less_than(recovered, modulus);
            let reduced = self.field_sub(recovered, modulus);
            let wrapped = self.ternary(below, recovered, reduced);
            // Cache the canonical bit decomposition on the result.
            proof {
                let m = SCALAR_MODULUS as nat;
                let s = (x.value + y.value) as nat;
                if s < m {
                    assert(s % m == s) by (nonlinear_arith)
                        requires
                            m > 0,
                            s < m,
                    ;
                } else {
                    assert(((s - m) as nat + m) % m == ((s - m) as nat) % m) by (nonlinear_arith)
                        requires
                            m > 0,
                    ;
                    assert(((s - m) as nat) % m == (s - m) as nat) by (nonlinear_arith)
                        requires
                            m > 0,
                            ((s - m) as nat) < m,
                    ;
                }
            }
            let out_bits = self.to_lower_bits_le(wrapped, SCALAR_BITS);
            CircuitScalar {
                mode: Mode::Private,
                value: wrapped as u64,
                bits_le: Some(out_bits),
            }
        }
    }
}

} // verus!
