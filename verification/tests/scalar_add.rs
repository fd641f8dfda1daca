//! Scalar addition in both domains, over all nine mode combinations: the
//! ejected circuit value equals native addition, addition commutes, the
//! emitted counts match the declared cost table, and the output mode matches
//! the declared output-mode function.

use zkvm_core::mode::{Mode, add_count, add_output_mode};
use zkvm_core::scalar::{scalar_add, CircuitScalar, Counter, SCALAR_MODULUS};

const ITERATIONS: u64 = 128;

/// A small deterministic generator for scalar values.
fn next_scalar(state: &mut u64) -> u64 {
    *state = state
        .wrapping_mul(6364136223846793005)
        .wrapping_add(1442695040888963407);
    *state % SCALAR_MODULUS
}

fn check_add(first: u64, second: u64, mode_a: Mode, mode_b: Mode) {
    let a = CircuitScalar::new(mode_a, first);
    let b = CircuitScalar::new(mode_b, second);
    let expected = scalar_add(first, second);

    let mut counter = Counter::new();
    let candidate = counter.scalar_add(&a, &b);
    assert_eq!(expected, candidate.eject_value());

    // The emitted counts match the declared cost table exactly.
    let cost = add_count(mode_a, mode_b);
    assert_eq!(counter.constants, cost.constants);
    assert_eq!(counter.public, cost.public);
    assert_eq!(counter.private, cost.private);
    assert_eq!(counter.constraints, cost.constraints);

    // The output mode matches the declared output-mode function.
    assert_eq!(candidate.eject_mode(), add_output_mode(mode_a, mode_b));
}

fn run_test(mode_a: Mode, mode_b: Mode) {
    let mut rng: u64 = 0x5eed;
    for _i in 0..ITERATIONS {
        let first = next_scalar(&mut rng);
        let second = next_scalar(&mut rng);
        check_add(first, second, mode_a, mode_b);
        // Commutative.
        check_add(second, first, mode_a, mode_b);
        assert_eq!(scalar_add(first, second), scalar_add(second, first));
    }
}

#[test]
fn test_scalar_constant_plus_constant() {
    run_test(Mode::Constant, Mode::Constant);
}

#[test]
fn test_scalar_constant_plus_public() {
    run_test(Mode::Constant, Mode::Public);
}

#[test]
fn test_scalar_constant_plus_private() {
    run_test(Mode::Constant, Mode::Private);
}

#[test]
fn test_scalar_public_plus_constant() {
    run_test(Mode::Public, Mode::Constant);
}

#[test]
fn test_scalar_private_plus_constant() {
    run_test(Mode::Private, Mode::Constant);
}

#[test]
fn test_scalar_public_plus_public() {
    run_test(Mode::Public, Mode::Public);
}

#[test]
fn test_scalar_public_plus_private() {
    run_test(Mode::Public, Mode::Private);
}

#[test]
fn test_scalar_private_plus_public() {
    run_test(Mode::Private, Mode::Public);
}

#[test]
fn test_scalar_private_plus_private() {
    run_test(Mode::Private, Mode::Private);
}

#[test]
fn test_scalar_add_wraps_at_modulus() {
    // An exact expected value at the modulus boundary.
    assert_eq!(scalar_add(SCALAR_MODULUS - 1, 1), 0);
    assert_eq!(scalar_add(SCALAR_MODULUS - 1, SCALAR_MODULUS - 1), SCALAR_MODULUS - 2);
    assert_eq!(scalar_add(5, 7), 12);
}
