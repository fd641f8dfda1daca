//! The dual-domain register file: loading literals and registers, the
//! single-assignment discipline, path resolution into records, the load-time
//! type check, and the fidelity of the two domains on a whole instruction.

use zkvm_core::ident::Identifier;
use zkvm_core::mode::{Mode, add_count};
use zkvm_core::register::Register;
use zkvm_core::registers::{Operand, RegisterFile, RegisterTypes};
use zkvm_core::scalar::{CircuitScalar, Counter};
use zkvm_core::types::{EntryType, LitType, PlainType, RegType};
use zkvm_core::value::{CircuitEntry, CircuitPlaintext, CircuitValue, Entry, Literal, Plaintext,
    Value};
use zkvm_core::VmError;

const ADDR: &str = "aleo1d5hg2z3ma00382pngntdp68e74zv54jdxy249qhaujhks9c72yrs33ddah";

fn ident(s: &str) -> Identifier {
    Identifier::from_text(s).unwrap()
}

fn fresh_file(types: RegisterTypes) -> RegisterFile {
    RegisterFile::new(types, ADDR.to_string(), ADDR.to_string())
}

#[test]
fn test_load_literal_needs_no_store() {
    // Loading a literal operand always succeeds, returns the literal as a
    // plaintext, and touches no register store.
    let rf = fresh_file(RegisterTypes::new());
    let loaded = rf.load(&Operand::Literal(Literal::U64(100))).unwrap();
    assert_eq!(loaded, Value::Plaintext(Plaintext::Literal(Literal::U64(100))));
    assert_eq!(rf.console_registers.len(), 0);

    let circuit = rf
        .load_circuit(&Operand::Literal(Literal::U64(100)))
        .unwrap();
    assert_eq!(circuit.eject(), Value::Plaintext(Plaintext::Literal(Literal::U64(100))));
    assert_eq!(rf.circuit_registers.len(), 0);
}

#[test]
fn test_load_program_and_caller() {
    let rf = fresh_file(RegisterTypes::new());
    let program = rf.load(&Operand::ProgramID).unwrap();
    assert_eq!(
        program,
        Value::Plaintext(Plaintext::Literal(Literal::Address(ADDR.to_string())))
    );
    let caller = rf.load(&Operand::Caller).unwrap();
    assert_eq!(
        caller,
        Value::Plaintext(Plaintext::Literal(Literal::Address(ADDR.to_string())))
    );
}

#[test]
fn test_load_unstored_register_fails() {
    // Loading an unstored locator fails with UndefinedRegister.
    let rf = fresh_file(RegisterTypes::new());
    let err = rf.load(&Operand::Register(Register::Locator(0))).unwrap_err();
    assert_eq!(err, VmError::UndefinedRegister);
    let err = rf
        .load_circuit(&Operand::Register(Register::Locator(0)))
        .unwrap_err();
    assert_eq!(err, VmError::UndefinedRegister);
}

#[test]
fn test_double_assignment_fails() {
    // A second store to the same locator is rejected.
    let mut rf = fresh_file(RegisterTypes::new());
    let r0 = Register::Locator(0);
    rf.store(&r0, Value::Plaintext(Plaintext::Literal(Literal::U64(1)))).unwrap();
    let err = rf
        .store(&r0, Value::Plaintext(Plaintext::Literal(Literal::U64(2))))
        .unwrap_err();
    assert_eq!(err, VmError::DoubleAssignment);
}

fn token_record() -> Value {
    Value::Record(vec![
        (
            ident("owner"),
            Entry {
                vis: Mode::Private,
                plaintext: Plaintext::Literal(Literal::Address(ADDR.to_string())),
            },
        ),
        (
            ident("token_amount"),
            Entry {
                vis: Mode::Private,
                plaintext: Plaintext::Literal(Literal::U64(100)),
            },
        ),
    ])
}

#[test]
fn test_record_member_load_discards_visibility() {
    // Loading a stored record through a member path returns the selected
    // entry's plaintext with its visibility discarded.
    let mut types = RegisterTypes::new();
    let member = Register::Member(0, vec![ident("token_amount")]);
    types.insert(member.clone(), RegType::Plaintext(PlainType::Literal(LitType::U64)));
    let mut rf = fresh_file(types);
    rf.store(&Register::Locator(0), token_record()).unwrap();

    let loaded = rf.load(&Operand::Register(member)).unwrap();
    assert_eq!(loaded, Value::Plaintext(Plaintext::Literal(Literal::U64(100))));
}

#[test]
fn test_member_path_not_found() {
    let mut types = RegisterTypes::new();
    let member = Register::Member(0, vec![ident("missing")]);
    types.insert(member.clone(), RegType::Plaintext(PlainType::Literal(LitType::U64)));
    let mut rf = fresh_file(types);
    rf.store(&Register::Locator(0), token_record()).unwrap();

    let err = rf.load(&Operand::Register(member)).unwrap_err();
    assert_eq!(err, VmError::PathNotFound);
}

#[test]
fn test_undeclared_register_fails() {
    // A stored register that is not declared for the function fails.
    let mut rf = fresh_file(RegisterTypes::new());
    rf.store(
        &Register::Locator(0),
        Value::Plaintext(Plaintext::Literal(Literal::U64(1))),
    )
    .unwrap();
    let err = rf.load(&Operand::Register(Register::Locator(0))).unwrap_err();
    assert_eq!(err, VmError::UndefinedRegister);
}

#[test]
fn test_type_mismatch_fails() {
    // A resolved value whose shape disagrees with the declared type fails.
    let mut types = RegisterTypes::new();
    types.insert(
        Register::Locator(0),
        RegType::Plaintext(PlainType::Literal(LitType::Scalar)),
    );
    let mut rf = fresh_file(types);
    rf.store(
        &Register::Locator(0),
        Value::Plaintext(Plaintext::Literal(Literal::U64(1))),
    )
    .unwrap();
    let err = rf.load(&Operand::Register(Register::Locator(0))).unwrap_err();
    assert_eq!(err, VmError::TypeMismatch);
}

#[test]
fn test_record_type_check() {
    // A record checks name by name, visibility by visibility.
    let mut types = RegisterTypes::new();
    types.insert(
        Register::Locator(0),
        RegType::Record(vec![
            (
                ident("owner"),
                EntryType { vis: Mode::Private, ty: PlainType::Literal(LitType::Address) },
            ),
            (
                ident("token_amount"),
                EntryType { vis: Mode::Private, ty: PlainType::Literal(LitType::U64) },
            ),
        ]),
    );
    let mut rf = fresh_file(types);
    rf.store(&Register::Locator(0), token_record()).unwrap();
    let loaded = rf.load(&Operand::Register(Register::Locator(0))).unwrap();
    assert_eq!(loaded, token_record());
}

#[test]
fn test_instruction_in_both_domains() {
    // Scenario: r0 stores constant scalar 5, r1 stores public scalar 7. The
    // circuit-domain sum of load(r0) and load(r1) is a Private scalar equal
    // to the native 5 + 7 = 12, with the declared non-constant cost, while a
    // synthetic Constant + Constant case costs exactly (1, 0, 0, 0).
    let mut types = RegisterTypes::new();
    types.insert(
        Register::Locator(0),
        RegType::Plaintext(PlainType::Literal(LitType::Scalar)),
    );
    types.insert(
        Register::Locator(1),
        RegType::Plaintext(PlainType::Literal(LitType::Scalar)),
    );
    let mut rf = fresh_file(types);

    // Store in both domains: the native values and the circuit values that
    // project to them.
    rf.store(
        &Register::Locator(0),
        Value::Plaintext(Plaintext::Literal(Literal::Scalar(5))),
    )
    .unwrap();
    rf.store_circuit(
        &Register::Locator(0),
        CircuitValue::Plaintext(CircuitPlaintext::Literal(Mode::Constant, Literal::Scalar(5))),
    )
    .unwrap();
    rf.store(
        &Register::Locator(1),
        Value::Plaintext(Plaintext::Literal(Literal::Scalar(7))),
    )
    .unwrap();
    rf.store_circuit(
        &Register::Locator(1),
        CircuitValue::Plaintext(CircuitPlaintext::Literal(Mode::Public, Literal::Scalar(7))),
    )
    .unwrap();

    // Native loads.
    let a = rf.load(&Operand::Register(Register::Locator(0))).unwrap();
    let b = rf.load(&Operand::Register(Register::Locator(1))).unwrap();
    assert_eq!(a, Value::Plaintext(Plaintext::Literal(Literal::Scalar(5))));
    assert_eq!(b, Value::Plaintext(Plaintext::Literal(Literal::Scalar(7))));

    // Circuit loads agree with the native loads once ejected.
    let ca = rf.load_circuit(&Operand::Register(Register::Locator(0))).unwrap();
    let cb = rf.load_circuit(&Operand::Register(Register::Locator(1))).unwrap();
    assert_eq!(ca.eject(), a);
    assert_eq!(cb.eject(), b);

    // The circuit addition of the two loaded scalars.
    let (ma, va) = match &ca {
        CircuitValue::Plaintext(CircuitPlaintext::Literal(m, Literal::Scalar(v))) => (*m, *v),
        _ => panic!("not a circuit scalar"),
    };
    let (mb, vb) = match &cb {
        CircuitValue::Plaintext(CircuitPlaintext::Literal(m, Literal::Scalar(v))) => (*m, *v),
        _ => panic!("not a circuit scalar"),
    };
    let sa = CircuitScalar::new(ma, va);
    let sb = CircuitScalar::new(mb, vb);
    let mut counter = Counter::new();
    let sum = counter.scalar_add(&sa, &sb);
    assert_eq!(sum.eject_value(), 12);
    assert_eq!(sum.eject_mode(), Mode::Private);
    let cost = add_count(Mode::Constant, Mode::Public);
    assert_eq!(counter.constants, cost.constants);
    assert_eq!(counter.public, cost.public);
    assert_eq!(counter.private, cost.private);
    assert_eq!(counter.constraints, cost.constraints);
    assert!(cost.constraints > 0);

    // The synthetic Constant + Constant case.
    let mut counter2 = Counter::new();
    let c5 = CircuitScalar::new(Mode::Constant, 5);
    let c7 = CircuitScalar::new(Mode::Constant, 7);
    let csum = counter2.scalar_add(&c5, &c7);
    assert_eq!(csum.eject_value(), 12);
    assert_eq!(csum.eject_mode(), Mode::Constant);
    assert_eq!(counter2.constants, 1);
    assert_eq!(counter2.public, 0);
    assert_eq!(counter2.private, 0);
    assert_eq!(counter2.constraints, 0);
}

#[test]
fn test_epoch_and_address_bytes() {
    let epoch = zkvm_core::puzzle::EpochInfo::new(0x0102030405060708);
    assert_eq!(
        epoch.to_bytes_le(),
        [0x08, 0x07, 0x06, 0x05, 0x04, 0x03, 0x02, 0x01]
    );
    let addr = zkvm_core::puzzle::Address([9u8; 32]);
    assert_eq!(addr.to_bytes_le(), [9u8; 32]);
}
