use snarkvm_console_network_environment::ToBits;
use snarkvm_bytecode::evaluate::{Halt, Opcode};
use snarkvm_bytecode::identifier::Identifier;
use snarkvm_bytecode::instruction::{CommitPed256, HashPsd4};
use snarkvm_bytecode::integer::Integer;
use snarkvm_bytecode::mode::Mode;
use snarkvm_bytecode::registers::{RegisterError, Registers};
use snarkvm_bytecode::value::{Literal, LiteralType, Plaintext, Value};

fn lit(l: Literal) -> Value {
    Value::Plaintext(Plaintext::Literal(l))
}

fn field(v: u128, mode: Mode) -> Literal {
    Integer::new(LiteralType::U128, mode, v).to_field()
}

fn scalar(mode: Mode) -> Literal {
    let mut bits = vec![false; 251];
    bits[0] = true;
    Literal::new(LiteralType::Scalar, bits, mode).unwrap()
}

fn group_bits() -> Vec<bool> {
    let mut bits = vec![false; 253];
    bits[1] = true;
    bits
}

fn setup(first: Value, second: Option<Value>) -> Registers {
    let mut r = Registers::new();
    for i in 0..3 {
        r.define(i).unwrap();
    }
    r.assign(0, first).unwrap();
    if let Some(v) = second {
        r.assign(1, v).unwrap();
    }
    r
}

#[test]
fn commit_mode_is_max_of_operands() {
    let modes = [Mode::Constant, Mode::Public, Mode::Private];
    for a in modes {
        for b in modes {
            let mut regs = setup(lit(scalar(a)), Some(lit(scalar(b))));
            let c = CommitPed256::from_str("r0 r1 into r2").unwrap();
            let input = c.prepare(&regs).unwrap();
            assert_eq!(input.message.len(), 251);
            assert_eq!(input.randomness.len(), 251);
            assert_eq!(input.mode, a.max(b));
            c.finish(&mut regs, &input, group_bits()).unwrap();
            match regs.load(2).unwrap() {
                Value::Plaintext(Plaintext::Literal(l)) => {
                    assert_eq!(l.ty, LiteralType::Group);
                    assert_eq!(l.mode, a.max(b));
                    assert_eq!(l.bits, group_bits());
                }
                _ => panic!("expected a literal"),
            }
        }
    }
}

#[test]
fn commit_string_too_long_halts() {
    let long = "a".repeat(33);
    let regs = setup(lit(Literal::text(&long, Mode::Constant)), Some(lit(scalar(Mode::Constant))));
    let c = CommitPed256::from_str("r0 r1 into r2").unwrap();
    let halt = c.prepare(&regs).err().unwrap();
    assert_eq!(halt, Halt::InputTooLong(256));
    assert_eq!(halt.message(), "The Pedersen hash input cannot exceed 256 bits.");

    let exact = "a".repeat(32);
    let regs = setup(lit(Literal::text(&exact, Mode::Constant)), Some(lit(scalar(Mode::Constant))));
    assert_eq!(c.prepare(&regs).unwrap().message.len(), 256);
}

#[test]
fn commit_composite_of_booleans() {
    let first = Value::Plaintext(Plaintext::Composite(
        Identifier::from_str("message").unwrap(),
        vec![
            (Identifier::from_str("a").unwrap(), Plaintext::Literal(Literal::boolean(true, Mode::Public))),
            (Identifier::from_str("b").unwrap(), Plaintext::Literal(Literal::boolean(false, Mode::Private))),
        ],
    ));
    let regs = setup(first, Some(lit(scalar(Mode::Constant))));
    let c = CommitPed256::from_str("r0 r1 into r2").unwrap();
    let input = c.prepare(&regs).unwrap();
    assert_eq!(input.message, vec![true, false]);
    assert_eq!(input.mode, Mode::Private);
}

#[test]
fn commit_composite_of_fields_halts() {
    let first = Value::Plaintext(Plaintext::Composite(
        Identifier::from_str("message").unwrap(),
        vec![
            (Identifier::from_str("a").unwrap(), Plaintext::Literal(field(1, Mode::Public))),
            (Identifier::from_str("b").unwrap(), Plaintext::Literal(field(2, Mode::Private))),
        ],
    ));
    let regs = setup(first, Some(lit(scalar(Mode::Constant))));
    let c = CommitPed256::from_str("r0 r1 into r2").unwrap();
    let halt = c.prepare(&regs).err().unwrap();
    assert_eq!(halt.message(), "The Pedersen hash input cannot exceed 256 bits.");
}

#[test]
fn commit_randomness_must_be_scalar() {
    let regs = setup(lit(scalar(Mode::Constant)), Some(lit(field(1, Mode::Constant))));
    let c = CommitPed256::from_str("r0 r1 into r2").unwrap();
    assert_eq!(c.prepare(&regs).err(), Some(Halt::InvalidRandomness));
}

#[test]
fn commit_unassigned_operand_halts() {
    let regs = setup(lit(scalar(Mode::Constant)), None);
    let c = CommitPed256::from_str("r0 r1 into r2").unwrap();
    assert_eq!(c.prepare(&regs).err(), Some(Halt::Register(RegisterError::Unassigned(1))));
    let c = CommitPed256::from_str("r0 r5 into r2").unwrap();
    assert_eq!(c.prepare(&regs).err(), Some(Halt::Register(RegisterError::Undefined(5))));
}

#[test]
fn hash_field_gives_field_with_input_mode() {
    for mode in [Mode::Constant, Mode::Public, Mode::Private] {
        let mut regs = setup(lit(field(1, mode)), None);
        let h = HashPsd4::from_str("r0 into r1").unwrap();
        let input = h.prepare(&regs).unwrap();
        assert_eq!(input.mode, mode);
        assert_eq!(input.elements.len(), 1);
        assert_eq!(input.elements[0], vec![true]);
        h.finish(&mut regs, &input, group_bits()).unwrap();
        match regs.load(1).unwrap() {
            Value::Plaintext(Plaintext::Literal(l)) => {
                assert_eq!(l.ty, LiteralType::Field);
                assert_eq!(l.mode, mode);
            }
            _ => panic!("expected a literal"),
        }
        assert_eq!(h.finish(&mut regs, &input, group_bits()), Err(Halt::Register(RegisterError::AlreadyAssigned(1))));
    }
}

#[test]
fn hash_refuses_boolean_group_address() {
    let h = HashPsd4::from_str("r0 into r1").unwrap();
    let group = Literal::new(LiteralType::Group, vec![false; 253], Mode::Constant).unwrap();
    let address = Literal::new(LiteralType::Address, vec![false; 253], Mode::Constant).unwrap();
    for l in [Literal::boolean(true, Mode::Constant), group, address] {
        let regs = setup(lit(l), None);
        let halt = h.prepare(&regs).err().unwrap();
        assert_eq!(halt, Halt::InvalidInstruction(Opcode::HashPsd4));
        assert_eq!(halt.message(), "Invalid 'hash.psd4' instruction");
    }
}

#[test]
fn hash_accepts_composite_and_integers() {
    let h = HashPsd4::from_str("r0 into r1").unwrap();
    let composite = Value::Plaintext(Plaintext::Composite(
        Identifier::from_str("message").unwrap(),
        vec![
            (Identifier::from_str("a").unwrap(), Plaintext::Literal(field(1, Mode::Public))),
            (Identifier::from_str("b").unwrap(), Plaintext::Literal(field(2, Mode::Private))),
        ],
    ));
    let regs = setup(composite, None);
    let input = h.prepare(&regs).unwrap();
    assert_eq!(input.elements.len(), 2);
    assert_eq!(input.mode, Mode::Private);

    let int = Integer::new(LiteralType::I8, Mode::Public, 1);
    let l = Literal::new(LiteralType::I8, int.bits_le, Mode::Public).unwrap();
    let regs = setup(lit(l), None);
    assert_eq!(h.prepare(&regs).unwrap().mode, Mode::Public);
}

#[test]
fn register_discipline() {
    let mut r = Registers::new();
    assert_eq!(r.load(0).err(), Some(RegisterError::Undefined(0)));
    assert_eq!(r.assign(0, lit(scalar(Mode::Constant))), Err(RegisterError::Undefined(0)));
    r.define(0).unwrap();
    assert_eq!(r.define(0), Err(RegisterError::AlreadyDefined(0)));
    assert_eq!(r.load(0).err(), Some(RegisterError::Unassigned(0)));
    r.assign(0, lit(scalar(Mode::Public))).unwrap();
    assert_eq!(r.assign(0, lit(scalar(Mode::Private))), Err(RegisterError::AlreadyAssigned(0)));
    match r.load(0).unwrap() {
        Value::Plaintext(Plaintext::Literal(l)) => assert_eq!(l.mode, Mode::Public),
        _ => panic!("expected a literal"),
    }
}

#[test]
fn halt_messages_for_registers() {
    assert_eq!(Halt::Register(RegisterError::Unassigned(3)).message(), "Register r3 is not assigned");
    assert_eq!(Halt::Register(RegisterError::Undefined(12)).message(), "Register r12 is not defined");
}

#[test]
fn commit_evaluate_with_primitive() {
    let mut regs = setup(lit(Literal::boolean(true, Mode::Public)), Some(lit(scalar(Mode::Private))));
    let c = CommitPed256::from_str("r0 r1 into r2").unwrap();
    c.evaluate(&mut regs, |m: Vec<bool>, k: Vec<bool>| {
        let mut out = vec![false; 253];
        out[0] = m[0];
        out[1] = k[0];
        out
    })
    .unwrap();
    match regs.load(2).unwrap() {
        Value::Plaintext(Plaintext::Literal(l)) => {
            assert_eq!(l.ty, LiteralType::Group);
            assert_eq!(l.mode, Mode::Private);
            assert!(l.bits[0] && l.bits[1] && !l.bits[2]);
        }
        _ => panic!("expected a literal"),
    }
    assert_eq!(
        c.evaluate(&mut regs, |_m: Vec<bool>, _k: Vec<bool>| vec![false; 253]),
        Err(Halt::Register(RegisterError::AlreadyAssigned(2)))
    );
}

#[test]
fn hash_evaluate_with_primitive() {
    let h = HashPsd4::from_str("r0 into r1").unwrap();
    let mut regs = setup(lit(field(3, Mode::Public)), None);
    assert_eq!(h.evaluate(&mut regs, |_m: Vec<Vec<bool>>| vec![true; 5]), Err(Halt::InvalidOutput));
    assert_eq!(regs.load(1).err(), Some(RegisterError::Unassigned(1)));
    h.evaluate(&mut regs, |m: Vec<Vec<bool>>| {
        let mut out = m[0].clone();
        out.resize(253, false);
        out
    })
    .unwrap();
    match regs.load(1).unwrap() {
        Value::Plaintext(Plaintext::Literal(l)) => {
            assert_eq!(l.ty, LiteralType::Field);
            assert_eq!(l.mode, Mode::Public);
            assert!(l.bits[0] && l.bits[1] && !l.bits[2]);
        }
        _ => panic!("expected a literal"),
    }
    let mut regs = setup(lit(Literal::boolean(true, Mode::Public)), None);
    let halt = h.evaluate(&mut regs, |m: Vec<Vec<bool>>| m[0].clone()).err().unwrap();
    assert_eq!(halt.message(), "Invalid 'hash.psd4' instruction");
}

fn two_fields() -> Value {
    Value::Plaintext(Plaintext::Composite(
        Identifier::from_str("message").unwrap(),
        vec![
            (Identifier::from_str("x0").unwrap(), Plaintext::Literal(field(1, Mode::Public))),
            (Identifier::from_str("x1").unwrap(), Plaintext::Literal(field(2, Mode::Private))),
        ],
    ))
}

#[test]
fn ped256_test_composite() {
    let first = Value::Plaintext(Plaintext::Composite(
        Identifier::from_str("message").unwrap(),
        vec![
            (Identifier::from_str("x0").unwrap(), Plaintext::Literal(Literal::boolean(true, Mode::Public))),
            (Identifier::from_str("x1").unwrap(), Plaintext::Literal(Literal::boolean(false, Mode::Private))),
        ],
    ));
    let mut registers = setup(first, Some(lit(scalar(Mode::Constant))));
    let c = CommitPed256::from_str("r0 r1 into r2").unwrap();
    c.evaluate(&mut registers, |m: Vec<bool>, k: Vec<bool>| {
        assert_eq!(m, vec![true, false]);
        assert_eq!(k.len(), 251);
        group_bits()
    })
    .unwrap();
    match registers.load(2).unwrap() {
        Value::Plaintext(Plaintext::Literal(l)) => {
            assert_eq!(l.ty, LiteralType::Group);
            assert_eq!(l.mode, Mode::Private);
            assert_eq!(l.bits, group_bits());
        }
        _ => panic!("expected a literal"),
    }
}

#[test]
fn ped256_composite_halts() {
    let mut registers = setup(two_fields(), Some(lit(scalar(Mode::Constant))));
    let c = CommitPed256::from_str("r0 r1 into r2").unwrap();
    let halt = c.evaluate(&mut registers, |_m: Vec<bool>, _k: Vec<bool>| group_bits()).err().unwrap();
    assert_eq!(halt.message(), "The Pedersen hash input cannot exceed 256 bits.");
    assert_eq!(registers.load(2).err(), Some(RegisterError::Unassigned(2)));
}

#[test]
fn psd4_test_composite() {
    let mut registers = setup(two_fields(), None);
    let h = HashPsd4::from_str("r0 into r1").unwrap();
    h.evaluate_poseidon(&mut registers).unwrap();
    match registers.load(1).unwrap() {
        Value::Plaintext(Plaintext::Literal(l)) => {
            assert_eq!(l.ty, LiteralType::Field);
            assert_eq!(l.mode, Mode::Private);
            assert_eq!(l.bits, poseidon_direct(&[1, 2]));
        }
        _ => panic!("expected a literal"),
    }
}

type Fe = snarkvm_console_types::Field<snarkvm_console_network_environment::Console>;

fn poseidon_direct(values: &[u64]) -> Vec<bool> {
    let hasher = snarkvm_console_algorithms::Poseidon4::<snarkvm_console_network_environment::Console>::setup("AleoPoseidon4").unwrap();
    let fields: Vec<Fe> = values.iter().map(|v| Fe::from_u64(*v)).collect();
    snarkvm_console_network_environment::Hash::hash(&hasher, &fields).unwrap().to_bits_le()
}

#[test]
fn psd4_poseidon_of_one_field() {
    let mut registers = setup(lit(field(1, Mode::Public)), None);
    let h = HashPsd4::from_str("r0 into r1").unwrap();
    h.evaluate_poseidon(&mut registers).unwrap();
    match registers.load(1).unwrap() {
        Value::Plaintext(Plaintext::Literal(l)) => {
            assert_eq!(l.ty, LiteralType::Field);
            assert_eq!(l.mode, Mode::Public);
            assert_eq!(l.bits.len(), 253);
            assert_eq!(l.bits, poseidon_direct(&[1]));
            assert_ne!(l.bits, field(1, Mode::Public).bits);
        }
        _ => panic!("expected a literal"),
    }
}

#[test]
fn psd4_text_is_cut_into_elements() {
    let regs = setup(lit(Literal::text(&"a".repeat(33), Mode::Private)), None);
    let h = HashPsd4::from_str("r0 into r1").unwrap();
    let input = h.prepare(&regs).unwrap();
    assert_eq!(input.elements.len(), 2);
    // Each chunk loses its high zero bits: the last byte, 'a', has its top bit clear.
    assert_eq!(input.elements[0].len(), 247);
    assert_eq!(input.elements[1].len(), 15);
    assert_eq!(input.mode, Mode::Private);
}

fn poseidon_of(value: Value) -> Literal {
    let mut registers = setup(value, None);
    let h = HashPsd4::from_str("r0 into r1").unwrap();
    h.evaluate_poseidon(&mut registers).unwrap();
    match registers.load(1).unwrap() {
        Value::Plaintext(Plaintext::Literal(l)) => l.copy(),
        _ => panic!("expected a literal"),
    }
}

#[test]
fn psd4_equal_numbers_hash_alike() {
    let expected = poseidon_direct(&[1]);
    let mut one_scalar = vec![false; 251];
    one_scalar[0] = true;
    let cases = vec![
        (lit(field(1, Mode::Constant)), Mode::Constant),
        (lit(scalar(Mode::Public)), Mode::Public),
        (lit(Literal::new(LiteralType::Scalar, one_scalar, Mode::Private).unwrap()), Mode::Private),
    ];
    for (value, mode) in cases {
        let out = poseidon_of(value);
        assert_eq!(out.bits, expected);
        assert_eq!(out.mode, mode);
    }
    for (ty, width) in [(LiteralType::U8, 8), (LiteralType::I8, 8), (LiteralType::U16, 16), (LiteralType::I32, 32), (LiteralType::U64, 64), (LiteralType::I128, 128)] {
        let int = Integer::new(ty, Mode::Public, 1);
        assert_eq!(int.bits_le.len(), width);
        let out = poseidon_of(lit(Literal::new(ty, int.bits_le, Mode::Public).unwrap()));
        assert_eq!(out.bits, expected);
        assert_eq!(out.mode, Mode::Public);
    }
}
