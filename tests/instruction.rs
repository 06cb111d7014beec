use snarkvm_bytecode::encoding::DecodeError;
use snarkvm_bytecode::instruction::{BinaryOperation, CommitPed256, HashPsd4, Instruction, Register};

#[test]
fn ped256_test_parse() {
    let (_, instruction) = Instruction::parse("commit.ped256 r0 r1 into r2;").unwrap();
    assert!(matches!(instruction, Instruction::CommitPed256(_)));
}

#[test]
fn psd4_test_parse() {
    let (_, instruction) = Instruction::parse("hash.psd4 r0 into r1;").unwrap();
    assert!(matches!(instruction, Instruction::HashPsd4(_)));
}

#[test]
fn instruction_operands_and_destination() {
    let c = CommitPed256::from_str("r0 r1 into r2").unwrap();
    assert_eq!(c.operands(), vec![Register { index: 0 }, Register { index: 1 }]);
    assert_eq!(*c.destination(), Register { index: 2 });
    let h = HashPsd4::from_str("r7 into r12").unwrap();
    assert_eq!(h.operands(), vec![Register { index: 7 }]);
    assert_eq!(*h.destination(), Register { index: 12 });
}

#[test]
fn instruction_text_round_trip() {
    for text in ["commit.ped256 r0 r1 into r2;", "hash.psd4 r10 into r18446744073709551615;"] {
        let i = Instruction::from_str(text).unwrap();
        assert_eq!(i.to_string(), text);
        assert_eq!(Instruction::from_str(&i.to_string()).unwrap(), i);
    }
}

#[test]
fn instruction_parse_rejects() {
    assert!(Instruction::parse("mul r0 r1 into r2;").is_err());
    assert!(Instruction::parse("commit.ped256 r0 into r2;").is_err());
    assert!(Instruction::parse("hash.psd4 r0 into r1").is_err());
    assert!(Instruction::parse("hash.psd4 r0 into r18446744073709551616;").is_err());
    assert!(Instruction::from_str("hash.psd4 r0 into r1; extra").is_err());
    let (rest, _) = Instruction::parse("hash.psd4 r0 into r1; extra").unwrap();
    assert_eq!(rest, " extra");
}

#[test]
fn instruction_bytes_round_trip() {
    let c = Instruction::from_str("commit.ped256 r1 r258 into r3;").unwrap();
    let bytes = c.to_bytes_le();
    assert_eq!(bytes.len(), 26);
    assert_eq!(&bytes[0..2], &[0, 0]);
    assert_eq!(&bytes[2..10], &[1, 0, 0, 0, 0, 0, 0, 0]);
    assert_eq!(&bytes[10..18], &[2, 1, 0, 0, 0, 0, 0, 0]);
    assert_eq!(Instruction::from_bytes_le(&bytes).unwrap(), c);

    let h = Instruction::HashPsd4(HashPsd4::from_str("r0 into r1").unwrap());
    let bytes = h.to_bytes_le();
    assert_eq!(bytes, vec![1, 0, 0, 0, 0, 0, 0, 0, 0, 0, 1, 0, 0, 0, 0, 0, 0, 0]);
    assert_eq!(Instruction::from_bytes_le(&bytes).unwrap(), h);
}

#[test]
fn instruction_bytes_errors() {
    assert_eq!(Instruction::from_bytes_le(&[0]), Err(DecodeError::WrongLength(1)));
    assert_eq!(Instruction::from_bytes_le(&[7, 0]), Err(DecodeError::UnknownOpcode(7)));
    assert_eq!(Instruction::from_bytes_le(&[1, 0, 0]), Err(DecodeError::WrongLength(3)));
    let c = Instruction::CommitPed256(CommitPed256 {
        operation: BinaryOperation {
            first: Register { index: 0 },
            second: Register { index: 1 },
            destination: Register { index: 2 },
        },
    });
    let mut bytes = c.to_bytes_le();
    bytes.push(0);
    assert_eq!(Instruction::from_bytes_le(&bytes), Err(DecodeError::WrongLength(27)));
}

#[test]
fn operation_text_round_trip() {
    let c = CommitPed256::from_str("r0 r1 into r2").unwrap();
    assert_eq!(c.to_string(), "r0 r1 into r2");
    assert_eq!(CommitPed256::from_str(&c.to_string()).unwrap(), c);
    let h = HashPsd4::from_str("r5 into r60").unwrap();
    assert_eq!(h.to_string(), "r5 into r60");
    assert_eq!(HashPsd4::from_str(&h.to_string()).unwrap(), h);
    assert_eq!(HashPsd4::from_str("r05 into r60").unwrap().to_string(), "r5 into r60");
    assert!(CommitPed256::from_str("r0 into r2").is_err());
    assert!(HashPsd4::from_str("r0 into r1;").is_err());
}
