use snarkvm_bytecode::encoding::DecodeError;
use snarkvm_bytecode::identifier::Identifier;
use snarkvm_bytecode::program_id::ProgramID;

#[test]
fn parse_test_parse() {
    let id = ProgramID::parse("bar.aleo").unwrap().1;
    assert_eq!(id.name(), &Identifier::from_str("bar").unwrap());
    assert_eq!(id.network(), &Identifier::from_str("aleo").unwrap());

    assert!(ProgramID::parse("foo").is_err());
}

#[test]
fn test_display() {
    let id = ProgramID::from_str("bar.aleo").unwrap();
    assert_eq!("bar.aleo", id.to_string());

    assert!(ProgramID::from_str("foo").is_err());
}

#[test]
fn program_id_parse_leaves_rest() {
    let (rest, id) = ProgramID::parse("bar.aleo/main").unwrap();
    assert_eq!(rest, "/main");
    assert_eq!(id.to_string(), "bar.aleo");
    assert!(ProgramID::from_str("bar.aleo/main").is_err());
}

#[test]
fn program_id_rejects_bad_text() {
    assert!(ProgramID::from_str("").is_err());
    assert!(ProgramID::from_str("bar.").is_err());
    assert!(ProgramID::from_str(".aleo").is_err());
    assert!(ProgramID::from_str("1bar.aleo").is_err());
    assert!(ProgramID::from_str("bar.9aleo").is_err());
    assert!(ProgramID::from_str("bar.aleo.x").is_err());
}

#[test]
fn program_id_round_trip() {
    for text in ["bar.aleo", "token_v2.testnet", "A.b"] {
        let id = ProgramID::from_str(text).unwrap();
        let again = ProgramID::from_str(&id.to_string()).unwrap();
        assert_eq!(id, again);
        assert_eq!(again.to_string(), text);
    }
}

#[test]
fn identifier_grammar() {
    assert!(Identifier::from_str("abc_1").is_ok());
    assert!(Identifier::from_str("_abc").is_err());
    assert!(Identifier::from_str("").is_err());
    assert!(Identifier::from_str("ab-c").is_err());
    assert_eq!(Identifier::from_str("hello").unwrap().as_str(), "hello");
}

#[test]
fn program_id_bytes_round_trip() {
    let id = ProgramID::from_str("bar.aleo").unwrap();
    let bytes = id.to_bytes_le();
    assert_eq!(bytes, vec![3, 0, 0, 0, 0, 0, 0, 0, b'b', b'a', b'r', 4, 0, 0, 0, 0, 0, 0, 0, b'a', b'l', b'e', b'o']);
    let back = ProgramID::from_bytes_le(&bytes).unwrap();
    assert_eq!(back, id);
    assert_eq!(back.name().as_str(), "bar");
    assert_eq!(back.network().as_str(), "aleo");
}

#[test]
fn program_id_bytes_errors() {
    let mut bytes = ProgramID::from_str("bar.aleo").unwrap().to_bytes_le();
    bytes.push(0);
    assert_eq!(ProgramID::from_bytes_le(&bytes), Err(DecodeError::WrongLength(24)));
    let bad_utf8 = vec![1, 0, 0, 0, 0, 0, 0, 0, 0xff, 1, 0, 0, 0, 0, 0, 0, 0, b'a'];
    assert_eq!(ProgramID::from_bytes_le(&bad_utf8), Err(DecodeError::InvalidIdentifier(0)));
    let bad_ident = vec![1, 0, 0, 0, 0, 0, 0, 0, b'a', 1, 0, 0, 0, 0, 0, 0, 0, b'1'];
    assert_eq!(ProgramID::from_bytes_le(&bad_ident), Err(DecodeError::InvalidIdentifier(9)));
    assert_eq!(ProgramID::from_bytes_le(&[5, 0]), Err(DecodeError::InvalidIdentifier(0)));
}
