use snarkvm_bytecode::identifier::Identifier;
use snarkvm_bytecode::mode::Mode;
use snarkvm_bytecode::value::{Entry, FindError, Literal, Plaintext, Record, Value};

fn id(s: &str) -> Identifier {
    Identifier::from_str(s).unwrap()
}

fn bool_pt(b: bool, mode: Mode) -> Plaintext {
    Plaintext::Literal(Literal::boolean(b, mode))
}

fn nested() -> Plaintext {
    Plaintext::Composite(id("outer"), vec![
        (id("x"), bool_pt(true, Mode::Public)),
        (id("inner"), Plaintext::Composite(id("inner"), vec![(id("y"), bool_pt(false, Mode::Private))])),
    ])
}

fn leaf_of(v: &Value) -> (bool, Mode) {
    match v {
        Value::Plaintext(Plaintext::Literal(l)) => (l.bits[0], l.mode),
        _ => panic!("expected a literal"),
    }
}

#[test]
fn find_empty_path_returns_value() {
    let v = Value::Plaintext(nested());
    match v.find(&[]).unwrap() {
        Value::Plaintext(Plaintext::Composite(name, fields)) => {
            assert_eq!(name.as_str(), "outer");
            assert_eq!(fields.len(), 2);
        }
        _ => panic!("expected the composite"),
    }
    let rec = Value::Record(Record { entries: vec![(id("owner"), Entry::Private(bool_pt(true, Mode::Private)))] });
    assert!(matches!(rec.find(&[]).unwrap(), Value::Record(r) if r.entries.len() == 1));
}

#[test]
fn find_through_plaintext() {
    let v = Value::Plaintext(nested());
    assert_eq!(leaf_of(&v.find(&[id("x")]).unwrap()), (true, Mode::Public));
    assert_eq!(leaf_of(&v.find(&[id("inner"), id("y")]).unwrap()), (false, Mode::Private));
    assert_eq!(v.find(&[id("z")]).err(), Some(FindError::FieldNotFound(0)));
    assert_eq!(v.find(&[id("inner"), id("z")]).err(), Some(FindError::FieldNotFound(1)));
    assert_eq!(v.find(&[id("x"), id("y")]).err(), Some(FindError::FieldNotFound(1)));
}

#[test]
fn find_through_record_drops_entry_visibility() {
    let rec = Value::Record(Record {
        entries: vec![
            (id("owner"), Entry::Public(bool_pt(true, Mode::Constant))),
            (id("data"), Entry::Constant(nested())),
        ],
    });
    assert_eq!(leaf_of(&rec.find(&[id("owner")]).unwrap()), (true, Mode::Constant));
    assert_eq!(leaf_of(&rec.find(&[id("data"), id("inner"), id("y")]).unwrap()), (false, Mode::Private));
    assert_eq!(rec.find(&[id("gates")]).err(), Some(FindError::FieldNotFound(0)));
    assert_eq!(rec.find(&[id("data"), id("q")]).err(), Some(FindError::FieldNotFound(1)));
}

#[test]
fn flatten_and_mode_of_values() {
    let v = Value::Plaintext(nested());
    let mut bits = Vec::new();
    v.flatten_into(&mut bits);
    assert_eq!(bits, vec![true, false]);
    assert_eq!(v.mode(), Mode::Private);
    let t = Literal::text("A", Mode::Public);
    assert_eq!(t.bits, vec![true, false, false, false, false, false, true, false]);
    assert!(Literal::new(snarkvm_bytecode::value::LiteralType::Field, vec![false; 3], Mode::Public).is_none());
}

#[test]
fn mode_order() {
    assert_eq!(Mode::Constant.max(Mode::Private), Mode::Private);
    assert_eq!(Mode::Public.max(Mode::Constant), Mode::Public);
    assert_eq!(Mode::Constant.max(Mode::Constant), Mode::Constant);
}
