use snarkvm_bytecode::integer::Integer;
use snarkvm_bytecode::mode::Mode;
use snarkvm_bytecode::value::LiteralType;

const ITERATIONS: u64 = 128;

struct TestRng(u128);

impl TestRng {
    fn next(&mut self) -> u128 {
        self.0 = self.0.wrapping_mul(0x2360ed051fc65da44385df649fccf645).wrapping_add(0x5851f42d4c957f2d14057b7ef767814f);
        self.0 ^ (self.0 >> 64)
    }
}

fn check_from_field(ty: LiteralType, width: usize, mode: Mode, rng: &mut TestRng) {
    for _ in 0..ITERATIONS {
        let value = rng.next();
        let expected = Integer::new(ty, mode, value);
        let field = expected.to_field();
        assert_eq!(field.ty, LiteralType::Field);
        assert_eq!(field.bits.len(), 253);
        assert!(field.bits[width..].iter().all(|b| !b));
        let candidate = Integer::from_field(&field, ty);
        assert_eq!(expected, candidate);
        let low = if width == 128 { value } else { value & ((1u128 << width) - 1) };
        let back: u128 = candidate.bits_le.iter().enumerate().map(|(i, b)| (*b as u128) << i).sum();
        assert_eq!(back, low);
    }
}

#[test]
fn test_u8_from_field() {
    let mut rng = TestRng(0);

    check_from_field(LiteralType::U8, 8, Mode::Constant, &mut rng);
    check_from_field(LiteralType::U8, 8, Mode::Public, &mut rng);
    check_from_field(LiteralType::U8, 8, Mode::Private, &mut rng);
}

#[test]
fn test_i8_from_field() {
    let mut rng = TestRng(0);

    check_from_field(LiteralType::I8, 8, Mode::Constant, &mut rng);
    check_from_field(LiteralType::I8, 8, Mode::Public, &mut rng);
    check_from_field(LiteralType::I8, 8, Mode::Private, &mut rng);
}

#[test]
fn test_u16_from_field() {
    let mut rng = TestRng(0);

    check_from_field(LiteralType::U16, 16, Mode::Constant, &mut rng);
    check_from_field(LiteralType::U16, 16, Mode::Public, &mut rng);
    check_from_field(LiteralType::U16, 16, Mode::Private, &mut rng);
}

#[test]
fn test_i16_from_field() {
    let mut rng = TestRng(0);

    check_from_field(LiteralType::I16, 16, Mode::Constant, &mut rng);
    check_from_field(LiteralType::I16, 16, Mode::Public, &mut rng);
    check_from_field(LiteralType::I16, 16, Mode::Private, &mut rng);
}

#[test]
fn test_u32_from_field() {
    let mut rng = TestRng(0);

    check_from_field(LiteralType::U32, 32, Mode::Constant, &mut rng);
    check_from_field(LiteralType::U32, 32, Mode::Public, &mut rng);
    check_from_field(LiteralType::U32, 32, Mode::Private, &mut rng);
}

#[test]
fn test_i32_from_field() {
    let mut rng = TestRng(0);

    check_from_field(LiteralType::I32, 32, Mode::Constant, &mut rng);
    check_from_field(LiteralType::I32, 32, Mode::Public, &mut rng);
    check_from_field(LiteralType::I32, 32, Mode::Private, &mut rng);
}

#[test]
fn test_u64_from_field() {
    let mut rng = TestRng(0);

    check_from_field(LiteralType::U64, 64, Mode::Constant, &mut rng);
    check_from_field(LiteralType::U64, 64, Mode::Public, &mut rng);
    check_from_field(LiteralType::U64, 64, Mode::Private, &mut rng);
}

#[test]
fn test_i64_from_field() {
    let mut rng = TestRng(0);

    check_from_field(LiteralType::I64, 64, Mode::Constant, &mut rng);
    check_from_field(LiteralType::I64, 64, Mode::Public, &mut rng);
    check_from_field(LiteralType::I64, 64, Mode::Private, &mut rng);
}

#[test]
fn test_u128_from_field() {
    let mut rng = TestRng(0);

    check_from_field(LiteralType::U128, 128, Mode::Constant, &mut rng);
    check_from_field(LiteralType::U128, 128, Mode::Public, &mut rng);
    check_from_field(LiteralType::U128, 128, Mode::Private, &mut rng);
}

#[test]
fn test_i128_from_field() {
    let mut rng = TestRng(0);

    check_from_field(LiteralType::I128, 128, Mode::Constant, &mut rng);
    check_from_field(LiteralType::I128, 128, Mode::Public, &mut rng);
    check_from_field(LiteralType::I128, 128, Mode::Private, &mut rng);
}
