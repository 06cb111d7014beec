use vstd::prelude::*;
use crate::mode::Mode;
use crate::value::{type_bits, Literal, LiteralType, FIELD_BITS};

verus! {

/// Whether the type is a signed or unsigned integer type.
pub open spec fn is_integer_type(t: LiteralType) -> bool {
    match t {
        LiteralType::I8 | LiteralType::I16 | LiteralType::I32 | LiteralType::I64 | LiteralType::I128
        | LiteralType::U8 | LiteralType::U16 | LiteralType::U32 | LiteralType::U64
        | LiteralType::U128 => true,
        _ => false,
    }
}

/// A fixed-width integer as its little-endian bits; a signed one in two's complement.
#[derive(Debug, PartialEq, Eq)]
pub struct Integer {
    pub ty: LiteralType,
    pub bits_le: Vec<bool>,
    pub mode: Mode,
}

fn width_of(ty: LiteralType) -> (r: usize)
    requires
        is_integer_type(ty),
    ensures
        r as nat == type_bits(ty),
        r <= 128,
{
    match ty {
        LiteralType::I8 | LiteralType::U8 => 8,
        LiteralType::I16 | LiteralType::U16 => 16,
        LiteralType::I32 | LiteralType::U32 => 32,
        LiteralType::I64 | LiteralType::U64 => 64,
        _ => 128,
    }
}

impl Integer {
    /// An integer of type `ty` whose two's-complement bits are the low bits of `value`.
    pub fn new(ty: LiteralType, mode: Mode, value: u128) -> (r: Integer)
        requires
            is_integer_type(ty),
        ensures
            r.ty == ty,
            r.mode == mode,
            r.bits_le@.len() == type_bits(ty),
            forall|i: int| 0 <= i < r.bits_le@.len() ==> #[trigger] r.bits_le@[i] == ((value >> (i as u128)) & 1 == 1),
    {
        let w = width_of(ty);
        let mut bits_le: Vec<bool> = Vec::new();
        let mut i: usize = 0;
        while i < w
            invariant
                w <= 128,
                i <= w,
                bits_le@.len() == i,
                forall|j: int| 0 <= j < i ==> #[trigger] bits_le@[j] == ((value >> (j as u128)) & 1 == 1),
            decreases w - i,
        {
            bits_le.push((value >> (i as u128)) & 1 == 1);
            i = i + 1;
        }
        Integer { ty, bits_le, mode }
    }

    /// The field element with the same bits, the high ones zero.
    pub fn to_field(&self) -> (r: Literal)
        requires
            is_integer_type(self.ty),
            self.bits_le@.len() == type_bits(self.ty),
        ensures
            r@.ty == LiteralType::Field,
            r@.mode == self.mode,
            r@.bits.len() == FIELD_BITS,
            r@.bits.take(self.bits_le@.len() as int) == self.bits_le@,
            forall|i: int| self.bits_le@.len() <= i < FIELD_BITS ==> !#[trigger] r@.bits[i],
    {
        let mut bits: Vec<bool> = crate::value::copy_bits(&self.bits_le);
        let n = bits.len();
        while bits.len() < FIELD_BITS
            invariant
                n == self.bits_le@.len(),
                n <= 128,
                n <= bits@.len() <= FIELD_BITS,
                bits@.take(n as int) == self.bits_le@,
                forall|i: int| n <= i < bits@.len() ==> !#[trigger] bits@[i],
            decreases FIELD_BITS - bits@.len(),
        {
            let ghost before = bits@;
            bits.push(false);
            assert(bits@.take(n as int) =~= before.take(n as int));
        }
        Literal { ty: LiteralType::Field, bits, mode: self.mode }
    }

    /// Casts a field element to an integer of type `ty` by keeping its low bits, without a carry.
    pub fn from_field(field: &Literal, ty: LiteralType) -> (r: Integer)
        requires
            is_integer_type(ty),
            field@.ty == LiteralType::Field,
            field@.bits.len() == FIELD_BITS,
        ensures
            r.ty == ty,
            r.mode == field.mode,
            r.bits_le@ == field@.bits.take(type_bits(ty) as int),
    {
        let w = width_of(ty);
        let mut bits_le: Vec<bool> = Vec::new();
        let mut i: usize = 0;
        while i < w
            invariant
                w <= 128,
                w as nat == type_bits(ty),
                field@.bits.len() == FIELD_BITS,
                i <= w,
                bits_le@ == field@.bits.take(i as int),
            decreases w - i,
        {
            bits_le.push(field.bits[i]);
            i = i + 1;
            assert(bits_le@ =~= field@.bits.take(i as int));
        }
        Integer { ty, bits_le, mode: field.mode }
    }
}

} // verus!
