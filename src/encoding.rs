use vstd::prelude::*;
use crate::instruction::{
    BinaryOperation, CommitPed256, HashPsd4, Instruction, Register, UnaryOperation,
};

verus! {

/// The eight little-endian bytes of `n`.
pub open spec fn u64_le(n: u64) -> Seq<u8> {
    seq![
        n as u8,
        (n >> 8u64) as u8,
        (n >> 16u64) as u8,
        (n >> 24u64) as u8,
        (n >> 32u64) as u8,
        (n >> 40u64) as u8,
        (n >> 48u64) as u8,
        (n >> 56u64) as u8,
    ]
}

/// The number whose little-endian bytes stand at `p..p + 8` of `b`.
pub open spec fn u64_at(b: Seq<u8>, p: int) -> u64 {
    (b[p] as u64) | ((b[p + 1] as u64) << 8u64) | ((b[p + 2] as u64) << 16u64) | ((b[p + 3] as u64)
        << 24u64) | ((b[p + 4] as u64) << 32u64) | ((b[p + 5] as u64) << 40u64) | ((b[p + 6] as u64)
        << 48u64) | ((b[p + 7] as u64) << 56u64)
}

/// The stable tag of each opcode, little-endian over two bytes.
pub open spec fn opcode_tag(i: Instruction) -> Seq<u8> {
    match i {
        Instruction::CommitPed256(_) => seq![0u8, 0u8],
        Instruction::HashPsd4(_) => seq![1u8, 0u8],
    }
}

/// The binary form of an instruction: its tag, its operands, then its destination.
pub open spec fn encode(i: Instruction) -> Seq<u8> {
    match i {
        Instruction::CommitPed256(c) => opcode_tag(i) + u64_le(c.operation.first.index) + u64_le(
            c.operation.second.index,
        ) + u64_le(c.operation.destination.index),
        Instruction::HashPsd4(h) => opcode_tag(i) + u64_le(h.operation.operand.index) + u64_le(
            h.operation.destination.index,
        ),
    }
}

/// The instruction whose binary form is `b`, if there is one.
pub open spec fn decode(b: Seq<u8>) -> Option<Instruction> {
    if b.len() == 26 && b[0] == 0 && b[1] == 0 {
        Some(
            Instruction::CommitPed256(
                CommitPed256 {
                    operation: BinaryOperation {
                        first: Register { index: u64_at(b, 2) },
                        second: Register { index: u64_at(b, 10) },
                        destination: Register { index: u64_at(b, 18) },
                    },
                },
            ),
        )
    } else if b.len() == 18 && b[0] == 1 && b[1] == 0 {
        Some(
            Instruction::HashPsd4(
                HashPsd4 {
                    operation: UnaryOperation {
                        operand: Register { index: u64_at(b, 2) },
                        destination: Register { index: u64_at(b, 10) },
                    },
                },
            ),
        )
    } else {
        None
    }
}

/// Why bytes could not be read as an instruction.
#[derive(Clone, Copy, Debug, PartialEq, Eq, Structural)]
pub enum DecodeError {
    /// The tag names no opcode.
    UnknownOpcode(u16),
    /// The input is not as long as its contents ask.
    WrongLength(usize),
    /// No valid identifier is encoded at this byte position.
    InvalidIdentifier(usize),
}

pub proof fn lemma_u64_round_trip(n: u64)
    ensures
        u64_at(u64_le(n), 0) == n,
{
    let b = u64_le(n);
    assert(((n as u8) as u64) | ((((n >> 8u64) as u8) as u64) << 8u64) | ((((n >> 16u64) as u8) as u64)
        << 16u64) | ((((n >> 24u64) as u8) as u64) << 24u64) | ((((n >> 32u64) as u8) as u64)
        << 32u64) | ((((n >> 40u64) as u8) as u64) << 40u64) | ((((n >> 48u64) as u8) as u64)
        << 48u64) | ((((n >> 56u64) as u8) as u64) << 56u64) == n) by (bit_vector);
}

pub(crate) fn write_u64(out: &mut Vec<u8>, n: u64)
    ensures
        final(out)@ == old(out)@ + u64_le(n),
{
    out.push(n as u8);
    out.push((n >> 8) as u8);
    out.push((n >> 16) as u8);
    out.push((n >> 24) as u8);
    out.push((n >> 32) as u8);
    out.push((n >> 40) as u8);
    out.push((n >> 48) as u8);
    out.push((n >> 56) as u8);
    assert(final(out)@ =~= old(out)@ + u64_le(n));
}

pub(crate) fn read_u64(b: &[u8], p: usize) -> (r: u64)
    requires
        p + 8 <= b@.len(),
    ensures
        r == u64_at(b@, p as int),
{
    (b[p] as u64) | ((b[p + 1] as u64) << 8) | ((b[p + 2] as u64) << 16) | ((b[p + 3] as u64) << 24)
        | ((b[p + 4] as u64) << 32) | ((b[p + 5] as u64) << 40) | ((b[p + 6] as u64) << 48) | ((b[p
        + 7] as u64) << 56)
}

impl Instruction {
    /// Returns the binary form of the instruction.
    pub fn to_bytes_le(&self) -> (r: Vec<u8>)
        ensures
            r@ == encode(*self),
    {
        let mut out: Vec<u8> = Vec::new();
        match self {
            Instruction::CommitPed256(c) => {
                out.push(0u8);
                out.push(0u8);
                write_u64(&mut out, c.operation.first.index);
                write_u64(&mut out, c.operation.second.index);
                write_u64(&mut out, c.operation.destination.index);
            },
            Instruction::HashPsd4(h) => {
                out.push(1u8);
                out.push(0u8);
                write_u64(&mut out, h.operation.operand.index);
                write_u64(&mut out, h.operation.destination.index);
            },
        }
        assert(out@ =~= encode(*self));
        out
    }

    /// Reads an instruction from its binary form, which must be all of `b`.
    pub fn from_bytes_le(b: &[u8]) -> (r: Result<Instruction, DecodeError>)
        ensures
            r is Ok <==> decode(b@) is Some,
            r matches Ok(i) ==> decode(b@) == Some(i),
            r matches Err(DecodeError::UnknownOpcode(t)) ==> b@.len() >= 2 && t == b@[0] as u16
                + 256 * (b@[1] as u16) && t != 0 && t != 1,
            r matches Err(DecodeError::WrongLength(n)) ==> n == b@.len(),
    {
        if b.len() < 2 {
            return Err(DecodeError::WrongLength(b.len()));
        }
        let tag: u16 = b[0] as u16 + 256 * (b[1] as u16);
        if tag == 0 {
            if b.len() != 26 {
                return Err(DecodeError::WrongLength(b.len()));
            }
            let first = read_u64(b, 2);
            let second = read_u64(b, 10);
            let destination = read_u64(b, 18);
            Ok(
                Instruction::CommitPed256(
                    CommitPed256 {
                        operation: BinaryOperation {
                            first: Register { index: first },
                            second: Register { index: second },
                            destination: Register { index: destination },
                        },
                    },
                ),
            )
        } else if tag == 1 {
            if b.len() != 18 {
                return Err(DecodeError::WrongLength(b.len()));
            }
            let operand = read_u64(b, 2);
            let destination = read_u64(b, 10);
            Ok(
                Instruction::HashPsd4(
                    HashPsd4 {
                        operation: UnaryOperation {
                            operand: Register { index: operand },
                            destination: Register { index: destination },
                        },
                    },
                ),
            )
        } else {
            Err(DecodeError::UnknownOpcode(tag))
        }
    }
}

/// Reading the binary form of an instruction gives back the instruction.
pub proof fn lemma_bytes_round_trip(i: Instruction)
    ensures
        decode(encode(i)) == Some(i),
{
    let b = encode(i);
    match i {
        Instruction::CommitPed256(c) => {
            let o = c.operation;
            assert(b.subrange(2, 10) =~= u64_le(o.first.index));
            assert(b.subrange(10, 18) =~= u64_le(o.second.index));
            assert(b.subrange(18, 26) =~= u64_le(o.destination.index));
            lemma_u64_at_shift(b, 2);
            lemma_u64_at_shift(b, 10);
            lemma_u64_at_shift(b, 18);
            lemma_u64_round_trip(o.first.index);
            lemma_u64_round_trip(o.second.index);
            lemma_u64_round_trip(o.destination.index);
        },
        Instruction::HashPsd4(h) => {
            let o = h.operation;
            assert(b.subrange(2, 10) =~= u64_le(o.operand.index));
            assert(b.subrange(10, 18) =~= u64_le(o.destination.index));
            lemma_u64_at_shift(b, 2);
            lemma_u64_at_shift(b, 10);
            lemma_u64_round_trip(o.operand.index);
            lemma_u64_round_trip(o.destination.index);
        },
    }
}

pub proof fn lemma_u64_at_shift(b: Seq<u8>, p: int)
    requires
        0 <= p,
        p + 8 <= b.len(),
    ensures
        u64_at(b, p) == u64_at(b.subrange(p, p + 8), 0),
{
    let s = b.subrange(p, p + 8);
    assert(s[0] == b[p] && s[1] == b[p + 1] && s[2] == b[p + 2] && s[3] == b[p + 3]);
    assert(s[4] == b[p + 4] && s[5] == b[p + 5] && s[6] == b[p + 6] && s[7] == b[p + 7]);
}

} // verus!
