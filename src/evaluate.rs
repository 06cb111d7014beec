use vstd::prelude::*;
use vstd::string::*;
use crate::instruction::{BinaryOperation, CommitPed256, HashPsd4, UnaryOperation};
use crate::mode::{rank, Mode};
use crate::registers::{RegisterError, Registers};
use crate::text::{dec, push_decimal};
use crate::value::{
    flat_bits, literals_view, modes_max, value_leaves, Literal, LiteralType, LiteralV, Plaintext,
    PlaintextV, Value, ValueV, FIELD_BITS,
};

verus! {

/// The most bits that `commit.ped256` takes as input.
pub const PED256_MAX_BITS: usize = 256;

/// Which instruction family halted.
#[derive(Clone, Copy, Debug, PartialEq, Eq, Structural)]
pub enum Opcode {
    CommitPed256,
    HashPsd4,
}

/// An unrecoverable abort of an evaluation: the program was ill-typed.
#[derive(Clone, Copy, Debug, PartialEq, Eq, Structural)]
pub enum Halt {
    /// An operand register could not be loaded, or the destination could not be assigned.
    Register(RegisterError),
    /// The flattened input exceeds this many bits.
    InputTooLong(usize),
    /// The opcode does not take an operand of this type.
    InvalidInstruction(Opcode),
    /// The randomness operand of a commitment is not a scalar literal.
    InvalidRandomness,
    /// The primitive gave no result, or one that is not one field element wide.
    InvalidOutput,
}

/// What loading register `k` gives.
pub open spec fn load_spec(regs: Map<u64, Option<ValueV>>, k: u64) -> Result<ValueV, RegisterError> {
    if !regs.contains_key(k) {
        Err(RegisterError::Undefined(k))
    } else {
        match regs[k] {
            Some(v) => Ok(v),
            None => Err(RegisterError::Unassigned(k)),
        }
    }
}

/// The input of `commit.ped256`: the bits to commit to, the randomness bits, and the mode of the
/// output, or why it halts.
pub open spec fn commit_inputs(regs: Map<u64, Option<ValueV>>, o: BinaryOperation) -> Result<
    (Seq<bool>, Seq<bool>, Mode),
    Halt,
> {
    match load_spec(regs, o.first.index) {
        Err(e) => Err(Halt::Register(e)),
        Ok(v1) => match load_spec(regs, o.second.index) {
            Err(e) => Err(Halt::Register(e)),
            Ok(v2) => {
                let bits = flat_bits(value_leaves(v1));
                if bits.len() > PED256_MAX_BITS {
                    Err(Halt::InputTooLong(PED256_MAX_BITS))
                } else {
                    match v2 {
                        ValueV::Plaintext(PlaintextV::Literal(l)) => if l.ty == LiteralType::Scalar {
                            Ok((bits, l.bits, modes_max(value_leaves(v1) + value_leaves(v2))))
                        } else {
                            Err(Halt::InvalidRandomness)
                        },
                        _ => Err(Halt::InvalidRandomness),
                    }
                }
            },
        },
    }
}

/// Bits of a text literal that go into one field element: 31 bytes.
pub const TEXT_CHUNK_BITS: usize = 248;

/// `bits` cut into pieces of `n` bits, the last one possibly shorter.
pub open spec fn chunks(bits: Seq<bool>, n: nat) -> Seq<Seq<bool>>
    decreases bits.len(),
{
    if n == 0 || bits.len() == 0 {
        Seq::empty()
    } else if bits.len() <= n {
        seq![bits]
    } else {
        seq![bits.take(n as int)] + chunks(bits.skip(n as int), n)
    }
}

/// The field elements, as bits, that a literal flattens to: a text literal takes one per 31
/// bytes, any other literal one.
pub open spec fn leaf_elements(l: LiteralV) -> Seq<Seq<bool>> {
    if l.ty == LiteralType::Text {
        chunks(l.bits, TEXT_CHUNK_BITS as nat)
    } else {
        seq![l.bits]
    }
}

/// The field elements of a sequence of literals, one literal after another.
pub open spec fn elements_of(ls: Seq<LiteralV>) -> Seq<Seq<bool>>
    decreases ls.len(),
{
    if ls.len() == 0 {
        Seq::empty()
    } else {
        elements_of(ls.drop_last()) + leaf_elements(ls.last())
    }
}

pub open spec fn bits_view(es: Seq<Vec<bool>>) -> Seq<Seq<bool>> {
    es.map_values(|v: Vec<bool>| v@)
}

/// `bits` without its high zero bits: the same number, in its shortest form.
pub open spec fn trim_zeros(bits: Seq<bool>) -> Seq<bool>
    decreases bits.len(),
{
    if bits.len() > 0 && !bits.last() {
        trim_zeros(bits.drop_last())
    } else {
        bits
    }
}

/// High zero bits do not change an element: a number written with more bits than it needs, such
/// as a one-byte integer and a field element of the same value, gives the same element.
pub proof fn lemma_trim_padding(bits: Seq<bool>, k: nat)
    ensures
        trim_zeros(bits + Seq::new(k, |i: int| false)) == trim_zeros(bits),
    decreases k,
{
    if k > 0 {
        let padded = bits + Seq::new(k, |i: int| false);
        assert(padded.drop_last() =~= bits + Seq::new((k - 1) as nat, |i: int| false));
        lemma_trim_padding(bits, (k - 1) as nat);
    } else {
        assert(bits + Seq::new(0, |i: int| false) =~= bits);
    }
}

/// Each element in its shortest form, so that equal numbers give equal elements.
pub open spec fn trimmed(es: Seq<Seq<bool>>) -> Seq<Seq<bool>> {
    es.map_values(|e: Seq<bool>| trim_zeros(e))
}

/// Most bits of a field element that any bit string of that length can hold.
pub const FIELD_DATA_BITS: usize = 252;

/// The Poseidon hash, input rate 4, of field elements given by their little-endian bits: the bits
/// of the resulting field element, or `None` where an element is not a field element.
pub uninterp spec fn poseidon4_of(elements: Seq<Seq<bool>>) -> Option<Seq<bool>>;

/// Relies on snarkvm's console Poseidon4 set up with the domain `AleoPoseidon4` (its setup and
/// hash do not fail), on `Field::from_bits_le`, which reads any string of at most 252 bits, and on
/// `to_bits_le`, which writes the 253 bits of a field element.
#[verifier::external_body]
fn poseidon4_hash(elements: &Vec<Vec<bool>>) -> (r: Option<Vec<bool>>)
    ensures
        r matches Some(out) ==> poseidon4_of(bits_view(elements@)) == Some(out@) && out@.len()
            == FIELD_BITS,
        r is None ==> poseidon4_of(bits_view(elements@)) is None,
        (forall|i: int| 0 <= i < elements@.len() ==> (#[trigger] elements@[i])@.len() <= FIELD_DATA_BITS)
            ==> r is Some,
{
    let hasher = snarkvm_console_algorithms::Poseidon4::<snarkvm_console_network_environment::Console>::setup(
        "AleoPoseidon4",
    ).ok()?;
    let fields = elements.iter().map(|e| {
        <snarkvm_console_types::Field<snarkvm_console_network_environment::Console> as snarkvm_console_network_environment::FromBits>::from_bits_le(e).ok()
    }).collect::<Option<Vec<_>>>()?;
    let out = snarkvm_console_network_environment::Hash::hash(&hasher, &fields).ok()?;
    Some(snarkvm_console_network_environment::ToBits::to_bits_le(&out))
}

fn trim_bits(v: &Vec<bool>) -> (r: Vec<bool>)
    ensures
        r@ == trim_zeros(v@),
{
    let mut n: usize = v.len();
    assert(v@.take(n as int) =~= v@);
    while n > 0 && !v[n - 1]
        invariant
            n <= v@.len(),
            trim_zeros(v@) == trim_zeros(v@.take(n as int)),
        decreases n,
    {
        assert(v@.take(n as int).drop_last() =~= v@.take(n - 1));
        n = n - 1;
    }
    let mut r: Vec<bool> = Vec::new();
    let mut j: usize = 0;
    while j < n
        invariant
            j <= n <= v@.len(),
            r@ == v@.take(j as int),
        decreases n - j,
    {
        r.push(v[j]);
        j = j + 1;
        assert(r@ =~= v@.take(j as int));
    }
    r
}

/// Returns each element in its shortest form.
pub fn trim_elements(es: &Vec<Vec<bool>>) -> (r: Vec<Vec<bool>>)
    ensures
        bits_view(r@) == trimmed(bits_view(es@)),
{
    let mut out: Vec<Vec<bool>> = Vec::new();
    let mut i: usize = 0;
    while i < es.len()
        invariant
            i <= es@.len(),
            out@.len() == i,
            forall|j: int| 0 <= j < i ==> (#[trigger] out@[j])@ == trim_zeros(es@[j]@),
        decreases es@.len() - i,
    {
        let t = trim_bits(&es[i]);
        out.push(t);
        i = i + 1;
    }
    assert(bits_view(out@) =~= trimmed(bits_view(es@)));
    out
}

fn push_chunks(bits: &Vec<bool>, out: &mut Vec<Vec<bool>>)
    ensures
        bits_view(final(out)@) == bits_view(old(out)@) + chunks(bits@, TEXT_CHUNK_BITS as nat),
{
    let n = bits.len();
    let mut i: usize = 0;
    assert(bits@.skip(0) =~= bits@);
    while i < n
        invariant
            n == bits@.len(),
            i <= n,
            bits_view(old(out)@) + chunks(bits@, TEXT_CHUNK_BITS as nat) == bits_view(out@) + chunks(
                bits@.skip(i as int),
                TEXT_CHUNK_BITS as nat,
            ),
        decreases n - i,
    {
        let end = if n - i > TEXT_CHUNK_BITS {
            i + TEXT_CHUNK_BITS
        } else {
            n
        };
        let mut chunk: Vec<bool> = Vec::new();
        let mut j: usize = i;
        while j < end
            invariant
                i <= j <= end <= n,
                n == bits@.len(),
                chunk@ == bits@.subrange(i as int, j as int),
            decreases end - j,
        {
            chunk.push(bits[j]);
            j = j + 1;
            assert(chunk@ =~= bits@.subrange(i as int, j as int));
        }
        let ghost rest = bits@.skip(i as int);
        proof {
            if end == n {
                assert(chunk@ =~= rest);
                assert(bits@.skip(end as int) =~= Seq::<bool>::empty());
            } else {
                assert(chunk@ =~= rest.take(TEXT_CHUNK_BITS as int));
                assert(rest.skip(TEXT_CHUNK_BITS as int) =~= bits@.skip(end as int));
            }
        }
        let ghost before = out@;
        out.push(chunk);
        proof {
            assert(bits_view(out@) =~= bits_view(before) + seq![chunk@]);
            assert(chunks(bits@.skip(end as int), TEXT_CHUNK_BITS as nat) =~= chunks(
                bits@.skip(end as int),
                TEXT_CHUNK_BITS as nat,
            ));
            if end == n {
                assert(chunks(bits@.skip(end as int), TEXT_CHUNK_BITS as nat) =~= Seq::<Seq<bool>>::empty());
                assert(chunks(rest, TEXT_CHUNK_BITS as nat) =~= seq![chunk@]);
            }
            assert(bits_view(out@) + chunks(bits@.skip(end as int), TEXT_CHUNK_BITS as nat)
                =~= bits_view(before) + chunks(rest, TEXT_CHUNK_BITS as nat));
        }
        i = end;
    }
    assert(chunks(bits@.skip(i as int), TEXT_CHUNK_BITS as nat) =~= Seq::<Seq<bool>>::empty());
    assert(bits_view(out@) + Seq::<Seq<bool>>::empty() =~= bits_view(out@));
}

/// Returns the field elements, as bits, that the literals flatten to.
pub fn field_elements(ls: &Vec<Literal>) -> (r: Vec<Vec<bool>>)
    ensures
        bits_view(r@) == elements_of(literals_view(ls@)),
{
    let mut out: Vec<Vec<bool>> = Vec::new();
    let mut i: usize = 0;
    while i < ls.len()
        invariant
            i <= ls@.len(),
            bits_view(out@) == elements_of(literals_view(ls@.take(i as int))),
        decreases ls@.len() - i,
    {
        let ghost before = bits_view(out@);
        if ls[i].ty == LiteralType::Text {
            push_chunks(&ls[i].bits, &mut out);
        } else {
            out.push(crate::value::copy_bits(&ls[i].bits));
            assert(bits_view(out@) =~= before + seq![ls@[i as int].bits@]);
        }
        proof {
            let v = literals_view(ls@.take(i + 1));
            assert(v.drop_last() =~= literals_view(ls@.take(i as int)));
            assert(v.last() == ls@[i as int]@);
        }
        i = i + 1;
    }
    assert(ls@.take(i as int) =~= ls@);
    out
}

/// Whether `hash.psd4` refuses a literal of this type.
pub open spec fn psd4_refuses(t: LiteralType) -> bool {
    t == LiteralType::Boolean || t == LiteralType::Group || t == LiteralType::Address
}

/// The input of `hash.psd4`: the field elements of its leaves and the mode of the output, or why
/// it halts.
pub open spec fn hash_inputs(regs: Map<u64, Option<ValueV>>, o: UnaryOperation) -> Result<
    (Seq<Seq<bool>>, Mode),
    Halt,
> {
    match load_spec(regs, o.operand.index) {
        Err(e) => Err(Halt::Register(e)),
        Ok(v) => match v {
            ValueV::Plaintext(PlaintextV::Literal(l)) if psd4_refuses(l.ty) => Err(
                Halt::InvalidInstruction(Opcode::HashPsd4),
            ),
            _ => Ok((trimmed(elements_of(value_leaves(v))), modes_max(value_leaves(v)))),
        },
    }
}

/// The register file after the result is written to `d`, or why that halts.
pub open spec fn store_spec(regs: Map<u64, Option<ValueV>>, d: u64, v: ValueV) -> Result<
    Map<u64, Option<ValueV>>,
    Halt,
> {
    if !regs.contains_key(d) {
        Err(Halt::Register(RegisterError::Undefined(d)))
    } else if regs[d] is Some {
        Err(Halt::Register(RegisterError::AlreadyAssigned(d)))
    } else {
        Ok(regs.insert(d, Some(v)))
    }
}

/// The result value of an instruction: one literal.
pub open spec fn output_value(ty: LiteralType, bits: Seq<bool>, mode: Mode) -> ValueV {
    ValueV::Plaintext(PlaintextV::Literal(LiteralV { ty, bits, mode }))
}

/// How the register file ends after the primitive returned `out`: its result is written to `d`
/// with `mode`, or the evaluation halts and the file is left as it was.
pub open spec fn evaluated(
    before: Map<u64, Option<ValueV>>,
    after: Map<u64, Option<ValueV>>,
    r: Result<(), Halt>,
    d: u64,
    ty: LiteralType,
    out: Seq<bool>,
    mode: Mode,
) -> bool {
    if out.len() != FIELD_BITS {
        r == Err::<(), Halt>(Halt::InvalidOutput) && after == before
    } else {
        match store_spec(before, d, output_value(ty, out, mode)) {
            Ok(m) => r is Ok && after == m,
            Err(h) => r == Err::<(), Halt>(h) && after == before,
        }
    }
}

/// What a commitment is computed over.
pub struct CommitInput {
    pub message: Vec<bool>,
    pub randomness: Vec<bool>,
    pub mode: Mode,
}

/// What a hash is computed over.
pub struct HashInput {
    pub elements: Vec<Vec<bool>>,
    pub mode: Mode,
}

fn load(registers: &Registers, k: u64) -> (r: Result<&Value, Halt>)
    requires
        registers.wf(),
    ensures
        match r {
            Ok(v) => load_spec(registers@, k) == Ok::<ValueV, RegisterError>(v@),
            Err(h) => load_spec(registers@, k) matches Err(e) && h == Halt::Register(e),
        },
{
    match registers.load(k) {
        Ok(v) => Ok(v),
        Err(e) => Err(Halt::Register(e)),
    }
}

fn store(registers: &mut Registers, d: u64, v: Value) -> (r: Result<(), Halt>)
    requires
        old(registers).wf(),
    ensures
        final(registers).wf(),
        match store_spec(old(registers)@, d, v@) {
            Ok(m) => r is Ok && final(registers)@ == m,
            Err(h) => r == Err::<(), Halt>(h) && final(registers)@ == old(registers)@,
        },
{
    let ghost w = v@;
    match registers.assign(d, v) {
        Ok(()) => Ok(()),
        Err(e) => Err(Halt::Register(e)),
    }
}

impl CommitPed256 {
    /// Resolves the operands and checks them: the input flattens to at most 256 bits, and the
    /// randomness is a scalar. The output mode is the largest mode among the leaves of both.
    pub fn prepare(&self, registers: &Registers) -> (r: Result<CommitInput, Halt>)
        requires
            registers.wf(),
        ensures
            match r {
                Ok(ci) => commit_inputs(registers@, self.operation) == Ok::<
                    (Seq<bool>, Seq<bool>, Mode),
                    Halt,
                >((ci.message@, ci.randomness@, ci.mode)),
                Err(h) => commit_inputs(registers@, self.operation) == Err::<
                    (Seq<bool>, Seq<bool>, Mode),
                    Halt,
                >(h),
            },
    {
        let first = load(registers, self.operation.first.index)?;
        let second = load(registers, self.operation.second.index)?;
        let mut message: Vec<bool> = Vec::new();
        first.flatten_into(&mut message);
        assert(message@ =~= flat_bits(value_leaves(first@)));
        if message.len() > PED256_MAX_BITS {
            return Err(Halt::InputTooLong(PED256_MAX_BITS));
        }
        match second {
            Value::Plaintext(Plaintext::Literal(l)) => {
                if l.ty != LiteralType::Scalar {
                    return Err(Halt::InvalidRandomness);
                }
                let m1 = first.mode();
                let m2 = second.mode();
                proof {
                    crate::value::lemma_modes_max_concat(value_leaves(first@), value_leaves(second@));
                }
                let randomness = crate::value::copy_bits(&l.bits);
                Ok(CommitInput { message, randomness, mode: m1.max(m2) })
            },
            _ => Err(Halt::InvalidRandomness),
        }
    }

    /// Writes the commitment, the group element `output`, to the destination register with the
    /// input's mode.
    pub fn finish(&self, registers: &mut Registers, input: &CommitInput, output: Vec<bool>) -> (r:
        Result<(), Halt>)
        requires
            old(registers).wf(),
            output@.len() == FIELD_BITS,
        ensures
            final(registers).wf(),
            match store_spec(
                old(registers)@,
                self.operation.destination.index,
                output_value(LiteralType::Group, output@, input.mode),
            ) {
                Ok(m) => r is Ok && final(registers)@ == m,
                Err(h) => r == Err::<(), Halt>(h) && final(registers)@ == old(registers)@,
            },
    {
        let lit = Literal { ty: LiteralType::Group, bits: output, mode: input.mode };
        store(registers, self.operation.destination.index, Value::Plaintext(Plaintext::Literal(lit)))
    }

    /// Evaluates the instruction: resolves and checks the operands, computes the commitment with
    /// `commit` from the input bits and the randomness bits to the bits of a group element, and
    /// writes it to the destination with the largest mode among the leaves of both operands.
    pub fn evaluate<F: Fn(Vec<bool>, Vec<bool>) -> Vec<bool>>(
        &self,
        registers: &mut Registers,
        commit: F,
    ) -> (r: Result<(), Halt>)
        requires
            old(registers).wf(),
            forall|m: Vec<bool>, k: Vec<bool>| call_requires(commit, (m, k)),
        ensures
            final(registers).wf(),
            commit_inputs(old(registers)@, self.operation) matches Err(h) ==> r == Err::<(), Halt>(h)
                && final(registers)@ == old(registers)@,
            commit_inputs(old(registers)@, self.operation) matches Ok((m, k, mode)) ==> exists|
                a: Vec<bool>,
                b: Vec<bool>,
                out: Vec<bool>,
            |
                a@ == m && b@ == k && call_ensures(commit, (a, b), out) && evaluated(
                    old(registers)@,
                    final(registers)@,
                    r,
                    self.operation.destination.index,
                    LiteralType::Group,
                    out@,
                    mode,
                ),
    {
        let input = self.prepare(registers)?;
        let mode = input.mode;
        let ghost a = input.message;
        let ghost b = input.randomness;
        let out = commit(input.message, input.randomness);
        if out.len() != FIELD_BITS {
            let ghost d = self.operation.destination.index;
            assert(evaluated(
                old(registers)@,
                registers@,
                Err(Halt::InvalidOutput),
                d,
                LiteralType::Group,
                out@,
                mode,
            ));
            return Err(Halt::InvalidOutput);
        }
        let ghost out_v = out;
        let lit = Literal { ty: LiteralType::Group, bits: out, mode };
        let d = self.operation.destination.index;
        let r = store(registers, d, Value::Plaintext(Plaintext::Literal(lit)));
        assert(evaluated(old(registers)@, registers@, r, d, LiteralType::Group, out_v@, mode));
        r
    }
}

impl HashPsd4 {
    /// Evaluates the instruction: resolves and checks the operand, computes the hash with `hash`
    /// from the input bits to the bits of a field element, and writes it to the destination with
    /// the largest mode among the operand's leaves.
    pub fn evaluate<F: Fn(Vec<Vec<bool>>) -> Vec<bool>>(&self, registers: &mut Registers, hash: F) -> (r:
        Result<(), Halt>)
        requires
            old(registers).wf(),
            forall|m: Vec<Vec<bool>>| call_requires(hash, (m,)),
        ensures
            final(registers).wf(),
            hash_inputs(old(registers)@, self.operation) matches Err(h) ==> r == Err::<(), Halt>(h)
                && final(registers)@ == old(registers)@,
            hash_inputs(old(registers)@, self.operation) matches Ok((m, mode)) ==> exists|
                a: Vec<Vec<bool>>,
                out: Vec<bool>,
            |
                bits_view(a@) == m && call_ensures(hash, (a,), out) && evaluated(
                    old(registers)@,
                    final(registers)@,
                    r,
                    self.operation.destination.index,
                    LiteralType::Field,
                    out@,
                    mode,
                ),
    {
        let input = self.prepare(registers)?;
        let mode = input.mode;
        let ghost a = input.elements;
        let out = hash(input.elements);
        if out.len() != FIELD_BITS {
            let ghost d = self.operation.destination.index;
            assert(evaluated(
                old(registers)@,
                registers@,
                Err(Halt::InvalidOutput),
                d,
                LiteralType::Field,
                out@,
                mode,
            ));
            return Err(Halt::InvalidOutput);
        }
        let ghost out_v = out;
        let lit = Literal { ty: LiteralType::Field, bits: out, mode };
        let d = self.operation.destination.index;
        let r = store(registers, d, Value::Plaintext(Plaintext::Literal(lit)));
        assert(evaluated(old(registers)@, registers@, r, d, LiteralType::Field, out_v@, mode));
        r
    }

    /// Resolves the operand and checks it: a boolean, group or address literal is refused. The
    /// output mode is the largest mode among its leaves.
    pub fn prepare(&self, registers: &Registers) -> (r: Result<HashInput, Halt>)
        requires
            registers.wf(),
        ensures
            match r {
                Ok(hi) => hash_inputs(registers@, self.operation) == Ok::<
                    (Seq<Seq<bool>>, Mode),
                    Halt,
                >((bits_view(hi.elements@), hi.mode)),
                Err(h) => hash_inputs(registers@, self.operation) == Err::<
                    (Seq<Seq<bool>>, Mode),
                    Halt,
                >(h),
            },
    {
        let v = load(registers, self.operation.operand.index)?;
        if let Value::Plaintext(Plaintext::Literal(l)) = v {
            match l.ty {
                LiteralType::Boolean | LiteralType::Group | LiteralType::Address => {
                    return Err(Halt::InvalidInstruction(Opcode::HashPsd4));
                },
                _ => {},
            }
        }
        let leaves = v.leaves();
        let elements = trim_elements(&field_elements(&leaves));
        let mode = v.mode();
        Ok(HashInput { elements, mode })
    }

    /// Evaluates the instruction with snarkvm's Poseidon4 as the hash: resolves and checks the
    /// operand, hashes its field elements, and writes the result to the destination with the
    /// largest mode among the operand's leaves. Where an element is not a field element, it halts
    /// with `InvalidOutput` and leaves the registers as they were; that cannot happen when every
    /// element has at most 252 bits.
    pub fn evaluate_poseidon(&self, registers: &mut Registers) -> (r: Result<(), Halt>)
        requires
            old(registers).wf(),
        ensures
            final(registers).wf(),
            hash_inputs(old(registers)@, self.operation) matches Err(h) ==> r == Err::<(), Halt>(h)
                && final(registers)@ == old(registers)@,
            hash_inputs(old(registers)@, self.operation) matches Ok((m, mode)) ==> match poseidon4_of(
                m,
            ) {
                Some(out) => evaluated(
                    old(registers)@,
                    final(registers)@,
                    r,
                    self.operation.destination.index,
                    LiteralType::Field,
                    out,
                    mode,
                ),
                None => r == Err::<(), Halt>(Halt::InvalidOutput) && final(registers)@ == old(
                    registers,
                )@,
            },
            hash_inputs(old(registers)@, self.operation) matches Ok((m, _)) ==> ((forall|i: int|
                0 <= i < m.len() ==> (#[trigger] m[i]).len() <= FIELD_DATA_BITS) ==> poseidon4_of(
                m,
            ) is Some),
    {
        let input = self.prepare(registers)?;
        proof {
            assert forall|i: int| 0 <= i < input.elements@.len() implies (#[trigger] input.elements@[i])@
                == bits_view(input.elements@)[i] by {}
        }
        let out = match poseidon4_hash(&input.elements) {
            Some(out) => out,
            None => {
                return Err(Halt::InvalidOutput);
            },
        };
        self.finish(registers, &input, out)
    }

    /// Writes the hash, the field element `output`, to the destination register with the
    /// input's mode.
    pub fn finish(&self, registers: &mut Registers, input: &HashInput, output: Vec<bool>) -> (r:
        Result<(), Halt>)
        requires
            old(registers).wf(),
            output@.len() == FIELD_BITS,
        ensures
            final(registers).wf(),
            match store_spec(
                old(registers)@,
                self.operation.destination.index,
                output_value(LiteralType::Field, output@, input.mode),
            ) {
                Ok(m) => r is Ok && final(registers)@ == m,
                Err(h) => r == Err::<(), Halt>(h) && final(registers)@ == old(registers)@,
            },
    {
        let lit = Literal { ty: LiteralType::Field, bits: output, mode: input.mode };
        store(registers, self.operation.destination.index, Value::Plaintext(Plaintext::Literal(lit)))
    }
}

impl Opcode {
    /// The mnemonic of the opcode.
    pub fn mnemonic(&self) -> (r: &'static str)
        ensures
            r@ == opcode_text(*self),
    {
        match self {
            Opcode::CommitPed256 => CommitPed256::opcode(),
            Opcode::HashPsd4 => HashPsd4::opcode(),
        }
    }
}

pub open spec fn opcode_text(o: Opcode) -> Seq<char> {
    match o {
        Opcode::CommitPed256 => crate::instruction::commit_ped256_opcode(),
        Opcode::HashPsd4 => crate::instruction::hash_psd4_opcode(),
    }
}

impl Halt {
    /// A message that says why the evaluation halted, naming the bound or the opcode.
    pub fn message(&self) -> (r: String)
        ensures
            *self matches Halt::InputTooLong(n) ==> r@ == "The Pedersen hash input cannot exceed "@
                + dec(n as nat) + " bits."@,
            *self matches Halt::InvalidInstruction(o) ==> r@ == "Invalid '"@ + opcode_text(o)
                + "' instruction"@,
            *self matches Halt::Register(RegisterError::Undefined(k)) ==> r@ == "Register r"@ + dec(
                k as nat,
            ) + " is not defined"@,
            *self matches Halt::Register(RegisterError::AlreadyDefined(k)) ==> r@ == "Register r"@
                + dec(k as nat) + " is already defined"@,
            *self matches Halt::Register(RegisterError::AlreadyAssigned(k)) ==> r@ == "Register r"@
                + dec(k as nat) + " is already assigned"@,
            *self matches Halt::Register(RegisterError::Unassigned(k)) ==> r@ == "Register r"@ + dec(
                k as nat,
            ) + " is not assigned"@,
            *self == Halt::InvalidRandomness ==> r@ == "The commitment randomness must be a scalar"@,
            *self == Halt::InvalidOutput ==> r@ == "The primitive gave no well-formed element"@,
    {
        match self {
            Halt::Register(RegisterError::Undefined(k)) => {
                let mut out = String::from_str("Register r");
                push_decimal(&mut out, *k);
                out.append(" is not defined");
                out
            },
            Halt::Register(RegisterError::AlreadyDefined(k)) => {
                let mut out = String::from_str("Register r");
                push_decimal(&mut out, *k);
                out.append(" is already defined");
                out
            },
            Halt::Register(RegisterError::AlreadyAssigned(k)) => {
                let mut out = String::from_str("Register r");
                push_decimal(&mut out, *k);
                out.append(" is already assigned");
                out
            },
            Halt::Register(RegisterError::Unassigned(k)) => {
                let mut out = String::from_str("Register r");
                push_decimal(&mut out, *k);
                out.append(" is not assigned");
                out
            },
            Halt::InputTooLong(n) => {
                let mut out = String::from_str("The Pedersen hash input cannot exceed ");
                push_decimal(&mut out, *n as u64);
                out.append(" bits.");
                out
            },
            Halt::InvalidInstruction(o) => {
                let mut out = String::from_str("Invalid '");
                out.append(o.mnemonic());
                out.append("' instruction");
                out
            },
            Halt::InvalidRandomness => String::from_str("The commitment randomness must be a scalar"),
            Halt::InvalidOutput => String::from_str("The primitive gave no well-formed element"),
        }
    }
}

/// The output mode of an instruction bounds the mode of every literal leaf that it consumed, and
/// equals the mode of one of them where there is one.
pub proof fn lemma_modes_max_is_max(ls: Seq<LiteralV>)
    ensures
        forall|i: int| 0 <= i < ls.len() ==> rank(#[trigger] ls[i].mode) <= rank(modes_max(ls)),
        ls.len() > 0 ==> exists|i: int| 0 <= i < ls.len() && #[trigger] ls[i].mode == modes_max(ls),
    decreases ls.len(),
{
    if ls.len() > 0 {
        let init = ls.drop_last();
        lemma_modes_max_is_max(init);
        assert forall|i: int| 0 <= i < ls.len() implies rank(#[trigger] ls[i].mode) <= rank(
            modes_max(ls),
        ) by {
            if i < ls.len() - 1 {
                assert(ls[i] == init[i]);
            }
        }
        if init.len() > 0 && rank(modes_max(init)) >= rank(ls.last().mode) {
            let j = choose|j: int| 0 <= j < init.len() && #[trigger] init[j].mode == modes_max(init);
            assert(ls[j] == init[j]);
        } else {
            assert(ls[ls.len() - 1].mode == modes_max(ls));
        }
    }
}

/// Visibility propagation: the mode of a commitment is the largest mode among the leaves of its
/// input and of its randomness, so it is at least that of each; the mode of a hash is the largest
/// among the leaves of its input.
pub proof fn lemma_output_mode(regs: Map<u64, Option<ValueV>>, c: BinaryOperation, h: UnaryOperation)
    ensures
        commit_inputs(regs, c) matches Ok((_, _, m)) ==> {
            &&& load_spec(regs, c.first.index) matches Ok(v1)
            &&& load_spec(regs, c.second.index) matches Ok(v2)
            &&& m == modes_max(value_leaves(v1) + value_leaves(v2))
            &&& forall|i: int|
                0 <= i < (value_leaves(v1) + value_leaves(v2)).len() ==> rank(
                    #[trigger] (value_leaves(v1) + value_leaves(v2))[i].mode,
                ) <= rank(m)
        },
        hash_inputs(regs, h) matches Ok((_, m)) ==> {
            &&& load_spec(regs, h.operand.index) matches Ok(v)
            &&& m == modes_max(value_leaves(v))
            &&& forall|i: int|
                0 <= i < value_leaves(v).len() ==> rank(#[trigger] value_leaves(v)[i].mode) <= rank(m)
        },
{
    if let Ok(v1) = load_spec(regs, c.first.index) {
        if let Ok(v2) = load_spec(regs, c.second.index) {
            lemma_modes_max_is_max(value_leaves(v1) + value_leaves(v2));
        }
    }
    if let Ok(v) = load_spec(regs, h.operand.index) {
        lemma_modes_max_is_max(value_leaves(v));
    }
}

/// Domain checks: a commitment input that flattens to more than 256 bits halts naming the bound,
/// and `hash.psd4` on a boolean, group or address literal halts naming the opcode.
pub proof fn lemma_domain_checks(regs: Map<u64, Option<ValueV>>, c: BinaryOperation, h: UnaryOperation)
    ensures
        (load_spec(regs, c.first.index) matches Ok(v1) && load_spec(regs, c.second.index) is Ok
            && flat_bits(value_leaves(v1)).len() > 256) ==> commit_inputs(regs, c) == Err::<
            (Seq<bool>, Seq<bool>, Mode),
            Halt,
        >(Halt::InputTooLong(256)),
        (load_spec(regs, h.operand.index) matches Ok(ValueV::Plaintext(PlaintextV::Literal(l)))
            && psd4_refuses(l.ty)) ==> hash_inputs(regs, h) == Err::<(Seq<Seq<bool>>, Mode), Halt>(
            Halt::InvalidInstruction(Opcode::HashPsd4),
        ),
{
}

} // verus!
