use vstd::prelude::*;
use vstd::string::*;
use crate::identifier::ParseError;
use crate::text::{
    after_lit, canonical_digits, dec, digit_run, digits_value, is_digit, lemma_dec,
    lemma_dec_of_digits, lemma_digit_run_bounds, lemma_digit_run_exact, parse_decimal,
    push_decimal,
};

verus! {

/// A register of a function's register file, by index.
#[derive(Clone, Copy, Debug, PartialEq, Eq, Structural)]
pub struct Register {
    pub index: u64,
}

/// An instruction with one operand: `r{a} into r{d}`.
#[derive(Clone, Copy, Debug, PartialEq, Eq, Structural)]
pub struct UnaryOperation {
    pub operand: Register,
    pub destination: Register,
}

/// An instruction with two operands: `r{a} r{b} into r{d}`.
#[derive(Clone, Copy, Debug, PartialEq, Eq, Structural)]
pub struct BinaryOperation {
    pub first: Register,
    pub second: Register,
    pub destination: Register,
}

/// Performs a Pedersen commitment of an input of at most 256 bits, with a scalar as randomness.
#[derive(Clone, Copy, Debug, PartialEq, Eq, Structural)]
pub struct CommitPed256 {
    pub operation: BinaryOperation,
}

/// Performs a Poseidon hash with an input rate of 4.
#[derive(Clone, Copy, Debug, PartialEq, Eq, Structural)]
pub struct HashPsd4 {
    pub operation: UnaryOperation,
}

/// An instruction of the virtual machine, one variant per opcode.
#[derive(Clone, Copy, Debug, PartialEq, Eq, Structural)]
pub enum Instruction {
    CommitPed256(CommitPed256),
    HashPsd4(HashPsd4),
}

pub open spec fn register_text(r: Register) -> Seq<char> {
    seq!['r'] + dec(r.index as nat)
}

pub open spec fn space() -> Seq<char> {
    seq![' ']
}

pub open spec fn into_text() -> Seq<char> {
    seq![' ', 'i', 'n', 't', 'o', ' ']
}

pub open spec fn commit_ped256_opcode() -> Seq<char> {
    seq!['c', 'o', 'm', 'm', 'i', 't', '.', 'p', 'e', 'd', '2', '5', '6']
}

pub open spec fn hash_psd4_opcode() -> Seq<char> {
    seq!['h', 'a', 's', 'h', '.', 'p', 's', 'd', '4']
}

pub open spec fn unary_text(o: UnaryOperation) -> Seq<char> {
    register_text(o.operand) + into_text() + register_text(o.destination)
}

pub open spec fn binary_text(o: BinaryOperation) -> Seq<char> {
    register_text(o.first) + space() + register_text(o.second) + into_text() + register_text(
        o.destination,
    )
}

/// The canonical text of an instruction: `opcode operands into destination;`.
pub open spec fn instruction_text(i: Instruction) -> Seq<char> {
    match i {
        Instruction::CommitPed256(c) => commit_ped256_opcode() + space() + binary_text(c.operation)
            + seq![';'],
        Instruction::HashPsd4(h) => hash_psd4_opcode() + space() + unary_text(h.operation) + seq![
            ';',
        ],
    }
}

/// A register at position `p` of `s`, and where it ends.
pub open spec fn spec_register(s: Seq<char>, p: int) -> Option<(Register, int)> {
    let run = digit_run(s, p + 1);
    if 0 <= p < s.len() && s[p] == 'r' && run > 0 && digits_value(s.subrange(p + 1, p + 1 + run))
        <= u64::MAX {
        Some((Register { index: digits_value(s.subrange(p + 1, p + 1 + run)) as u64 }, p + 1 + run))
    } else {
        None
    }
}

pub open spec fn spec_unary(s: Seq<char>, p: int) -> Option<(UnaryOperation, int)> {
    match spec_register(s, p) {
        Some((a, pos1)) => match after_lit(s, pos1, into_text()) {
            Some(pos2) => match spec_register(s, pos2) {
                Some((d, pos3)) => Some((UnaryOperation { operand: a, destination: d }, pos3)),
                None => None,
            },
            None => None,
        },
        None => None,
    }
}

pub open spec fn spec_binary(s: Seq<char>, p: int) -> Option<(BinaryOperation, int)> {
    match spec_register(s, p) {
        Some((a, pos1)) => match after_lit(s, pos1, space()) {
            Some(pos2) => match spec_register(s, pos2) {
                Some((b, pos3)) => match after_lit(s, pos3, into_text()) {
                    Some(pos4) => match spec_register(s, pos4) {
                        Some((d, pos5)) => Some(
                            (BinaryOperation { first: a, second: b, destination: d }, pos5),
                        ),
                        None => None,
                    },
                    None => None,
                },
                None => None,
            },
            None => None,
        },
        None => None,
    }
}

/// The instruction at the start of `s`, and where it ends.
pub open spec fn spec_instruction(s: Seq<char>) -> Option<(Instruction, int)> {
    if let Some(p) = after_lit(s, 0, commit_ped256_opcode() + space()) {
        match spec_binary(s, p) {
            Some((o, q)) => match after_lit(s, q, seq![';']) {
                Some(e) => Some((Instruction::CommitPed256(CommitPed256 { operation: o }), e)),
                None => None,
            },
            None => None,
        }
    } else if let Some(p) = after_lit(s, 0, hash_psd4_opcode() + space()) {
        match spec_unary(s, p) {
            Some((o, q)) => match after_lit(s, q, seq![';']) {
                Some(e) => Some((Instruction::HashPsd4(HashPsd4 { operation: o }), e)),
                None => None,
            },
            None => None,
        }
    } else {
        None
    }
}

/// Whether `lit` stands at position `p` of `s`; returns where it ends.
fn expect(s: &str, p: usize, lit: &str) -> (r: Option<usize>)
    ensures
        match r {
            Some(e) => after_lit(s@, p as int, lit@) == Some(e as int),
            None => after_lit(s@, p as int, lit@) is None,
        },
{
    let n = s.unicode_len();
    let m = lit.unicode_len();
    if p > n || m > n - p {
        return None;
    }
    let mut j: usize = 0;
    while j < m
        invariant
            n == s@.len(),
            m == lit@.len(),
            p + m <= n,
            j <= m,
            forall|k: int| 0 <= k < j ==> s@[p + k] == lit@[k],
        decreases m - j,
    {
        if s.get_char(p + j) != lit.get_char(j) {
            assert(s@.subrange(p as int, p + m)[j as int] != lit@[j as int]);
            return None;
        }
        j = j + 1;
    }
    assert(s@.subrange(p as int, p + m) =~= lit@);
    Some(p + m)
}

fn parse_register(s: &str, p: usize) -> (r: Option<(Register, usize)>)
    ensures
        match r {
            Some((reg, e)) => spec_register(s@, p as int) == Some((reg, e as int)),
            None => spec_register(s@, p as int) is None,
        },
{
    let n = s.unicode_len();
    if p >= n || s.get_char(p) != 'r' {
        return None;
    }
    match parse_decimal(s, p + 1) {
        Some((v, e)) => Some((Register { index: v }, e)),
        None => None,
    }
}

/// Parses `r{a} into r{d}` at position `p`.
fn parse_unary(s: &str, p: usize) -> (r: Option<(UnaryOperation, usize)>)
    ensures
        match r {
            Some((o, e)) => spec_unary(s@, p as int) == Some((o, e as int)),
            None => spec_unary(s@, p as int) is None,
        },
{
    proof {
        reveal_strlit(" into ");
        assert(" into "@ =~= into_text());
    }
    let (a, pos1) = match parse_register(s, p) {
        Some(x) => x,
        None => {
            return None;
        },
    };
    let pos2 = match expect(s, pos1, " into ") {
        Some(x) => x,
        None => {
            return None;
        },
    };
    let (d, pos3) = match parse_register(s, pos2) {
        Some(x) => x,
        None => {
            return None;
        },
    };
    Some((UnaryOperation { operand: a, destination: d }, pos3))
}

/// Parses `r{a} r{b} into r{d}` at position `p`.
fn parse_binary(s: &str, p: usize) -> (r: Option<(BinaryOperation, usize)>)
    ensures
        match r {
            Some((o, e)) => spec_binary(s@, p as int) == Some((o, e as int)),
            None => spec_binary(s@, p as int) is None,
        },
{
    proof {
        reveal_strlit(" into ");
        reveal_strlit(" ");
        assert(" into "@ =~= into_text());
        assert(" "@ =~= space());
    }
    let (a, pos1) = match parse_register(s, p) {
        Some(x) => x,
        None => {
            return None;
        },
    };
    let pos2 = match expect(s, pos1, " ") {
        Some(x) => x,
        None => {
            return None;
        },
    };
    let (b, pos3) = match parse_register(s, pos2) {
        Some(x) => x,
        None => {
            return None;
        },
    };
    let pos4 = match expect(s, pos3, " into ") {
        Some(x) => x,
        None => {
            return None;
        },
    };
    let (d, pos5) = match parse_register(s, pos4) {
        Some(x) => x,
        None => {
            return None;
        },
    };
    Some((BinaryOperation { first: a, second: b, destination: d }, pos5))
}

fn push_register(out: &mut String, r: Register)
    ensures
        final(out)@ == old(out)@ + register_text(r),
{
    proof {
        reveal_strlit("r");
    }
    out.append("r");
    push_decimal(out, r.index);
    assert(final(out)@ =~= old(out)@ + register_text(r));
}

impl UnaryOperation {
    /// Returns the operands, in order.
    pub fn operands(&self) -> (r: Vec<Register>)
        ensures
            r@ == seq![self.operand],
    {
        let mut v: Vec<Register> = Vec::new();
        v.push(self.operand);
        v
    }

    /// Returns the destination register.
    pub fn destination(&self) -> (r: &Register)
        ensures
            *r == self.destination,
    {
        &self.destination
    }

    /// Appends `r{a} into r{d}` to `out`.
    pub fn write_text(&self, out: &mut String)
        ensures
            final(out)@ == old(out)@ + unary_text(*self),
    {
        proof {
            reveal_strlit(" into ");
        }
        push_register(out, self.operand);
        out.append(" into ");
        push_register(out, self.destination);
        assert(final(out)@ =~= old(out)@ + unary_text(*self));
    }
}

impl BinaryOperation {
    /// Returns the operands, in order.
    pub fn operands(&self) -> (r: Vec<Register>)
        ensures
            r@ == seq![self.first, self.second],
    {
        let mut v: Vec<Register> = Vec::new();
        v.push(self.first);
        v.push(self.second);
        v
    }

    /// Returns the destination register.
    pub fn destination(&self) -> (r: &Register)
        ensures
            *r == self.destination,
    {
        &self.destination
    }

    /// Appends `r{a} r{b} into r{d}` to `out`.
    pub fn write_text(&self, out: &mut String)
        ensures
            final(out)@ == old(out)@ + binary_text(*self),
    {
        proof {
            reveal_strlit(" into ");
            reveal_strlit(" ");
        }
        push_register(out, self.first);
        out.append(" ");
        push_register(out, self.second);
        out.append(" into ");
        push_register(out, self.destination);
        assert(final(out)@ =~= old(out)@ + binary_text(*self));
    }
}

impl CommitPed256 {
    /// Renders the operation as `r{a} r{b} into r{d}`.
    pub fn to_string(&self) -> (r: String)
        ensures
            r@ == binary_text(self.operation),
    {
        proof {
            reveal_strlit("");
        }
        let mut out = String::from_str("");
        self.operation.write_text(&mut out);
        assert(out@ =~= binary_text(self.operation));
        out
    }

    /// Returns the operands of the instruction: the input, then the randomness.
    pub fn operands(&self) -> (r: Vec<Register>)
        ensures
            r@ == seq![self.operation.first, self.operation.second],
    {
        self.operation.operands()
    }

    /// Returns the destination register of the instruction.
    pub fn destination(&self) -> (r: &Register)
        ensures
            *r == self.operation.destination,
    {
        self.operation.destination()
    }

    /// The mnemonic of the instruction.
    pub fn opcode() -> (r: &'static str)
        ensures
            r@ == commit_ped256_opcode(),
    {
        proof {
            reveal_strlit("commit.ped256");
        }
        "commit.ped256"
    }

    /// Parses the operation `r{a} r{b} into r{d}`, the whole of `s`.
    pub fn from_str(s: &str) -> (r: Result<CommitPed256, ParseError>)
        ensures
            r is Ok <==> (spec_binary(s@, 0) matches Some((_, e)) && e == s@.len()),
            r matches Ok(c) ==> spec_binary(s@, 0) == Some((c.operation, s@.len() as int)),
    {
        match parse_binary(s, 0) {
            Some((o, e)) => {
                if e == s.unicode_len() {
                    Ok(CommitPed256 { operation: o })
                } else {
                    Err(ParseError::TrailingCharacters(e))
                }
            },
            None => Err(ParseError::UnexpectedCharacter(0)),
        }
    }
}

impl HashPsd4 {
    /// Renders the operation as `r{a} into r{d}`.
    pub fn to_string(&self) -> (r: String)
        ensures
            r@ == unary_text(self.operation),
    {
        proof {
            reveal_strlit("");
        }
        let mut out = String::from_str("");
        self.operation.write_text(&mut out);
        assert(out@ =~= unary_text(self.operation));
        out
    }

    /// Returns the operands of the instruction.
    pub fn operands(&self) -> (r: Vec<Register>)
        ensures
            r@ == seq![self.operation.operand],
    {
        self.operation.operands()
    }

    /// Returns the destination register of the instruction.
    pub fn destination(&self) -> (r: &Register)
        ensures
            *r == self.operation.destination,
    {
        self.operation.destination()
    }

    /// The mnemonic of the instruction.
    pub fn opcode() -> (r: &'static str)
        ensures
            r@ == hash_psd4_opcode(),
    {
        proof {
            reveal_strlit("hash.psd4");
        }
        "hash.psd4"
    }

    /// Parses the operation `r{a} into r{d}`, the whole of `s`.
    pub fn from_str(s: &str) -> (r: Result<HashPsd4, ParseError>)
        ensures
            r is Ok <==> (spec_unary(s@, 0) matches Some((_, e)) && e == s@.len()),
            r matches Ok(h) ==> spec_unary(s@, 0) == Some((h.operation, s@.len() as int)),
    {
        match parse_unary(s, 0) {
            Some((o, e)) => {
                if e == s.unicode_len() {
                    Ok(HashPsd4 { operation: o })
                } else {
                    Err(ParseError::TrailingCharacters(e))
                }
            },
            None => Err(ParseError::UnexpectedCharacter(0)),
        }
    }
}

impl Instruction {
    /// Parses an instruction at the start of `s`: its opcode picks the variant. Returns the
    /// rest of `s` and the instruction.
    pub fn parse(s: &str) -> (r: Result<(&str, Instruction), ParseError>)
        ensures
            r is Ok <==> spec_instruction(s@) is Some,
            r matches Ok((rest, i)) ==> spec_instruction(s@) matches Some((j, e)) && i == j
                && rest@ == s@.skip(e),
            r == Err::<(&str, Instruction), ParseError>(ParseError::UnknownOpcode) <==> (after_lit(
                s@,
                0,
                commit_ped256_opcode() + space(),
            ) is None && after_lit(s@, 0, hash_psd4_opcode() + space()) is None),
    {
        proof {
            reveal_strlit("commit.ped256 ");
            reveal_strlit("hash.psd4 ");
            reveal_strlit(";");
            assert(";"@ =~= seq![';']);
            assert(commit_ped256_opcode() + space() =~= "commit.ped256 "@);
            assert(hash_psd4_opcode() + space() =~= "hash.psd4 "@);
        }
        let n = s.unicode_len();
        if let Some(p) = expect(s, 0, "commit.ped256 ") {
            let (o, q) = match parse_binary(s, p) {
                Some(x) => x,
                None => {
                    return Err(ParseError::UnexpectedCharacter(p));
                },
            };
            let e = match expect(s, q, ";") {
                Some(x) => x,
                None => {
                    return Err(ParseError::UnexpectedCharacter(q));
                },
            };
            Ok((s.substring_char(e, n), Instruction::CommitPed256(CommitPed256 { operation: o })))
        } else if let Some(p) = expect(s, 0, "hash.psd4 ") {
            let (o, q) = match parse_unary(s, p) {
                Some(x) => x,
                None => {
                    return Err(ParseError::UnexpectedCharacter(p));
                },
            };
            let e = match expect(s, q, ";") {
                Some(x) => x,
                None => {
                    return Err(ParseError::UnexpectedCharacter(q));
                },
            };
            Ok((s.substring_char(e, n), Instruction::HashPsd4(HashPsd4 { operation: o })))
        } else {
            Err(ParseError::UnknownOpcode)
        }
    }

    /// Parses a whole string as one instruction.
    pub fn from_str(s: &str) -> (r: Result<Instruction, ParseError>)
        ensures
            r is Ok <==> (spec_instruction(s@) matches Some((_, e)) && e == s@.len()),
            r matches Ok(i) ==> spec_instruction(s@) == Some((i, s@.len() as int)),
    {
        match Instruction::parse(s) {
            Ok((rest, i)) => {
                if rest.unicode_len() == 0 {
                    Ok(i)
                } else {
                    Err(ParseError::TrailingCharacters(s.unicode_len() - rest.unicode_len()))
                }
            },
            Err(e) => Err(e),
        }
    }

    /// Renders the instruction in its canonical text.
    pub fn to_string(&self) -> (r: String)
        ensures
            r@ == instruction_text(*self),
    {
        proof {
            reveal_strlit(" ");
            reveal_strlit(";");
            reveal_strlit("");
        }
        let mut out = String::from_str("");
        match self {
            Instruction::CommitPed256(c) => {
                out.append(CommitPed256::opcode());
                out.append(" ");
                c.operation.write_text(&mut out);
            },
            Instruction::HashPsd4(h) => {
                out.append(HashPsd4::opcode());
                out.append(" ");
                h.operation.write_text(&mut out);
            },
        }
        out.append(";");
        assert(out@ =~= instruction_text(*self));
        out
    }
}

proof fn lemma_split(s: Seq<char>, p: int, x: Seq<char>, y: Seq<char>)
    requires
        0 <= p,
        p + x.len() + y.len() <= s.len(),
        s.subrange(p, p + x.len() + y.len()) == x + y,
    ensures
        s.subrange(p, p + x.len()) == x,
        s.subrange(p + x.len(), p + x.len() + y.len()) == y,
{
    assert(s.subrange(p, p + x.len()) =~= (x + y).subrange(0, x.len() as int));
    assert(s.subrange(p + x.len(), p + x.len() + y.len()) =~= (x + y).subrange(
        x.len() as int,
        x.len() as int + y.len(),
    ));
}

proof fn lemma_register_at(s: Seq<char>, p: int, r: Register)
    requires
        0 <= p,
        p + register_text(r).len() <= s.len(),
        s.subrange(p, p + register_text(r).len()) == register_text(r),
        p + register_text(r).len() == s.len() || !is_digit(s[p + register_text(r).len()]),
    ensures
        spec_register(s, p) == Some((r, p + register_text(r).len())),
{
    let d = dec(r.index as nat);
    lemma_dec(r.index as nat);
    let len = d.len() as int;
    assert(s[p] == register_text(r)[0]);
    assert forall|i: int| p + 1 <= i < p + 1 + len implies is_digit(#[trigger] s[i]) by {
        assert(s[i] == s.subrange(p, p + register_text(r).len())[i - p]);
        assert(register_text(r)[i - p] == d[i - p - 1]);
    }
    lemma_digit_run_exact(s, p + 1, len);
    assert(s.subrange(p + 1, p + 1 + len) =~= d) by {
        assert forall|i: int| 0 <= i < len implies s.subrange(p + 1, p + 1 + len)[i] == d[i] by {
            assert(s[p + 1 + i] == s.subrange(p, p + register_text(r).len())[1 + i]);
        }
    }
}

proof fn lemma_unary_at(s: Seq<char>, p: int, o: UnaryOperation)
    requires
        0 <= p,
        p + unary_text(o).len() <= s.len(),
        s.subrange(p, p + unary_text(o).len()) == unary_text(o),
        p + unary_text(o).len() == s.len() || !is_digit(s[p + unary_text(o).len()]),
    ensures
        spec_unary(s, p) == Some((o, p + unary_text(o).len())),
{
    let a = register_text(o.operand);
    let d = register_text(o.destination);
    lemma_split(s, p, a + into_text(), d);
    lemma_split(s, p, a, into_text());
    assert(s[p + a.len()] == s.subrange(p + a.len(), p + a.len() + into_text().len())[0]);
    lemma_register_at(s, p, o.operand);
    lemma_register_at(s, p + a.len() + into_text().len(), o.destination);
}

proof fn lemma_binary_at(s: Seq<char>, p: int, o: BinaryOperation)
    requires
        0 <= p,
        p + binary_text(o).len() <= s.len(),
        s.subrange(p, p + binary_text(o).len()) == binary_text(o),
        p + binary_text(o).len() == s.len() || !is_digit(s[p + binary_text(o).len()]),
    ensures
        spec_binary(s, p) == Some((o, p + binary_text(o).len())),
{
    let a = register_text(o.first);
    let b = register_text(o.second);
    let d = register_text(o.destination);
    lemma_split(s, p, a + space() + b + into_text(), d);
    lemma_split(s, p, a + space() + b, into_text());
    lemma_split(s, p, a + space(), b);
    lemma_split(s, p, a, space());
    assert(s[p + a.len()] == s.subrange(p + a.len(), p + a.len() + 1)[0]);
    lemma_register_at(s, p, o.first);
    let q = p + a.len() + 1 + b.len();
    assert(s[q] == s.subrange(q, q + into_text().len())[0]);
    lemma_register_at(s, p + a.len() + 1, o.second);
    lemma_register_at(s, p + a.len() + 1 + b.len() + into_text().len(), o.destination);
}

proof fn lemma_commit_text(c: CommitPed256)
    ensures
        spec_instruction(instruction_text(Instruction::CommitPed256(c))) == Some(
            (Instruction::CommitPed256(c), instruction_text(Instruction::CommitPed256(c)).len() as int),
        ),
{
    let s = instruction_text(Instruction::CommitPed256(c));
    let head = commit_ped256_opcode() + space();
    let body = binary_text(c.operation);
    let n = head.len() as int + body.len();
    assert(s.subrange(0, n + 1) =~= (head + body) + seq![';']);
    lemma_split(s, 0, head + body, seq![';']);
    lemma_split(s, 0, head, body);
    assert(s[n] == s.subrange(n, n + 1)[0]);
    lemma_binary_at(s, head.len() as int, c.operation);
}

#[verifier::rlimit(30)]
proof fn lemma_hash_text(h: HashPsd4)
    ensures
        spec_instruction(instruction_text(Instruction::HashPsd4(h))) == Some(
            (Instruction::HashPsd4(h), instruction_text(Instruction::HashPsd4(h)).len() as int),
        ),
{
    let s = instruction_text(Instruction::HashPsd4(h));
    let head = hash_psd4_opcode() + space();
    let body = unary_text(h.operation);
    let n = head.len() as int + body.len();
    assert(s.subrange(0, n + 1) =~= (head + body) + seq![';']);
    lemma_split(s, 0, head + body, seq![';']);
    lemma_split(s, 0, head, body);
    assert(s[n] == s.subrange(n, n + 1)[0]);
    lemma_unary_at(s, head.len() as int, h.operation);
    assert(s[0] == s.subrange(0, head.len() as int)[0]);
    lemma_not_commit(s);
}

proof fn lemma_not_commit(s: Seq<char>)
    requires
        s.len() > 0,
        s[0] == 'h',
    ensures
        after_lit(s, 0, commit_ped256_opcode() + space()) is None,
{
    let c = commit_ped256_opcode() + space();
    if after_lit(s, 0, c) is Some {
        assert(s.subrange(0, c.len() as int)[0] == c[0]);
    }
}

/// Parsing the canonical text of an instruction gives back the instruction, and consumes all of
/// the text.
pub proof fn lemma_text_round_trip(i: Instruction)
    ensures
        spec_instruction(instruction_text(i)) == Some((i, instruction_text(i).len() as int)),
{
    match i {
        Instruction::CommitPed256(c) => lemma_commit_text(c),
        Instruction::HashPsd4(h) => lemma_hash_text(h),
    }
}

/// Every register number in `s` is written without leading zeros.
pub open spec fn canonical_numbers(s: Seq<char>) -> bool {
    forall|i: int|
        0 <= i && i + 1 < s.len() && #[trigger] s[i] == 'r' && s[i + 1] == '0' ==> (i + 2 == s.len()
            || !is_digit(s[i + 2]))
}

proof fn lemma_register_back(s: Seq<char>, p: int)
    requires
        canonical_numbers(s),
        spec_register(s, p) is Some,
    ensures
        spec_register(s, p) matches Some((r, e)) && 0 <= p < e <= s.len() && s.subrange(p, e)
            == register_text(r),
{
    let (r, e) = spec_register(s, p)->0;
    let run = digit_run(s, p + 1);
    lemma_digit_run_bounds(s, p + 1);
    let d = s.subrange(p + 1, p + 1 + run);
    assert forall|i: int| 0 <= i < d.len() implies is_digit(#[trigger] d[i]) by {
        assert(d[i] == s[p + 1 + i]);
    }
    if d[0] == '0' && run > 1 {
        assert(s[p] == 'r' && s[p + 1] == '0');
        assert(is_digit(s[p + 2]));
    }
    lemma_dec_of_digits(d);
    assert(s.subrange(p, e) =~= seq!['r'] + d);
}

proof fn lemma_lit_back(s: Seq<char>, p: int, lit: Seq<char>)
    requires
        after_lit(s, p, lit) is Some,
    ensures
        after_lit(s, p, lit) == Some(p + lit.len()),
        s.subrange(p, p + lit.len()) == lit,
{
}

proof fn lemma_join(s: Seq<char>, a: int, b: int, c: int)
    requires
        0 <= a <= b <= c <= s.len(),
    ensures
        s.subrange(a, c) == s.subrange(a, b) + s.subrange(b, c),
{
    assert(s.subrange(a, c) =~= s.subrange(a, b) + s.subrange(b, c));
}

proof fn lemma_unary_back(s: Seq<char>, p: int)
    requires
        canonical_numbers(s),
        spec_unary(s, p) is Some,
    ensures
        spec_unary(s, p) matches Some((o, e)) && s.subrange(p, e) == unary_text(o),
{
    let (a, pos1) = spec_register(s, p)->0;
    lemma_register_back(s, p);
    let pos2 = pos1 + into_text().len();
    lemma_lit_back(s, pos1, into_text());
    let (d, pos3) = spec_register(s, pos2)->0;
    lemma_register_back(s, pos2);
    lemma_join(s, p, pos1, pos2);
    lemma_join(s, p, pos2, pos3);
}

proof fn lemma_binary_back(s: Seq<char>, p: int)
    requires
        canonical_numbers(s),
        spec_binary(s, p) is Some,
    ensures
        spec_binary(s, p) matches Some((o, e)) && s.subrange(p, e) == binary_text(o),
{
    let (a, pos1) = spec_register(s, p)->0;
    lemma_register_back(s, p);
    let pos2 = pos1 + 1;
    lemma_lit_back(s, pos1, space());
    let (b, pos3) = spec_register(s, pos2)->0;
    lemma_register_back(s, pos2);
    let pos4 = pos3 + into_text().len();
    lemma_lit_back(s, pos3, into_text());
    let (d, pos5) = spec_register(s, pos4)->0;
    lemma_register_back(s, pos4);
    lemma_join(s, p, pos1, pos2);
    lemma_join(s, p, pos2, pos3);
    lemma_join(s, p, pos3, pos4);
    lemma_join(s, p, pos4, pos5);
}

/// Where all of `s` parses as an instruction and its register numbers have no leading zeros,
/// rendering the instruction gives back `s`.
pub proof fn lemma_display_of_parse(s: Seq<char>)
    requires
        canonical_numbers(s),
        spec_instruction(s) matches Some((_, e)) && e == s.len(),
    ensures
        spec_instruction(s) matches Some((i, _)) && instruction_text(i) == s,
{
    let c = commit_ped256_opcode() + space();
    let h = hash_psd4_opcode() + space();
    if after_lit(s, 0, c) is Some {
        lemma_lit_back(s, 0, c);
        lemma_binary_back(s, c.len() as int);
        let (o, q) = spec_binary(s, c.len() as int)->0;
        lemma_lit_back(s, q, seq![';']);
        lemma_join(s, 0, c.len() as int, q);
        lemma_join(s, 0, q, s.len() as int);
        assert(s.subrange(0, s.len() as int) =~= s);
    } else {
        lemma_lit_back(s, 0, h);
        lemma_unary_back(s, h.len() as int);
        let (o, q) = spec_unary(s, h.len() as int)->0;
        lemma_lit_back(s, q, seq![';']);
        lemma_join(s, 0, h.len() as int, q);
        lemma_join(s, 0, q, s.len() as int);
        assert(s.subrange(0, s.len() as int) =~= s);
    }
}

/// The operation texts round-trip too: parsing `r{a} r{b} into r{d}` or `r{a} into r{d}` gives the
/// operation back and consumes all of it, and where all of `s` parses as an operation and its
/// register numbers have no leading zeros, rendering the operation gives back `s`.
pub proof fn lemma_operation_text_round_trip(b: BinaryOperation, u: UnaryOperation, s: Seq<char>)
    ensures
        spec_binary(binary_text(b), 0) == Some((b, binary_text(b).len() as int)),
        spec_unary(unary_text(u), 0) == Some((u, unary_text(u).len() as int)),
        canonical_numbers(s) ==> (spec_binary(s, 0) matches Some((o, e)) ==> (e == s.len()
            ==> binary_text(o) == s)),
        canonical_numbers(s) ==> (spec_unary(s, 0) matches Some((o, e)) ==> (e == s.len()
            ==> unary_text(o) == s)),
{
    let tb = binary_text(b);
    assert(tb.subrange(0, tb.len() as int) =~= tb);
    lemma_binary_at(tb, 0, b);
    let tu = unary_text(u);
    assert(tu.subrange(0, tu.len() as int) =~= tu);
    lemma_unary_at(tu, 0, u);
    assert(s.subrange(0, s.len() as int) =~= s);
    if canonical_numbers(s) && spec_binary(s, 0) is Some {
        lemma_binary_back(s, 0);
    }
    if canonical_numbers(s) && spec_unary(s, 0) is Some {
        lemma_unary_back(s, 0);
    }
}

} // verus!
