use vstd::prelude::*;
use vstd::string::*;
use vstd::utf8::*;
use crate::encoding::{lemma_u64_at_shift, lemma_u64_round_trip, read_u64, u64_at, u64_le, write_u64};

verus! {

pub open spec fn is_letter(c: char) -> bool {
    ('a' <= c && c <= 'z') || ('A' <= c && c <= 'Z')
}

pub open spec fn is_ident_char(c: char) -> bool {
    is_letter(c) || ('0' <= c && c <= '9') || c == '_'
}

/// A non-empty name that starts with a letter and continues with letters, digits or `_`.
pub open spec fn valid_ident(s: Seq<char>) -> bool {
    &&& s.len() > 0
    &&& is_letter(s[0])
    &&& forall|i: int| 1 <= i < s.len() ==> #[trigger] is_ident_char(s[i])
}

/// Number of identifier characters that follow position `start` of `s`, up to the first other one.
pub open spec fn ident_run(s: Seq<char>, start: int) -> int
    decreases s.len() - start,
{
    if start < 0 || start >= s.len() || !is_ident_char(s[start]) {
        0
    } else {
        1 + ident_run(s, start + 1)
    }
}

/// An error raised when text does not follow the expected grammar.
#[derive(Clone, Copy, Debug, PartialEq, Eq, Structural)]
pub enum ParseError {
    /// No identifier starts at this character position.
    ExpectedIdentifier(usize),
    /// The character at this position is not the expected one.
    UnexpectedCharacter(usize),
    /// Input ended before the grammar was complete.
    UnexpectedEnd,
    /// Characters remain after a complete parse, from this position on.
    TrailingCharacters(usize),
    /// The leading mnemonic names no instruction.
    UnknownOpcode,
}

/// A validated name: of a program, a network, a struct or a field.
#[derive(Debug, PartialEq, Eq)]
pub struct Identifier {
    name: String,
}

impl View for Identifier {
    type V = Seq<char>;

    closed spec fn view(&self) -> Seq<char> {
        self.name@
    }
}

pub fn char_is_letter(c: char) -> (r: bool)
    ensures
        r == is_letter(c),
{
    ('a' <= c && c <= 'z') || ('A' <= c && c <= 'Z')
}

pub fn char_is_ident(c: char) -> (r: bool)
    ensures
        r == is_ident_char(c),
{
    char_is_letter(c) || ('0' <= c && c <= '9') || c == '_'
}

pub proof fn lemma_ident_run_bounds(s: Seq<char>, start: int)
    requires
        0 <= start <= s.len(),
    ensures
        0 <= ident_run(s, start) <= s.len() - start,
        forall|i: int| start <= i < start + ident_run(s, start) ==> #[trigger] is_ident_char(s[i]),
        start + ident_run(s, start) < s.len() ==> !is_ident_char(s[start + ident_run(s, start)]),
    decreases s.len() - start,
{
    if start < s.len() && is_ident_char(s[start]) {
        lemma_ident_run_bounds(s, start + 1);
    }
}

/// Returns the end of the run of identifier characters that starts at `start`.
pub fn ident_end(s: &str, start: usize) -> (end: usize)
    requires
        start <= s@.len(),
    ensures
        end == start + ident_run(s@, start as int),
        start <= end <= s@.len(),
{
    let n = s.unicode_len();
    let mut end: usize = start;
    proof {
        lemma_ident_run_bounds(s@, start as int);
    }
    while end < n && char_is_ident(s.get_char(end))
        invariant
            n == s@.len(),
            start <= end <= n,
            ident_run(s@, start as int) == (end - start) + ident_run(s@, end as int),
        decreases n - end,
    {
        end = end + 1;
    }
    end
}

impl Identifier {
    /// Returns the characters of the identifier.
    pub fn as_str(&self) -> (r: &str)
        ensures
            r@ == self@,
    {
        self.name.as_str()
    }

    /// Returns an identifier with the same characters.
    pub fn copy(&self) -> (r: Identifier)
        ensures
            r@ == self@,
    {
        Identifier { name: self.name.clone() }
    }

    /// Whether two identifiers name the same thing.
    pub fn same_as(&self, other: &Identifier) -> (r: bool)
        ensures
            r == (self@ == other@),
    {
        self.name == other.name
    }

    /// Parses an identifier at position `start` of `s`, returning it and the position after it.
    pub fn parse_at(s: &str, start: usize) -> (r: Result<(Identifier, usize), ParseError>)
        requires
            start <= s@.len(),
        ensures
            match r {
                Ok((id, end)) => {
                    &&& end == start + ident_run(s@, start as int)
                    &&& start < end <= s@.len()
                    &&& id@ == s@.subrange(start as int, end as int)
                    &&& valid_ident(id@)
                },
                Err(e) => e == ParseError::ExpectedIdentifier(start) && (start == s@.len()
                    || !is_letter(s@[start as int])),
            },
    {
        if start == s.unicode_len() || !char_is_letter(s.get_char(start)) {
            return Err(ParseError::ExpectedIdentifier(start));
        }
        let end = ident_end(s, start);
        proof {
            lemma_ident_run_bounds(s@, start as int);
        }
        let name = String::from_str(s.substring_char(start, end));
        let id = Identifier { name };
        assert(valid_ident(id@)) by {
            assert forall|i: int| 1 <= i < id@.len() implies #[trigger] is_ident_char(id@[i]) by {
                assert(id@[i] == s@[start + i]);
            }
        }
        Ok((id, end))
    }

    /// Parses a whole string as an identifier.
    pub fn from_str(s: &str) -> (r: Result<Identifier, ParseError>)
        ensures
            r is Ok <==> valid_ident(s@),
            r matches Ok(id) ==> id@ == s@,
    {
        let (id, end) = match Identifier::parse_at(s, 0) {
            Ok(p) => p,
            Err(e) => {
                return Err(e);
            },
        };
        proof {
            lemma_ident_run_bounds(s@, 0);
        }
        if end < s.unicode_len() {
            proof {
                if valid_ident(s@) {
                    assert(is_ident_char(s@[end as int]));
                }
            }
            return Err(ParseError::TrailingCharacters(end));
        }
        assert(s@.subrange(0, s@.len() as int) =~= s@);
        Ok(id)
    }
}

/// The binary form of an identifier: the number of its UTF-8 bytes over eight little-endian
/// bytes, then those bytes.
pub open spec fn ident_bytes(s: Seq<char>) -> Seq<u8> {
    u64_le(encode_utf8(s).len() as u64) + encode_utf8(s)
}

/// The identifier whose binary form starts at position `p` of `b`, and where it ends.
pub open spec fn ident_at(b: Seq<u8>, p: int) -> Option<(Seq<char>, int)> {
    if 0 <= p && p + 8 <= b.len() && p + 8 + u64_at(b, p) <= b.len() {
        let body = b.subrange(p + 8, p + 8 + u64_at(b, p));
        if valid_utf8(body) && valid_ident(decode_utf8(body)) {
            Some((decode_utf8(body), p + 8 + u64_at(b, p)))
        } else {
            None
        }
    } else {
        None
    }
}

/// Relies on std::str::from_utf8: it accepts exactly the valid UTF-8 byte strings, and the string
/// it gives holds the characters they encode.
#[verifier::external_body]
fn utf8_to_string(b: &[u8]) -> (r: Option<String>)
    ensures
        r is Some <==> valid_utf8(b@),
        r matches Some(s) ==> s@ == decode_utf8(b@),
{
    std::str::from_utf8(b).ok().map(|s| s.to_string())
}

impl Identifier {
    /// Appends the binary form of the identifier to `out`.
    pub fn write_bytes(&self, out: &mut Vec<u8>)
        ensures
            final(out)@ == old(out)@ + ident_bytes(self@),
    {
        let bytes = self.name.as_str().as_bytes();
        write_u64(out, bytes.len() as u64);
        let ghost start = out@;
        let mut i: usize = 0;
        while i < bytes.len()
            invariant
                i <= bytes@.len(),
                out@ == start + bytes@.take(i as int),
            decreases bytes@.len() - i,
        {
            out.push(bytes[i]);
            i = i + 1;
            assert(out@ =~= start + bytes@.take(i as int));
        }
        assert(bytes@.take(i as int) =~= bytes@);
        assert(final(out)@ =~= old(out)@ + ident_bytes(self@));
    }

    /// Reads an identifier from its binary form at position `p` of `b`; returns it and where it
    /// ends.
    pub fn read_bytes(b: &[u8], p: usize) -> (r: Option<(Identifier, usize)>)
        ensures
            match r {
                Some((id, e)) => ident_at(b@, p as int) == Some((id@, e as int)),
                None => ident_at(b@, p as int) is None,
            },
    {
        if p > b.len() || b.len() - p < 8 {
            return None;
        }
        let len = read_u64(b, p);
        if len > (b.len() - p - 8) as u64 {
            return None;
        }
        let end = p + 8 + len as usize;
        let body = vstd::slice::slice_subrange(b, p + 8, end);
        let s = match utf8_to_string(body) {
            Some(s) => s,
            None => {
                return None;
            },
        };
        match Identifier::from_str(s.as_str()) {
            Ok(id) => Some((id, end)),
            Err(_) => None,
        }
    }
}

/// Where the binary form of an identifier stands in `b`, reading it there gives the identifier.
pub proof fn lemma_ident_at(b: Seq<u8>, p: int, s: Seq<char>)
    requires
        valid_ident(s),
        encode_utf8(s).len() <= u64::MAX,
        0 <= p,
        p + ident_bytes(s).len() <= b.len(),
        b.subrange(p, p + ident_bytes(s).len()) == ident_bytes(s),
    ensures
        ident_at(b, p) == Some((s, p + ident_bytes(s).len())),
{
    let e = encode_utf8(s);
    let n = e.len() as u64;
    lemma_u64_at_shift(b, p);
    assert(b.subrange(p, p + 8) =~= u64_le(n)) by {
        assert forall|i: int| 0 <= i < 8 implies b.subrange(p, p + 8)[i] == u64_le(n)[i] by {
            assert(b[p + i] == b.subrange(p, p + ident_bytes(s).len())[i]);
        }
    }
    lemma_u64_round_trip(n);
    assert(b.subrange(p + 8, p + 8 + n) =~= e) by {
        assert forall|i: int| 0 <= i < e.len() implies b.subrange(p + 8, p + 8 + n)[i] == e[i] by {
            assert(b[p + 8 + i] == b.subrange(p, p + ident_bytes(s).len())[8 + i]);
        }
    }
    encode_utf8_valid_utf8(s);
    encode_utf8_decode_utf8(s);
}

} // verus!
