use vstd::prelude::*;
use vstd::string::*;
use vstd::utf8::*;
use crate::encoding::DecodeError;
use crate::identifier::{
    ident_at, ident_bytes, ident_run, is_ident_char, is_letter, lemma_ident_at,
    lemma_ident_run_bounds, valid_ident, Identifier, ParseError,
};

verus! {

/// The text of a program ID: a name, a `.`, and a network.
pub open spec fn id_text(name: Seq<char>, network: Seq<char>) -> Seq<char> {
    name + seq!['.'] + network
}

/// Whether `s` is exactly the text of some program ID.
pub open spec fn is_id_text(s: Seq<char>) -> bool {
    exists|name: Seq<char>, network: Seq<char>|
        valid_ident(name) && valid_ident(network) && s == #[trigger] id_text(name, network)
}

/// Where the longest program-ID prefix of `s` ends, if `s` starts with one.
pub open spec fn id_prefix_end(s: Seq<char>) -> Option<int> {
    let a = ident_run(s, 0);
    if s.len() > 0 && is_letter(s[0]) && a < s.len() && s[a] == '.' && a + 1 < s.len()
        && is_letter(s[a + 1]) {
        Some(a + 1 + ident_run(s, a + 1))
    } else {
        None
    }
}

/// A program's identity: `{name}.{network}`.
#[derive(Debug, PartialEq, Eq)]
pub struct ProgramID {
    name: Identifier,
    network: Identifier,
}

proof fn lemma_run_exact(s: Seq<char>, start: int, m: int)
    requires
        0 <= start,
        0 <= m,
        start + m <= s.len(),
        forall|i: int| start <= i < start + m ==> #[trigger] is_ident_char(s[i]),
        start + m == s.len() || !is_ident_char(s[start + m]),
    ensures
        ident_run(s, start) == m,
    decreases m,
{
    if m > 0 {
        lemma_run_exact(s, start + 1, m - 1);
    }
}

/// A string is the text of a program ID exactly when its longest program-ID prefix is all of it.
proof fn lemma_id_text(s: Seq<char>)
    ensures
        is_id_text(s) <==> id_prefix_end(s) == Some(s.len() as int),
        id_prefix_end(s) == Some(s.len() as int) ==> s == id_text(
            s.take(ident_run(s, 0)),
            s.skip(ident_run(s, 0) + 1),
        ) && valid_ident(s.take(ident_run(s, 0))) && valid_ident(s.skip(ident_run(s, 0) + 1)),
{
    if is_id_text(s) {
        let (name, network) = choose|name: Seq<char>, network: Seq<char>|
            valid_ident(name) && valid_ident(network) && s == #[trigger] id_text(name, network);
        let a = name.len() as int;
        assert(s[a] == '.');
        assert forall|i: int| 0 <= i < a implies #[trigger] is_ident_char(s[i]) by {
            assert(s[i] == name[i]);
            assert(is_ident_char(name[i]));
        }
        lemma_run_exact(s, 0, a);
        assert(s[0] == name[0]);
        assert(s[a + 1] == network[0]);
        assert forall|i: int| a + 1 <= i < s.len() implies #[trigger] is_ident_char(s[i]) by {
            assert(s[i] == network[i - a - 1]);
            if i > a + 1 {
                assert(is_ident_char(network[i - a - 1]));
            }
        }
        lemma_run_exact(s, a + 1, s.len() - a - 1);
    }
    if id_prefix_end(s) == Some(s.len() as int) {
        let a = ident_run(s, 0);
        lemma_ident_run_bounds(s, 0);
        lemma_ident_run_bounds(s, a + 1);
        let name = s.take(a);
        let network = s.skip(a + 1);
        assert(s =~= id_text(name, network));
        assert(a > 0) by {
            assert(is_ident_char(s[0]));
        }
        assert forall|i: int| 1 <= i < name.len() implies #[trigger] is_ident_char(name[i]) by {
            assert(name[i] == s[i]);
        }
        assert forall|i: int| 1 <= i < network.len() implies #[trigger] is_ident_char(
            network[i],
        ) by {
            assert(network[i] == s[a + 1 + i]);
        }
        assert(valid_ident(name) && valid_ident(network) && s == id_text(name, network));
    }
}

impl ProgramID {
    /// The text of this program ID.
    pub open spec fn text(&self) -> Seq<char> {
        id_text(self.spec_name(), self.spec_network())
    }

    /// Both parts are identifiers.
    pub open spec fn wf(&self) -> bool {
        valid_ident(self.spec_name()) && valid_ident(self.spec_network())
    }

    pub closed spec fn spec_name(&self) -> Seq<char> {
        self.name@
    }

    pub closed spec fn spec_network(&self) -> Seq<char> {
        self.network@
    }

    /// Returns the program name.
    pub fn name(&self) -> (r: &Identifier)
        ensures
            r@ == self.spec_name(),
    {
        &self.name
    }

    /// Returns the network name.
    pub fn network(&self) -> (r: &Identifier)
        ensures
            r@ == self.spec_network(),
    {
        &self.network
    }

    /// Parses a program ID at the start of `s`, returning the rest of `s` and the ID.
    pub fn parse(s: &str) -> (r: Result<(&str, ProgramID), ParseError>)
        ensures
            r is Ok <==> id_prefix_end(s@) is Some,
            r matches Ok((rest, id)) ==> {
                &&& id.wf()
                &&& id.text() + rest@ == s@
                &&& id.text().len() == id_prefix_end(s@)->0
            },
    {
        let (name, a) = match Identifier::parse_at(s, 0) {
            Ok(p) => p,
            Err(e) => {
                return Err(e);
            },
        };
        let n = s.unicode_len();
        if a == n {
            return Err(ParseError::UnexpectedEnd);
        }
        if s.get_char(a) != '.' {
            return Err(ParseError::UnexpectedCharacter(a));
        }
        let (network, e) = match Identifier::parse_at(s, a + 1) {
            Ok(p) => p,
            Err(err) => {
                return Err(err);
            },
        };
        let rest = s.substring_char(e, n);
        let id = ProgramID { name, network };
        assert(id.text() + rest@ =~= s@);
        Ok((rest, id))
    }

    /// Parses a whole string as a program ID.
    pub fn from_str(s: &str) -> (r: Result<ProgramID, ParseError>)
        ensures
            r is Ok <==> is_id_text(s@),
            r matches Ok(id) ==> id.wf() && id.text() == s@,
    {
        proof {
            lemma_id_text(s@);
        }
        match ProgramID::parse(s) {
            Ok((rest, id)) => {
                if rest.unicode_len() != 0 {
                    return Err(ParseError::TrailingCharacters(s.unicode_len() - rest.unicode_len()));
                }
                assert(id.text() =~= s@);
                Ok(id)
            },
            Err(e) => Err(e),
        }
    }

    /// Renders the program ID as `{name}.{network}`.
    pub fn to_string(&self) -> (r: String)
        ensures
            r@ == self.text(),
    {
        let mut out = String::from_str(self.name.as_str());
        proof {
            reveal_strlit(".");
        }
        out.append(".");
        out.append(self.network.as_str());
        out
    }
}

/// Rendering a well-formed program ID and parsing the text back gives the same ID.
pub proof fn lemma_program_id_round_trip(id: ProgramID)
    requires
        id.wf(),
    ensures
        is_id_text(id.text()),
        forall|other: ProgramID|
            other.wf() && #[trigger] other.text() == id.text() ==> other.spec_name() == id.spec_name()
                && other.spec_network() == id.spec_network(),
{
    let s = id.text();
    assert(is_id_text(s)) by {
        assert(valid_ident(id.spec_name()) && valid_ident(id.spec_network()) && s == id_text(
            id.spec_name(),
            id.spec_network(),
        ));
    }
    assert forall|other: ProgramID| other.wf() && #[trigger] other.text() == id.text() implies
        other.spec_name() == id.spec_name() && other.spec_network() == id.spec_network() by {
        lemma_split_unique(other.spec_name(), other.spec_network(), id.spec_name(), id.spec_network());
    }
}

proof fn lemma_split_unique(n1: Seq<char>, w1: Seq<char>, n2: Seq<char>, w2: Seq<char>)
    requires
        valid_ident(n1),
        valid_ident(w1),
        valid_ident(n2),
        valid_ident(w2),
        id_text(n1, w1) == id_text(n2, w2),
    ensures
        n1 == n2,
        w1 == w2,
{
    let s = id_text(n1, w1);
    assert forall|i: int| 0 <= i < n1.len() implies #[trigger] is_ident_char(s[i]) by {
        assert(s[i] == n1[i]);
    }
    assert forall|i: int| 0 <= i < n2.len() implies #[trigger] is_ident_char(s[i]) by {
        assert(s[i] == id_text(n2, w2)[i]);
        assert(id_text(n2, w2)[i] == n2[i]);
    }
    assert(s[n1.len() as int] == '.');
    assert(id_text(n2, w2)[n2.len() as int] == '.');
    if n1.len() < n2.len() {
        assert(is_ident_char(s[n1.len() as int]));
    }
    if n2.len() < n1.len() {
        assert(is_ident_char(s[n2.len() as int]));
    }
    assert(n1 =~= s.take(n1.len() as int));
    assert(n2 =~= id_text(n2, w2).take(n2.len() as int));
    assert(w1 =~= s.skip(n1.len() as int + 1));
    assert(w2 =~= id_text(n2, w2).skip(n2.len() as int + 1));
}

/// The binary form of a program ID: that of its name, then that of its network.
pub open spec fn id_bytes(name: Seq<char>, network: Seq<char>) -> Seq<u8> {
    ident_bytes(name) + ident_bytes(network)
}

/// The name and network of the program ID whose binary form is all of `b`.
pub open spec fn id_decode(b: Seq<u8>) -> Option<(Seq<char>, Seq<char>)> {
    match ident_at(b, 0) {
        Some((name, p)) => match ident_at(b, p) {
            Some((network, e)) => if e == b.len() {
                Some((name, network))
            } else {
                None
            },
            None => None,
        },
        None => None,
    }
}

impl ProgramID {
    /// Returns the binary form of the program ID.
    pub fn to_bytes_le(&self) -> (r: Vec<u8>)
        ensures
            r@ == id_bytes(self.spec_name(), self.spec_network()),
    {
        let mut out: Vec<u8> = Vec::new();
        self.name.write_bytes(&mut out);
        self.network.write_bytes(&mut out);
        assert(out@ =~= id_bytes(self.spec_name(), self.spec_network()));
        out
    }

    /// Reads a program ID from its binary form, which must be all of `b`.
    pub fn from_bytes_le(b: &[u8]) -> (r: Result<ProgramID, DecodeError>)
        ensures
            r is Ok <==> id_decode(b@) is Some,
            r matches Ok(id) ==> id_decode(b@) == Some((id.spec_name(), id.spec_network())),
    {
        let (name, p) = match Identifier::read_bytes(b, 0) {
            Some(x) => x,
            None => {
                return Err(DecodeError::InvalidIdentifier(0));
            },
        };
        let (network, e) = match Identifier::read_bytes(b, p) {
            Some(x) => x,
            None => {
                return Err(DecodeError::InvalidIdentifier(p));
            },
        };
        if e != b.len() {
            return Err(DecodeError::WrongLength(b.len()));
        }
        Ok(ProgramID { name, network })
    }
}

/// Reading the binary form of a well-formed program ID gives back its name and network.
pub proof fn lemma_program_id_bytes_round_trip(id: ProgramID)
    requires
        id.wf(),
        encode_utf8(id.spec_name()).len() <= u64::MAX,
        encode_utf8(id.spec_network()).len() <= u64::MAX,
    ensures
        id_decode(id_bytes(id.spec_name(), id.spec_network())) == Some(
            (id.spec_name(), id.spec_network()),
        ),
{
    let a = ident_bytes(id.spec_name());
    let c = ident_bytes(id.spec_network());
    let b = a + c;
    assert(b.subrange(0, a.len() as int) =~= a);
    assert(b.subrange(a.len() as int, a.len() as int + c.len()) =~= c);
    lemma_ident_at(b, 0, id.spec_name());
    lemma_ident_at(b, a.len() as int, id.spec_network());
}

} // verus!
