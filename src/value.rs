use vstd::prelude::*;
use vstd::string::*;
use crate::identifier::Identifier;
use crate::mode::{max_mode, Mode};

verus! {

broadcast use vstd::std_specs::vec::group_vec_axioms;

/// The type of a literal.
#[derive(Clone, Copy, Debug, PartialEq, Eq, Structural)]
pub enum LiteralType {
    Address,
    Boolean,
    Field,
    Group,
    I8,
    I16,
    I32,
    I64,
    I128,
    U8,
    U16,
    U32,
    U64,
    U128,
    Scalar,
    Text,
}

/// Number of bits in a field element.
pub const FIELD_BITS: usize = 253;

/// Number of bits in a scalar.
pub const SCALAR_BITS: usize = 251;

/// The number of bits of a literal of this type; a text literal has eight per byte.
pub open spec fn type_bits(t: LiteralType) -> nat {
    match t {
        LiteralType::Address => FIELD_BITS as nat,
        LiteralType::Boolean => 1,
        LiteralType::Field => FIELD_BITS as nat,
        LiteralType::Group => FIELD_BITS as nat,
        LiteralType::I8 | LiteralType::U8 => 8,
        LiteralType::I16 | LiteralType::U16 => 16,
        LiteralType::I32 | LiteralType::U32 => 32,
        LiteralType::I64 | LiteralType::U64 => 64,
        LiteralType::I128 | LiteralType::U128 => 128,
        LiteralType::Scalar => SCALAR_BITS as nat,
        LiteralType::Text => 0,
    }
}

/// A literal as its type, its canonical little-endian bits and its mode.
pub struct LiteralV {
    pub ty: LiteralType,
    pub bits: Seq<bool>,
    pub mode: Mode,
}

/// A literal as its canonical bits.
pub struct Literal {
    pub ty: LiteralType,
    pub bits: Vec<bool>,
    pub mode: Mode,
}

impl View for Literal {
    type V = LiteralV;

    open spec fn view(&self) -> LiteralV {
        LiteralV { ty: self.ty, bits: self.bits@, mode: self.mode }
    }
}

/// Whether a literal has as many bits as its type asks.
pub open spec fn literal_wf(l: LiteralV) -> bool {
    if l.ty == LiteralType::Text {
        l.bits.len() % 8 == 0
    } else {
        l.bits.len() == type_bits(l.ty)
    }
}

/// The little-endian bits of a byte.
pub open spec fn byte_bits(b: u8) -> Seq<bool> {
    Seq::new(8, |i: int| (b >> (i as u8)) & 1 == 1)
}

/// The bits of a byte string, byte after byte.
pub open spec fn bytes_bits(bs: Seq<u8>) -> Seq<bool>
    decreases bs.len(),
{
    if bs.len() == 0 {
        Seq::empty()
    } else {
        bytes_bits(bs.drop_last()) + byte_bits(bs.last())
    }
}

pub fn copy_bits(bits: &Vec<bool>) -> (r: Vec<bool>)
    ensures
        r@ == bits@,
{
    let mut r: Vec<bool> = Vec::new();
    let mut i: usize = 0;
    while i < bits.len()
        invariant
            i <= bits@.len(),
            r@ == bits@.take(i as int),
        decreases bits@.len() - i,
    {
        r.push(bits[i]);
        i = i + 1;
        assert(r@ =~= bits@.take(i as int));
    }
    assert(bits@.take(i as int) =~= bits@);
    r
}

proof fn lemma_bytes_bits_len(bs: Seq<u8>)
    ensures
        bytes_bits(bs).len() == 8 * bs.len(),
    decreases bs.len(),
{
    if bs.len() > 0 {
        lemma_bytes_bits_len(bs.drop_last());
    }
}

impl Literal {
    pub open spec fn wf(&self) -> bool {
        literal_wf(self@)
    }

    /// Builds a literal from its type, bits and mode; fails where the number of bits does not fit the type.
    pub fn new(ty: LiteralType, bits: Vec<bool>, mode: Mode) -> (r: Option<Literal>)
        ensures
            r is Some <==> literal_wf(LiteralV { ty, bits: bits@, mode }),
            r matches Some(l) ==> l@ == (LiteralV { ty, bits: bits@, mode }),
    {
        let ok = match ty {
            LiteralType::Address => bits.len() == FIELD_BITS,
            LiteralType::Boolean => bits.len() == 1,
            LiteralType::Field => bits.len() == FIELD_BITS,
            LiteralType::Group => bits.len() == FIELD_BITS,
            LiteralType::I8 | LiteralType::U8 => bits.len() == 8,
            LiteralType::I16 | LiteralType::U16 => bits.len() == 16,
            LiteralType::I32 | LiteralType::U32 => bits.len() == 32,
            LiteralType::I64 | LiteralType::U64 => bits.len() == 64,
            LiteralType::I128 | LiteralType::U128 => bits.len() == 128,
            LiteralType::Scalar => bits.len() == SCALAR_BITS,
            LiteralType::Text => bits.len() % 8 == 0,
        };
        if ok {
            Some(Literal { ty, bits, mode })
        } else {
            None
        }
    }

    /// A boolean literal.
    pub fn boolean(b: bool, mode: Mode) -> (r: Literal)
        ensures
            r@ == (LiteralV { ty: LiteralType::Boolean, bits: seq![b], mode }),
            r.wf(),
    {
        let mut bits: Vec<bool> = Vec::new();
        bits.push(b);
        Literal { ty: LiteralType::Boolean, bits, mode }
    }

    /// A text literal holding the bytes of `s`.
    pub fn text(s: &str, mode: Mode) -> (r: Literal)
        ensures
            r@ == (LiteralV { ty: LiteralType::Text, bits: bytes_bits(s.spec_bytes()), mode }),
            r.wf(),
    {
        let bytes = s.as_bytes();
        let mut bits: Vec<bool> = Vec::new();
        let mut i: usize = 0;
        while i < bytes.len()
            invariant
                i <= bytes@.len(),
                bytes@ == s.spec_bytes(),
                bits@ == bytes_bits(bytes@.take(i as int)),
            decreases bytes@.len() - i,
        {
            let b = bytes[i];
            let mut j: u8 = 0;
            let ghost start = bits@;
            while j < 8
                invariant
                    j <= 8,
                    bits@ == start + byte_bits(b).take(j as int),
                decreases 8 - j,
            {
                bits.push((b >> j) & 1 == 1);
                j = j + 1;
                assert(bits@ =~= start + byte_bits(b).take(j as int));
            }
            assert(bytes@.take(i + 1).drop_last() =~= bytes@.take(i as int));
            assert(byte_bits(b).take(8) =~= byte_bits(b));
            i = i + 1;
        }
        assert(bytes@.take(i as int) =~= bytes@);
        proof {
            lemma_bytes_bits_len(bytes@);
        }
        Literal { ty: LiteralType::Text, bits, mode }
    }

    /// Returns a literal with the same type, bits and mode.
    pub fn copy(&self) -> (r: Literal)
        ensures
            r@ == self@,
    {
        Literal { ty: self.ty, bits: copy_bits(&self.bits), mode: self.mode }
    }
}

/// A plaintext as a tree of named fields over literals.
pub enum PlaintextV {
    Literal(LiteralV),
    Composite(Seq<char>, Seq<(Seq<char>, PlaintextV)>),
}

/// A plaintext: a literal, or a named struct whose named fields are kept in declaration order.
pub enum Plaintext {
    Literal(Literal),
    Composite(Identifier, Vec<(Identifier, Plaintext)>),
}

pub open spec fn plaintext_view(p: &Plaintext) -> PlaintextV
    decreases p,
{
    match p {
        Plaintext::Literal(l) => PlaintextV::Literal(l@),
        Plaintext::Composite(name, fields) => PlaintextV::Composite(name@, fields_view(fields@)),
    }
}

pub open spec fn fields_view(fs: Seq<(Identifier, Plaintext)>) -> Seq<(Seq<char>, PlaintextV)>
    decreases fs,
{
    if fs.len() == 0 {
        Seq::empty()
    } else {
        fields_view(fs.drop_last()).push((fs.last().0@, plaintext_view(&fs.last().1)))
    }
}

impl View for Plaintext {
    type V = PlaintextV;

    open spec fn view(&self) -> PlaintextV {
        plaintext_view(self)
    }
}

/// The literal leaves of a plaintext, fields in declaration order.
pub open spec fn leaves(p: PlaintextV) -> Seq<LiteralV>
    decreases p,
{
    match p {
        PlaintextV::Literal(l) => seq![l],
        PlaintextV::Composite(_, fs) => fields_leaves(fs),
    }
}

pub open spec fn fields_leaves(fs: Seq<(Seq<char>, PlaintextV)>) -> Seq<LiteralV>
    decreases fs,
{
    if fs.len() == 0 {
        Seq::empty()
    } else {
        fields_leaves(fs.drop_last()) + leaves(fs.last().1)
    }
}

/// The views of a sequence of literals.
pub open spec fn literals_view(ls: Seq<Literal>) -> Seq<LiteralV> {
    ls.map_values(|l: Literal| l@)
}

/// The bits of a sequence of literals, one after another.
pub open spec fn flat_bits(ls: Seq<LiteralV>) -> Seq<bool>
    decreases ls.len(),
{
    if ls.len() == 0 {
        Seq::empty()
    } else {
        flat_bits(ls.drop_last()) + ls.last().bits
    }
}

/// The largest mode among a sequence of literals; `Constant` for none.
pub open spec fn modes_max(ls: Seq<LiteralV>) -> Mode
    decreases ls.len(),
{
    if ls.len() == 0 {
        Mode::Constant
    } else {
        max_mode(modes_max(ls.drop_last()), ls.last().mode)
    }
}

/// The field of that name, the first one where names repeat.
pub open spec fn field_lookup(fs: Seq<(Seq<char>, PlaintextV)>, name: Seq<char>) -> Option<PlaintextV>
    decreases fs.len(),
{
    if fs.len() == 0 {
        None
    } else if fs[0].0 == name {
        Some(fs[0].1)
    } else {
        field_lookup(fs.skip(1), name)
    }
}

/// The plaintext reached from `p` by following `path` through named fields.
pub open spec fn plaintext_find(p: PlaintextV, path: Seq<Seq<char>>) -> Option<PlaintextV>
    decreases path.len(),
{
    if path.len() == 0 {
        Some(p)
    } else {
        match p {
            PlaintextV::Literal(_) => None,
            PlaintextV::Composite(_, fs) => match field_lookup(fs, path[0]) {
                Some(child) => plaintext_find(child, path.skip(1)),
                None => None,
            },
        }
    }
}

proof fn lemma_fields_view_len(fs: Seq<(Identifier, Plaintext)>)
    ensures
        fields_view(fs).len() == fs.len(),
        forall|i: int| 0 <= i < fs.len() ==> #[trigger] fields_view(fs)[i] == (fs[i].0@, plaintext_view(&fs[i].1)),
    decreases fs.len(),
{
    if fs.len() > 0 {
        lemma_fields_view_len(fs.drop_last());
    }
}

proof fn lemma_field_lookup_step(fs: Seq<(Seq<char>, PlaintextV)>, name: Seq<char>, i: int)
    requires
        0 <= i < fs.len(),
        fs[i].0 != name,
    ensures
        field_lookup(fs.skip(i), name) == field_lookup(fs.skip(i + 1), name),
{
    assert(fs.skip(i).skip(1) =~= fs.skip(i + 1));
}

/// Why a path could not be followed.
#[derive(Clone, Copy, Debug, PartialEq, Eq, Structural)]
pub enum FindError {
    /// The step at this index of the path names no field where it is taken.
    FieldNotFound(usize),
}

impl Plaintext {
    /// Returns a plaintext with the same view.
    #[verifier::loop_isolation(false)]
    pub fn copy(&self) -> (r: Plaintext)
        ensures
            r@ == self@,
        decreases self,
    {
        match self {
            Plaintext::Literal(l) => Plaintext::Literal(l.copy()),
            Plaintext::Composite(name, fields) => {
                let mut out: Vec<(Identifier, Plaintext)> = Vec::new();
                let mut i: usize = 0;
                while i < fields.len()
                    invariant
                        i <= fields@.len(),
                        fields_view(out@) == fields_view(fields@.take(i as int)),
                    decreases fields@.len() - i,
                {
                    proof {
                        assert(decreases_to!(fields => fields[i as int]));
                        assert(decreases_to!(fields[i as int] => fields[i as int].1));
                    }
                    let entry = (fields[i].0.copy(), fields[i].1.copy());
                    proof {
                        assert(out@.push(entry).drop_last() =~= out@);
                        assert(fields@.take(i + 1).drop_last() =~= fields@.take(i as int));
                    }
                    out.push(entry);
                    i = i + 1;
                }
                assert(fields@.take(i as int) =~= fields@);
                Plaintext::Composite(name.copy(), out)
            },
        }
    }

    /// Appends the bits of every literal leaf, in order, to `out`.
    #[verifier::loop_isolation(false)]
    pub fn flatten_into(&self, out: &mut Vec<bool>)
        ensures
            final(out)@ == old(out)@ + flat_bits(leaves(self@)),
        decreases self,
    {
        match self {
            Plaintext::Literal(l) => {
                let mut j: usize = 0;
                while j < l.bits.len()
                    invariant
                        j <= l.bits@.len(),
                        out@ == old(out)@ + l.bits@.take(j as int),
                    decreases l.bits@.len() - j,
                {
                    out.push(l.bits[j]);
                    j = j + 1;
                    assert(out@ =~= old(out)@ + l.bits@.take(j as int));
                }
                assert(l.bits@.take(j as int) =~= l.bits@);
                assert(leaves(self@) == seq![l@]);
                assert(seq![l@].drop_last() =~= Seq::<LiteralV>::empty());
                assert(flat_bits(Seq::<LiteralV>::empty()) =~= Seq::<bool>::empty());
                assert(flat_bits(seq![l@]) =~= l.bits@);
            },
            Plaintext::Composite(_, fields) => {
                let mut i: usize = 0;
                while i < fields.len()
                    invariant
                        i <= fields@.len(),
                        out@ == old(out)@ + flat_bits(fields_leaves(fields_view(fields@.take(i as int)))),
                    decreases fields@.len() - i,
                {
                    proof {
                        assert(decreases_to!(fields => fields[i as int]));
                    }
                    fields[i].1.flatten_into(out);
                    proof {
                        lemma_fields_step(fields@, i as int);
                        lemma_flat_bits_append(
                            fields_leaves(fields_view(fields@.take(i as int))),
                            leaves(fields@[i as int].1@),
                        );
                    }
                    i = i + 1;
                }
                assert(fields@.take(i as int) =~= fields@);
            },
        }
    }

    /// Appends a copy of every literal leaf, in order, to `out`.
    #[verifier::loop_isolation(false)]
    pub fn leaves_into(&self, out: &mut Vec<Literal>)
        ensures
            literals_view(final(out)@) == literals_view(old(out)@) + leaves(self@),
        decreases self,
    {
        match self {
            Plaintext::Literal(l) => {
                let ghost before = literals_view(out@);
                out.push(l.copy());
                assert(leaves(self@) == seq![l@]);
                assert(literals_view(out@) =~= before + seq![l@]);
            },
            Plaintext::Composite(_, fields) => {
                let mut i: usize = 0;
                while i < fields.len()
                    invariant
                        i <= fields@.len(),
                        literals_view(out@) == literals_view(old(out)@) + fields_leaves(
                            fields_view(fields@.take(i as int)),
                        ),
                    decreases fields@.len() - i,
                {
                    proof {
                        assert(decreases_to!(fields => fields[i as int]));
                    }
                    fields[i].1.leaves_into(out);
                    proof {
                        lemma_fields_step(fields@, i as int);
                    }
                    i = i + 1;
                }
                assert(fields@.take(i as int) =~= fields@);
            },
        }
    }

    /// Returns the largest mode among the literal leaves.
    #[verifier::loop_isolation(false)]
    pub fn mode(&self) -> (r: Mode)
        ensures
            r == modes_max(leaves(self@)),
        decreases self,
    {
        match self {
            Plaintext::Literal(l) => {
                assert(leaves(self@) == seq![l@]);
                assert(seq![l@].drop_last() =~= Seq::<LiteralV>::empty());
                assert(modes_max(seq![l@]) == max_mode(modes_max(Seq::<LiteralV>::empty()), l.mode));
                Mode::Constant.max(l.mode)
            },
            Plaintext::Composite(_, fields) => {
                let mut m = Mode::Constant;
                let mut i: usize = 0;
                while i < fields.len()
                    invariant
                        i <= fields@.len(),
                        m == modes_max(fields_leaves(fields_view(fields@.take(i as int)))),
                    decreases fields@.len() - i,
                {
                    proof {
                        assert(decreases_to!(fields => fields[i as int]));
                    }
                    let c = fields[i].1.mode();
                    proof {
                        lemma_fields_step(fields@, i as int);
                        lemma_modes_max_append(
                            fields_leaves(fields_view(fields@.take(i as int))),
                            leaves(fields@[i as int].1@),
                        );
                    }
                    m = m.max(c);
                    i = i + 1;
                }
                assert(fields@.take(i as int) =~= fields@);
                m
            },
        }
    }

    /// Follows `path` through named fields and returns what it reaches.
    pub fn find(&self, path: &[Identifier]) -> (r: Result<Plaintext, FindError>)
        ensures
            r is Ok <==> plaintext_find(self@, path@.map_values(|id: Identifier| id@)) is Some,
            r matches Ok(p) ==> Some(p@) == plaintext_find(self@, path@.map_values(|id: Identifier| id@)),
            r matches Err(FindError::FieldNotFound(k)) ==> k < path@.len(),
    {
        let ghost names = path@.map_values(|id: Identifier| id@);
        let mut cur: &Plaintext = self;
        let mut k: usize = 0;
        assert(names.skip(0) =~= names);
        while k < path.len()
            invariant
                k <= path@.len(),
                names == path@.map_values(|id: Identifier| id@),
                plaintext_find(self@, names) == plaintext_find(cur@, names.skip(k as int)),
            decreases path@.len() - k,
        {
            assert(names.skip(k as int)[0] == path@[k as int]@);
            assert(names.skip(k as int).skip(1) =~= names.skip(k + 1));
            match cur {
                Plaintext::Literal(_) => {
                    return Err(FindError::FieldNotFound(k));
                },
                Plaintext::Composite(_, fields) => {
                    let ghost fv = fields_view(fields@);
                    proof {
                        lemma_fields_view_len(fields@);
                        assert(fv.skip(0) =~= fv);
                    }
                    let mut i: usize = 0;
                    while i < fields.len() && !fields[i].0.same_as(&path[k])
                        invariant
                            i <= fields@.len(),
                            fv == fields_view(fields@),
                            fv.len() == fields@.len(),
                            k < path@.len(),
                            field_lookup(fv, path@[k as int]@) == field_lookup(
                                fv.skip(i as int),
                                path@[k as int]@,
                            ),
                            forall|j: int|
                                0 <= j < fields@.len() ==> #[trigger] fv[j] == (
                                    fields@[j].0@,
                                    plaintext_view(&fields@[j].1),
                                ),
                        decreases fields@.len() - i,
                    {
                        proof {
                            lemma_field_lookup_step(fv, path@[k as int]@, i as int);
                        }
                        i = i + 1;
                    }
                    if i == fields.len() {
                        return Err(FindError::FieldNotFound(k));
                    }
                    cur = &fields[i].1;
                },
            }
            k = k + 1;
        }
        assert(names.skip(k as int) =~= Seq::<Seq<char>>::empty());
        Ok(cur.copy())
    }
}

proof fn lemma_fields_step(fs: Seq<(Identifier, Plaintext)>, i: int)
    requires
        0 <= i < fs.len(),
    ensures
        fields_leaves(fields_view(fs.take(i + 1))) == fields_leaves(fields_view(fs.take(i))) + leaves(
            fs[i].1@,
        ),
{
    let a = fs.take(i + 1);
    assert(a.drop_last() =~= fs.take(i));
    assert(a.last() == fs[i]);
    let v = fields_view(a);
    assert(v == fields_view(fs.take(i)).push((fs[i].0@, fs[i].1@)));
    assert(v.drop_last() =~= fields_view(fs.take(i)));
}

proof fn lemma_flat_bits_append(a: Seq<LiteralV>, b: Seq<LiteralV>)
    ensures
        flat_bits(a + b) == flat_bits(a) + flat_bits(b),
    decreases b.len(),
{
    if b.len() == 0 {
        assert(a + b =~= a);
        assert(flat_bits(a) + flat_bits(b) =~= flat_bits(a));
    } else {
        assert((a + b).drop_last() =~= a + b.drop_last());
        lemma_flat_bits_append(a, b.drop_last());
        assert(flat_bits(a + b) =~= flat_bits(a) + flat_bits(b));
    }
}

pub proof fn lemma_modes_max_concat(a: Seq<LiteralV>, b: Seq<LiteralV>)
    ensures
        modes_max(a + b) == max_mode(modes_max(a), modes_max(b)),
{
    lemma_modes_max_append(a, b);
}

proof fn lemma_modes_max_append(a: Seq<LiteralV>, b: Seq<LiteralV>)
    ensures
        modes_max(a + b) == max_mode(modes_max(a), modes_max(b)),
    decreases b.len(),
{
    if b.len() == 0 {
        assert(a + b =~= a);
    } else {
        assert((a + b).drop_last() =~= a + b.drop_last());
        lemma_modes_max_append(a, b.drop_last());
    }
}

/// A record entry: a plaintext with its storage visibility.
pub enum EntryV {
    Constant(PlaintextV),
    Public(PlaintextV),
    Private(PlaintextV),
}

pub open spec fn entry_plaintext(e: EntryV) -> PlaintextV {
    match e {
        EntryV::Constant(p) => p,
        EntryV::Public(p) => p,
        EntryV::Private(p) => p,
    }
}

/// A value: a plaintext, or a record as its named entries in order.
pub enum ValueV {
    Plaintext(PlaintextV),
    Record(Seq<(Seq<char>, EntryV)>),
}

/// A record field: a plaintext stored with a visibility of its own.
pub enum Entry {
    Constant(Plaintext),
    Public(Plaintext),
    Private(Plaintext),
}

impl View for Entry {
    type V = EntryV;

    open spec fn view(&self) -> EntryV {
        match self {
            Entry::Constant(p) => EntryV::Constant(p@),
            Entry::Public(p) => EntryV::Public(p@),
            Entry::Private(p) => EntryV::Private(p@),
        }
    }
}

impl Entry {
    /// Returns the plaintext inside the entry.
    pub fn plaintext(&self) -> (r: &Plaintext)
        ensures
            r@ == entry_plaintext(self@),
    {
        match self {
            Entry::Constant(p) => p,
            Entry::Public(p) => p,
            Entry::Private(p) => p,
        }
    }

    /// Returns an entry with the same view.
    pub fn copy(&self) -> (r: Entry)
        ensures
            r@ == self@,
    {
        match self {
            Entry::Constant(p) => Entry::Constant(p.copy()),
            Entry::Public(p) => Entry::Public(p.copy()),
            Entry::Private(p) => Entry::Private(p.copy()),
        }
    }
}

/// Program state: named entries in order.
pub struct Record {
    pub entries: Vec<(Identifier, Entry)>,
}

pub open spec fn entries_view(es: Seq<(Identifier, Entry)>) -> Seq<(Seq<char>, EntryV)> {
    es.map_values(|e: (Identifier, Entry)| (e.0@, e.1@))
}

impl View for Record {
    type V = Seq<(Seq<char>, EntryV)>;

    open spec fn view(&self) -> Seq<(Seq<char>, EntryV)> {
        entries_view(self.entries@)
    }
}

/// The entry of that name, the first one where names repeat.
pub open spec fn entry_lookup(es: Seq<(Seq<char>, EntryV)>, name: Seq<char>) -> Option<EntryV>
    decreases es.len(),
{
    if es.len() == 0 {
        None
    } else if es[0].0 == name {
        Some(es[0].1)
    } else {
        entry_lookup(es.skip(1), name)
    }
}

/// The literal leaves of a record: those of each entry, entries in order.
pub open spec fn entries_leaves(es: Seq<(Seq<char>, EntryV)>) -> Seq<LiteralV>
    decreases es.len(),
{
    if es.len() == 0 {
        Seq::empty()
    } else {
        entries_leaves(es.drop_last()) + leaves(entry_plaintext(es.last().1))
    }
}

/// The literal leaves of a value.
pub open spec fn value_leaves(v: ValueV) -> Seq<LiteralV> {
    match v {
        ValueV::Plaintext(p) => leaves(p),
        ValueV::Record(es) => entries_leaves(es),
    }
}

/// What `path` reaches in `v`: through a record's entry first, whose visibility is dropped,
/// then through named fields.
pub open spec fn value_find(v: ValueV, path: Seq<Seq<char>>) -> Option<ValueV> {
    if path.len() == 0 {
        Some(v)
    } else {
        let found = match v {
            ValueV::Plaintext(p) => plaintext_find(p, path),
            ValueV::Record(es) => match entry_lookup(es, path[0]) {
                Some(e) => plaintext_find(entry_plaintext(e), path.skip(1)),
                None => None,
            },
        };
        match found {
            Some(q) => Some(ValueV::Plaintext(q)),
            None => None,
        }
    }
}

proof fn lemma_entries_step(es: Seq<(Identifier, Entry)>, i: int)
    requires
        0 <= i < es.len(),
    ensures
        entries_leaves(entries_view(es.take(i + 1))) == entries_leaves(entries_view(es.take(i)))
            + leaves(entry_plaintext(es[i].1@)),
{
    let v = entries_view(es.take(i + 1));
    assert(v.drop_last() =~= entries_view(es.take(i)));
    assert(v.last() == (es[i].0@, es[i].1@));
}

/// The operand and result type of instructions.
pub enum Value {
    Plaintext(Plaintext),
    Record(Record),
}

impl View for Value {
    type V = ValueV;

    open spec fn view(&self) -> ValueV {
        match self {
            Value::Plaintext(p) => ValueV::Plaintext(p@),
            Value::Record(r) => ValueV::Record(r@),
        }
    }
}

impl Record {
    /// Returns a record with the same view.
    pub fn copy(&self) -> (r: Record)
        ensures
            r@ == self@,
    {
        let mut out: Vec<(Identifier, Entry)> = Vec::new();
        let mut i: usize = 0;
        while i < self.entries.len()
            invariant
                i <= self.entries@.len(),
                out@.len() == i,
                forall|j: int|
                    0 <= j < i ==> (#[trigger] out@[j]).0@ == self.entries@[j].0@ && out@[j].1@
                        == self.entries@[j].1@,
            decreases self.entries@.len() - i,
        {
            let e = (self.entries[i].0.copy(), self.entries[i].1.copy());
            out.push(e);
            i = i + 1;
        }
        assert(entries_view(out@) =~= entries_view(self.entries@));
        Record { entries: out }
    }

    /// Returns the entry that the name names.
    pub fn find_entry(&self, name: &Identifier) -> (r: Option<&Entry>)
        ensures
            match r {
                Some(e) => entry_lookup(self@, name@) == Some(e@),
                None => entry_lookup(self@, name@) is None,
            },
    {
        let ghost es = self@;
        let mut i: usize = 0;
        assert(es.skip(0) =~= es);
        while i < self.entries.len()
            invariant
                i <= self.entries@.len(),
                es == self@,
                es.len() == self.entries@.len(),
                entry_lookup(es, name@) == entry_lookup(es.skip(i as int), name@),
            decreases self.entries@.len() - i,
        {
            if self.entries[i].0.same_as(name) {
                return Some(&self.entries[i].1);
            }
            assert(es.skip(i as int).skip(1) =~= es.skip(i + 1));
            i = i + 1;
        }
        None
    }
}

impl Value {
    /// Returns a value with the same view.
    pub fn copy(&self) -> (r: Value)
        ensures
            r@ == self@,
    {
        match self {
            Value::Plaintext(p) => Value::Plaintext(p.copy()),
            Value::Record(r) => Value::Record(r.copy()),
        }
    }

    /// Appends the bits of every literal leaf, in order, to `out`.
    #[verifier::loop_isolation(false)]
    pub fn flatten_into(&self, out: &mut Vec<bool>)
        ensures
            final(out)@ == old(out)@ + flat_bits(value_leaves(self@)),
    {
        match self {
            Value::Plaintext(p) => p.flatten_into(out),
            Value::Record(rec) => {
                let mut i: usize = 0;
                while i < rec.entries.len()
                    invariant
                        i <= rec.entries@.len(),
                        out@ == old(out)@ + flat_bits(entries_leaves(entries_view(rec.entries@.take(i as int)))),
                    decreases rec.entries@.len() - i,
                {
                    rec.entries[i].1.plaintext().flatten_into(out);
                    proof {
                        lemma_entries_step(rec.entries@, i as int);
                        lemma_flat_bits_append(
                            entries_leaves(entries_view(rec.entries@.take(i as int))),
                            leaves(entry_plaintext(rec.entries@[i as int].1@)),
                        );
                    }
                    i = i + 1;
                }
                assert(rec.entries@.take(i as int) =~= rec.entries@);
            },
        }
    }

    /// Returns copies of the literal leaves, in order.
    #[verifier::loop_isolation(false)]
    pub fn leaves(&self) -> (r: Vec<Literal>)
        ensures
            literals_view(r@) == value_leaves(self@),
    {
        let mut out: Vec<Literal> = Vec::new();
        assert(literals_view(out@) =~= Seq::<LiteralV>::empty());
        match self {
            Value::Plaintext(p) => {
                p.leaves_into(&mut out);
                assert(literals_view(out@) =~= leaves(p@));
            },
            Value::Record(rec) => {
                let mut i: usize = 0;
                while i < rec.entries.len()
                    invariant
                        i <= rec.entries@.len(),
                        literals_view(out@) == entries_leaves(entries_view(rec.entries@.take(i as int))),
                    decreases rec.entries@.len() - i,
                {
                    let ghost before = literals_view(out@);
                    rec.entries[i].1.plaintext().leaves_into(&mut out);
                    proof {
                        lemma_entries_step(rec.entries@, i as int);
                        assert(before + leaves(entry_plaintext(rec.entries@[i as int].1@)) =~= literals_view(out@));
                    }
                    i = i + 1;
                }
                assert(rec.entries@.take(i as int) =~= rec.entries@);
            },
        }
        out
    }

    /// Returns the largest mode among the literal leaves.
    #[verifier::loop_isolation(false)]
    pub fn mode(&self) -> (r: Mode)
        ensures
            r == modes_max(value_leaves(self@)),
    {
        match self {
            Value::Plaintext(p) => p.mode(),
            Value::Record(rec) => {
                let mut m = Mode::Constant;
                let mut i: usize = 0;
                while i < rec.entries.len()
                    invariant
                        i <= rec.entries@.len(),
                        m == modes_max(entries_leaves(entries_view(rec.entries@.take(i as int)))),
                    decreases rec.entries@.len() - i,
                {
                    let c = rec.entries[i].1.plaintext().mode();
                    proof {
                        lemma_entries_step(rec.entries@, i as int);
                        lemma_modes_max_append(
                            entries_leaves(entries_view(rec.entries@.take(i as int))),
                            leaves(entry_plaintext(rec.entries@[i as int].1@)),
                        );
                    }
                    m = m.max(c);
                    i = i + 1;
                }
                assert(rec.entries@.take(i as int) =~= rec.entries@);
                m
            },
        }
    }

    /// Returns what `path` reaches in the value. An empty path gives the value itself; on a
    /// record the first step names an entry, whose plaintext is taken without its visibility.
    pub fn find(&self, path: &[Identifier]) -> (r: Result<Value, FindError>)
        ensures
            r is Ok <==> value_find(self@, path@.map_values(|id: Identifier| id@)) is Some,
            r matches Ok(v) ==> Some(v@) == value_find(self@, path@.map_values(|id: Identifier| id@)),
    {
        let ghost names = path@.map_values(|id: Identifier| id@);
        if path.len() == 0 {
            return Ok(self.copy());
        }
        match self {
            Value::Plaintext(p) => {
                let q = p.find(path)?;
                Ok(Value::Plaintext(q))
            },
            Value::Record(rec) => {
                let entry = match rec.find_entry(&path[0]) {
                    Some(e) => e,
                    None => {
                        return Err(FindError::FieldNotFound(0));
                    },
                };
                let rest = path.split_at(1).1;
                assert(rest@.map_values(|id: Identifier| id@) =~= names.skip(1));
                match entry.plaintext().find(rest) {
                    Ok(q) => Ok(Value::Plaintext(q)),
                    Err(FindError::FieldNotFound(k)) => Err(FindError::FieldNotFound(k + 1)),
                }
            },
        }
    }
}

/// Following a path in two parts is following the first part, then the second from there.
pub proof fn lemma_plaintext_find_concat(p: PlaintextV, a: Seq<Seq<char>>, b: Seq<Seq<char>>)
    ensures
        plaintext_find(p, a + b) == match plaintext_find(p, a) {
            Some(q) => plaintext_find(q, b),
            None => None,
        },
    decreases a.len(),
{
    if a.len() == 0 {
        assert(a + b =~= b);
    } else {
        assert((a + b)[0] == a[0]);
        assert((a + b).skip(1) =~= a.skip(1) + b);
        if let PlaintextV::Composite(_, fs) = p {
            if let Some(child) = field_lookup(fs, a[0]) {
                lemma_plaintext_find_concat(child, a.skip(1), b);
            }
        }
    }
}

/// Path resolution: the empty path gives the value unchanged; on a record the first step picks
/// an entry, whose visibility is dropped, and the rest of the path goes on through its
/// plaintext; a step that names no field, at any depth, fails.
pub proof fn lemma_find_laws(v: ValueV, path: Seq<Seq<char>>, k: int)
    ensures
        value_find(v, Seq::empty()) == Some(v),
        v matches ValueV::Record(es) ==> (path.len() > 0 ==> (entry_lookup(es, path[0]) matches Some(
            e,
        ) ==> value_find(v, path) == match plaintext_find(entry_plaintext(e), path.skip(1)) {
            Some(q) => Some(ValueV::Plaintext(q)),
            None => None,
        })),
        v matches ValueV::Record(es) ==> (path.len() > 0 ==> (entry_lookup(es, path[0]) is None
            ==> value_find(v, path) is None)),
        v matches ValueV::Plaintext(p) ==> (0 <= k < path.len() ==> (plaintext_find(p, path.take(k))
            matches Some(PlaintextV::Composite(_, fs)) ==> (field_lookup(fs, path[k]) is None
            ==> value_find(v, path) is None))),
        v matches ValueV::Plaintext(p) ==> (0 <= k < path.len() ==> (plaintext_find(p, path.take(k))
            matches Some(PlaintextV::Literal(_)) ==> value_find(v, path) is None)),
{
    if let ValueV::Plaintext(p) = v {
        if 0 <= k < path.len() {
            assert(path =~= path.take(k) + path.skip(k));
            lemma_plaintext_find_concat(p, path.take(k), path.skip(k));
            assert(path.skip(k)[0] == path[k]);
        }
    }
}

} // verus!
