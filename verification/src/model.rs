//! The data model of an instruction set and the meaning of its codec.
//!
//! An `InstructionModel` couples a parsed pattern with the variable fields
//! its symbols stand for; an `InstructionSet` holds several of them.  This
//! module also defines the specification-level meaning of everything the
//! codec does: which buffers a pattern matches, which bit positions a
//! variable occupies, what value a variable takes from a buffer, and what
//! bytes an instruction value encodes to.

use vstd::prelude::*;
use crate::bitmath::{bits_val, byte_bit, nth_bit};
use crate::pattern::{Bit, Opcode};

verus! {

/// A field type an instruction variable can have.  The sign of an integer
/// type affects only how callers interpret the packed bits, never the
/// packing itself, so only the bit width matters here.
#[derive(Clone, Copy, PartialEq, Eq, Structural, Debug)]
pub enum FieldType {
    Bool,
    U8,
    I8,
    U16,
    I16,
    U32,
    I32,
    U64,
    I64,
    U128,
    I128,
    Usize,
    Isize,
}

impl FieldType {
    /// The number of bits a value of this type holds.
    pub open spec fn spec_width(self) -> nat {
        match self {
            FieldType::Bool => 1,
            FieldType::U8 => 8,
            FieldType::I8 => 8,
            FieldType::U16 => 16,
            FieldType::I16 => 16,
            FieldType::U32 => 32,
            FieldType::I32 => 32,
            FieldType::U64 => 64,
            FieldType::I64 => 64,
            FieldType::U128 => 128,
            FieldType::I128 => 128,
            FieldType::Usize => usize::BITS as nat,
            FieldType::Isize => usize::BITS as nat,
        }
    }

    /// The number of bits a value of this type holds.
    pub fn width(self) -> (w: usize)
        ensures
            w == self.spec_width(),
            1 <= w <= 128,
    {
        match self {
            FieldType::Bool => 1,
            FieldType::U8 => 8,
            FieldType::I8 => 8,
            FieldType::U16 => 16,
            FieldType::I16 => 16,
            FieldType::U32 => 32,
            FieldType::I32 => 32,
            FieldType::U64 => 64,
            FieldType::I64 => 64,
            FieldType::U128 => 128,
            FieldType::I128 => 128,
            FieldType::Usize => usize::BITS as usize,
            FieldType::Isize => usize::BITS as usize,
        }
    }
}

/// An error found while compiling a specification.  Indices name the
/// offending instruction (and field) by position in the input.
#[derive(Clone, Copy, PartialEq, Eq, Structural, Debug)]
pub enum SpecError {
    /// The pattern literal lacks a valid `0x`/`0b` prefix.
    MalformedPattern { instr: usize },
    /// A bound symbol is not exactly one character, is a lowercase hex
    /// digit, or is numeric.
    InvalidVariableName { instr: usize, field: usize },
    /// The declared field type is not one this library supports.
    UnsupportedType { instr: usize, field: usize },
    /// Two fields of one instruction are bound to the same symbol.
    DuplicateSymbol { instr: usize, field: usize },
    /// The pattern contains a symbol that no field is bound to.
    UnboundSymbol { instr: usize, symbol: char },
    /// A field's symbol never occurs in the pattern.
    UnusedVariable { instr: usize, field: usize },
    /// A variable occupies more pattern bits than its type holds.
    Overflow { instr: usize, field: usize },
    /// Two instructions cannot be told apart by their constant bits.
    Collision { first: usize, second: usize },
}

/// A decode failure at run time.
#[derive(Clone, Copy, PartialEq, Eq, Structural, Debug)]
pub enum DecodeError {
    /// The buffer contains no known opcode.
    UnknownOpcode,
    /// The buffer ended before a complete opcode could be read; extending
    /// it could lead to successful decoding.
    UnexpectedEOF,
}

/// An encode failure at run time.
#[derive(Clone, Copy, PartialEq, Eq, Structural, Debug)]
pub enum EncodeError {
    /// The destination buffer is shorter than the instruction; nothing was
    /// written.
    UnexpectedEOF,
}

/// One field of an instruction descriptor, as the authoring layer hands it
/// in: a field name, an optional explicit symbol (the field name itself is
/// the symbol when absent), and the name of the declared type.
pub struct FieldDescriptor {
    pub name: String,
    pub symbol: Option<String>,
    pub ty: String,
}

/// One instruction of a specification: a display name, a pattern literal,
/// and the declared fields.
pub struct InstrDescriptor {
    pub name: String,
    pub pattern: String,
    pub fields: Vec<FieldDescriptor>,
}

/// A variable of a compiled instruction: the field it came from, the single
/// character that stands for it in the pattern, and its type.
pub struct VariableSpec {
    pub name: String,
    pub symbol: char,
    pub ty: FieldType,
}

/// A compiled instruction: its display name, its parsed pattern, and its
/// variables in field declaration order.
pub struct InstructionModel {
    pub name: String,
    pub opcode: Opcode,
    pub vars: Vec<VariableSpec>,
}

/// A typed instruction value: which instruction of the set it is, and the
/// packed bits of each variable, in the instruction's field order.  A bool
/// field holds 0 or 1; integer fields hold their unsigned bit image.
#[derive(Debug)]
pub struct InstrValue {
    pub instr: usize,
    pub fields: Vec<u128>,
}

impl Clone for InstrValue {
    fn clone(&self) -> (r: Self)
        ensures
            r.instr == self.instr,
            r.fields@ == self.fields@,
    {
        let mut fields: Vec<u128> = Vec::new();
        let mut i: usize = 0;
        while i < self.fields.len()
            invariant
                i <= self.fields@.len(),
                fields@ == self.fields@.take(i as int),
            decreases self.fields@.len() - i,
        {
            fields.push(self.fields[i]);
            proof {
                assert(self.fields@.take(i + 1) =~= self.fields@.take(i as int).push(
                    self.fields@[i as int],
                ));
            }
            i = i + 1;
        }
        proof {
            assert(self.fields@.take(self.fields@.len() as int) =~= self.fields@);
        }
        InstrValue { instr: self.instr, fields }
    }
}

impl PartialEq for InstrValue {
    fn eq(&self, other: &InstrValue) -> (r: bool) {
        if self.instr != other.instr {
            return false;
        }
        if self.fields.len() != other.fields.len() {
            return false;
        }
        let n = self.fields.len();
        let mut i: usize = 0;
        while i < n
            invariant
                i <= n,
                n == self.fields@.len(),
                n == other.fields@.len(),
                forall|k: int| 0 <= k < i ==> self.fields@[k] == other.fields@[k],
            decreases n - i,
        {
            if self.fields[i] != other.fields[i] {
                return false;
            }
            i = i + 1;
        }
        proof {
            assert(self.fields@ =~= other.fields@);
        }
        true
    }
}

impl vstd::std_specs::cmp::PartialEqSpecImpl for InstrValue {
    open spec fn obeys_eq_spec() -> bool {
        true
    }

    open spec fn eq_spec(&self, other: &InstrValue) -> bool {
        self.instr == other.instr && self.fields@ == other.fields@
    }
}

impl Eq for InstrValue {

}

/// The bit of buffer `buf` at absolute bit position `p`; position 0 is the
/// most significant bit of the first byte.
pub open spec fn buf_bit(buf: Seq<u8>, p: int) -> u8 {
    byte_bit(buf[p / 8], p % 8)
}

/// Whether one pattern symbol admits the given buffer bit.
pub open spec fn bit_admits(b: Bit, v: u8) -> bool {
    match b {
        Bit::Zero => v == 0,
        Bit::One => v == 1,
        Bit::Var(_) => true,
    }
}

/// The match predicate: the buffer holds the pattern's full length and
/// every constant bit of the pattern agrees with the buffer.
pub open spec fn spec_matches(pat: Seq<Bit>, buf: Seq<u8>) -> bool {
    &&& buf.len() >= pat.len() / 8
    &&& forall|p: int| 0 <= p < pat.len() ==> bit_admits(pat[p], buf_bit(buf, p))
}

/// The bit positions of `pat` where the symbol `sym` occurs, in pattern
/// order (most significant first).
pub open spec fn occ(pat: Seq<Bit>, sym: char) -> Seq<int>
    decreases pat.len(),
{
    if pat.len() == 0 {
        Seq::empty()
    } else {
        occ(pat.drop_last(), sym) + if pat.last() == Bit::Var(sym) {
            seq![pat.len() - 1]
        } else {
            Seq::empty()
        }
    }
}

/// The positions a symbol occupies are exactly the pattern positions that
/// hold it, listed in strictly increasing order.
pub proof fn lemma_occ_props(pat: Seq<Bit>, sym: char)
    ensures
        forall|i: int|
            0 <= i < occ(pat, sym).len() ==> 0 <= #[trigger] occ(pat, sym)[i] < pat.len()
                && pat[occ(pat, sym)[i]] == Bit::Var(sym),
        forall|i: int, j: int|
            0 <= i < j < occ(pat, sym).len() ==> #[trigger] occ(pat, sym)[i] < #[trigger] occ(
                pat,
                sym,
            )[j],
        forall|p: int|
            0 <= p < pat.len() && pat[p] == Bit::Var(sym) ==> #[trigger] occ(pat, sym).contains(p),
    decreases pat.len(),
{
    if pat.len() > 0 {
        lemma_occ_props(pat.drop_last(), sym);
        let prev = occ(pat.drop_last(), sym);
        let cur = occ(pat, sym);
        assert forall|p: int|
            0 <= p < pat.len() && pat[p] == Bit::Var(sym) implies #[trigger] cur.contains(p) by {
            if p < pat.len() - 1 {
                assert(pat.drop_last()[p] == pat[p]);
                assert(prev.contains(p));
                let i = choose|i: int| 0 <= i < prev.len() && prev[i] == p;
                assert(cur[i] == p);
            } else {
                assert(cur[cur.len() - 1] == p);
            }
        }
    }
}

/// The buffer bits a symbol's positions select, in pattern order.
pub open spec fn field_bits(pat: Seq<Bit>, buf: Seq<u8>, sym: char) -> Seq<u8> {
    occ(pat, sym).map_values(|p: int| buf_bit(buf, p))
}

/// The value a variable takes from a buffer: its selected bits read most
/// significant first, so the earliest pattern occurrence is the value's
/// most significant bit.
pub open spec fn spec_field_val(pat: Seq<Bit>, buf: Seq<u8>, sym: char) -> nat {
    bits_val(field_bits(pat, buf, sym))
}

/// The index of the variable bound to symbol `c`, or -1 when none is.
pub open spec fn find_var(vars: Seq<VariableSpec>, c: char) -> int
    decreases vars.len(),
{
    if vars.len() == 0 {
        -1
    } else if vars[0].symbol == c {
        0
    } else {
        let r = find_var(vars.drop_first(), c);
        if r < 0 {
            -1
        } else {
            r + 1
        }
    }
}

/// `find_var` finds exactly the bound symbols, and returns their index.
pub proof fn lemma_find_var(vars: Seq<VariableSpec>, c: char)
    ensures
        find_var(vars, c) >= 0 <==> exists|j: int|
            0 <= j < vars.len() && #[trigger] vars[j].symbol == c,
        find_var(vars, c) >= 0 ==> 0 <= find_var(vars, c) < vars.len() && vars[find_var(
            vars,
            c,
        )].symbol == c,
    decreases vars.len(),
{
    if vars.len() > 0 {
        lemma_find_var(vars.drop_first(), c);
        if vars[0].symbol == c {
        } else {
            let r = find_var(vars.drop_first(), c);
            if r >= 0 {
                assert(vars[r + 1].symbol == c);
            } else {
                assert forall|j: int|
                    0 <= j < vars.len() implies #[trigger] vars[j].symbol != c by {
                    if j > 0 {
                        assert(vars.drop_first()[j - 1] == vars[j]);
                    }
                }
            }
        }
    }
}

/// The index of `p` in a position list (the list's length when absent).
pub open spec fn occ_index(positions: Seq<int>, p: int) -> int
    decreases positions.len(),
{
    if positions.len() == 0 {
        0
    } else if positions[0] == p {
        0
    } else {
        1 + occ_index(positions.drop_first(), p)
    }
}

/// An occurrence index is never negative.
pub proof fn lemma_occ_index_nonneg(positions: Seq<int>, p: int)
    ensures
        occ_index(positions, p) >= 0,
    decreases positions.len(),
{
    if positions.len() > 0 && positions[0] != p {
        lemma_occ_index_nonneg(positions.drop_first(), p);
    }
}

/// In a strictly increasing position list, `occ_index` inverts indexing.
pub proof fn lemma_occ_index_sorted(positions: Seq<int>, i: int)
    requires
        forall|i1: int, i2: int|
            0 <= i1 < i2 < positions.len() ==> #[trigger] positions[i1] < #[trigger] positions[i2],
        0 <= i < positions.len(),
    ensures
        occ_index(positions, positions[i]) == i,
    decreases i,
{
    if i > 0 {
        assert(positions[0] < positions[i]);
        let rest = positions.drop_first();
        assert forall|i1: int, i2: int|
            0 <= i1 < i2 < rest.len() implies #[trigger] rest[i1] < #[trigger] rest[i2] by {
            assert(rest[i1] == positions[i1 + 1]);
            assert(rest[i2] == positions[i2 + 1]);
        }
        assert(rest[i - 1] == positions[i]);
        lemma_occ_index_sorted(rest, i - 1);
    }
}

/// The bit that encoding writes at pattern position `p`: constants write
/// themselves, a bound variable writes the corresponding bit of its field
/// value, and a free wildcard writes zero.
pub open spec fn enc_bit(pat: Seq<Bit>, vars: Seq<VariableSpec>, fields: Seq<u128>, p: int) -> u8 {
    match pat[p] {
        Bit::Zero => 0,
        Bit::One => 1,
        Bit::Var(c) => {
            let j = find_var(vars, c);
            if j < 0 {
                0
            } else {
                let positions = occ(pat, c);
                let k = occ_index(positions, p);
                nth_bit(fields[j] as nat, (positions.len() - 1 - k) as nat)
            }
        },
    }
}

/// The byte that encoding writes at byte index `b`.
pub open spec fn enc_byte(pat: Seq<Bit>, vars: Seq<VariableSpec>, fields: Seq<u128>, b: int) -> u8 {
    bits_val(Seq::new(8, |j: int| enc_bit(pat, vars, fields, 8 * b + j))) as u8
}

/// Whether two pattern symbols are compatible at one position: they are
/// unless both are constant and disagree.
pub open spec fn bit_compat(a: Bit, b: Bit) -> bool {
    a is Var || b is Var || a == b
}

/// Two patterns collide when no position within their shared length can
/// tell them apart by constant bits alone.
pub open spec fn collides(p1: Seq<Bit>, p2: Seq<Bit>) -> bool {
    forall|p: int|
        0 <= p < vstd::math::min(p1.len() as int, p2.len() as int) ==> bit_compat(p1[p], p2[p])
}

/// The instruction a compilation error is reported against.
pub open spec fn err_instr(e: SpecError) -> int {
    match e {
        SpecError::MalformedPattern { instr } => instr as int,
        SpecError::InvalidVariableName { instr, .. } => instr as int,
        SpecError::UnsupportedType { instr, .. } => instr as int,
        SpecError::DuplicateSymbol { instr, .. } => instr as int,
        SpecError::UnboundSymbol { instr, .. } => instr as int,
        SpecError::UnusedVariable { instr, .. } => instr as int,
        SpecError::Overflow { instr, .. } => instr as int,
        SpecError::Collision { second, .. } => second as int,
    }
}

/// What `char::is_numeric` returns; a function of the character alone.
pub uninterp spec fn numeric_char(c: char) -> bool;

/// Relies on char::is_numeric: whether the character has a Unicode numeric
/// property (Nd, Nl or No).  The result depends on the character alone, and
/// the ASCII digits are numeric.
#[verifier::external_body]
pub(crate) fn char_is_numeric(c: char) -> (r: bool)
    ensures
        r == numeric_char(c),
        '0' <= c && c <= '9' ==> r,
{
    c.is_numeric()
}

/// A symbol a field may legally be bound to: one character that is neither
/// a lowercase hex digit nor numeric.
pub open spec fn sym_legal(c: char) -> bool {
    !('a' <= c && c <= 'f') && !numeric_char(c)
}

/// Structural well-formedness of one compiled instruction: the pattern is
/// whole bytes; variable symbols are distinct; each variable occurs in the
/// pattern and fits its declared width; every pattern symbol other than the
/// free wildcard `'*'` is bound.
pub open spec fn wf_model(m: InstructionModel) -> bool {
    let pat = m.opcode.bits@;
    &&& pat.len() % 8 == 0
    &&& forall|j1: int, j2: int|
        0 <= j1 < j2 < m.vars@.len() ==> #[trigger] m.vars@[j1].symbol != #[trigger] m.vars@[
            j2
        ].symbol
    &&& forall|j: int|
        0 <= j < m.vars@.len() ==> 1 <= occ(pat, #[trigger] m.vars@[j].symbol).len()
            <= m.vars@[j].ty.spec_width()
    &&& forall|p: int|
        0 <= p < pat.len() ==> match #[trigger] pat[p] {
            Bit::Var(c) => c == '*' || find_var(m.vars@, c) >= 0,
            _ => true,
        }
}

/// Well-formedness of a whole instruction set: every instruction is
/// well-formed and no two collide.
pub open spec fn wf_models(models: Seq<InstructionModel>) -> bool {
    &&& forall|i: int| 0 <= i < models.len() ==> wf_model(#[trigger] models[i])
    &&& forall|i: int, j: int|
        0 <= i < j < models.len() ==> !collides(
            #[trigger] models[i].opcode.bits@,
            #[trigger] models[j].opcode.bits@,
        )
}

/// The fields an instruction decodes to from a buffer, in field order.
pub open spec fn spec_decoded_fields(m: InstructionModel, buf: Seq<u8>) -> Seq<u128> {
    Seq::new(
        m.vars@.len(),
        |j: int| spec_field_val(m.opcode.bits@, buf, m.vars@[j].symbol) as u128,
    )
}

} // verus!
