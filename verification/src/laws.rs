//! The laws the codec obeys, proved once and for all from the contracts of
//! `compile`, `encode` and the two decoders.

use vstd::prelude::*;
use vstd::arithmetic::power2::pow2;
use vstd::arithmetic::div_mod::lemma_small_mod;
use crate::binder::parsed_pat;
use crate::bitmath::{bit_seq, bits_val, byte_bit, nth_bit, lemma_val_of_bit_seq};
use crate::codec::{lemma_enc_byte_bit, lemma_var_self};
use crate::collision::{lemma_collides_sym, lemma_match_unique};
use crate::iset::{decode_post, descs_valid, encode_post};
use crate::model::InstrDescriptor;
use crate::model::{
    bit_admits, buf_bit, collides, enc_bit, enc_byte, occ, occ_index, spec_decoded_fields,
    spec_field_val, spec_matches, wf_model, wf_models, DecodeError, EncodeError, InstrValue,
    InstructionModel, lemma_occ_index_sorted, lemma_occ_props,
};
use crate::pattern::Bit;

verus! {

/// An instruction value drawn from the set's declared domains: it names an
/// instruction of the set, carries one packed field per variable, and each
/// field fits in the bits its pattern occurrences can carry.
pub open spec fn value_fits(models: Seq<InstructionModel>, v: InstrValue) -> bool {
    &&& v.instr < models.len()
    &&& v.fields@.len() == models[v.instr as int].vars@.len()
    &&& forall|j: int|
        0 <= j < v.fields@.len() ==> (#[trigger] v.fields@[j]) < pow2(
            occ(
                models[v.instr as int].opcode.bits@,
                models[v.instr as int].vars@[j].symbol,
            ).len(),
        )
}

/// A buffer holding an instruction's encoding matches that instruction's
/// pattern, and every variable decodes from it to the field it was encoded
/// from.
proof fn lemma_encoded_buffer(models: Seq<InstructionModel>, v: InstrValue, buf: Seq<u8>)
    requires
        wf_models(models),
        value_fits(models, v),
        buf.len() >= models[v.instr as int].opcode.bits@.len() / 8,
        forall|b: int|
            0 <= b < models[v.instr as int].opcode.bits@.len() / 8 ==> buf[b] == enc_byte(
                models[v.instr as int].opcode.bits@,
                models[v.instr as int].vars@,
                v.fields@,
                b,
            ),
    ensures
        spec_matches(models[v.instr as int].opcode.bits@, buf),
        spec_decoded_fields(models[v.instr as int], buf) == v.fields@,
{
    let m = models[v.instr as int];
    let pat = m.opcode.bits@;
    let vars = m.vars@;
    assert(wf_model(m));
    assert forall|p: int| 0 <= p < pat.len() implies buf_bit(buf, p) == enc_bit(
        pat,
        vars,
        v.fields@,
        p,
    ) by {
        let b = p / 8;
        let j = p % 8;
        vstd::arithmetic::div_mod::lemma_fundamental_div_mod(p, 8);
        assert(8 * b < pat.len());
        lemma_enc_byte_bit(pat, vars, v.fields@, b, j);
    }
    assert forall|p: int| 0 <= p < pat.len() implies bit_admits(
        #[trigger] pat[p],
        buf_bit(buf, p),
    ) by {
        match pat[p] {
            Bit::Zero => {
                assert(enc_bit(pat, vars, v.fields@, p) == 0);
            },
            Bit::One => {
                assert(enc_bit(pat, vars, v.fields@, p) == 1);
            },
            Bit::Var(_) => {},
        }
    }
    assert forall|j: int|
        0 <= j < vars.len() implies spec_field_val(pat, buf, (#[trigger] vars[j]).symbol)
        == v.fields@[j] as nat by {
        let sym = vars[j].symbol;
        let positions = occ(pat, sym);
        let n = positions.len();
        lemma_occ_props(pat, sym);
        lemma_var_self(m, j);
        let fb = positions.map_values(|p: int| buf_bit(buf, p));
        assert(fb =~= bit_seq(v.fields@[j] as nat, n)) by {
            assert forall|k: int| 0 <= k < n implies fb[k] == bit_seq(v.fields@[j] as nat, n)[k]
                by {
                let p = positions[k];
                assert(pat[p] == Bit::Var(sym));
                lemma_occ_index_sorted(positions, k);
                assert(buf_bit(buf, p) == enc_bit(pat, vars, v.fields@, p));
                assert(enc_bit(pat, vars, v.fields@, p) == nth_bit(
                    v.fields@[j] as nat,
                    (n - 1 - k) as nat,
                ));
            }
        }
        lemma_val_of_bit_seq(v.fields@[j] as nat, n);
        lemma_small_mod(v.fields@[j] as nat, pow2(n));
    }
    assert(spec_decoded_fields(m, buf) =~= v.fields@);
}

/// Round trip: encoding an instruction value drawn from the declared
/// domains and decoding the written bytes yields that value back, together
/// with the instruction's exact byte length.  This holds for every decoder
/// meeting the decode contract, so for the decision tree and the linear
/// scan alike.
pub proof fn lemma_round_trip(
    models: Seq<InstructionModel>,
    v: InstrValue,
    old_buf: Seq<u8>,
    enc_buf: Seq<u8>,
    r_enc: Result<usize, EncodeError>,
    r_dec: Result<(usize, InstrValue), DecodeError>,
)
    requires
        wf_models(models),
        value_fits(models, v),
        encode_post(models, v, old_buf, enc_buf, r_enc),
        r_enc is Ok,
        decode_post(models, enc_buf, r_dec),
    ensures
        r_dec is Ok,
        r_dec->Ok_0.0 == models[v.instr as int].opcode.bits@.len() / 8,
        r_dec->Ok_0.1.instr == v.instr,
        r_dec->Ok_0.1.fields@ == v.fields@,
{
    let m = models[v.instr as int];
    lemma_encoded_buffer(models, v, enc_buf);
    assert(spec_matches(m.opcode.bits@, enc_buf));
    match r_dec {
        Ok((n2, v2)) => {
            if v2.instr != v.instr {
                let pi = models[v.instr as int].opcode.bits@;
                let pj = models[v2.instr as int].opcode.bits@;
                lemma_collides_sym(pi, pj);
                assert(!collides(pi, pj));
                assert(wf_model(models[v2.instr as int]));
                lemma_match_unique(pi, pj, enc_buf);
            }
        },
        Err(_) => {
            assert(!spec_matches(m.opcode.bits@, enc_buf));
        },
    }
}

/// Decoder agreement: any two results that meet the decode contract on the
/// same buffer — the decision tree's and the naive linear scan's both do —
/// succeed together, and on success name the same instruction, the same
/// byte count and the same fields.  In particular decoding is
/// deterministic.
pub proof fn lemma_decode_agreement(
    models: Seq<InstructionModel>,
    buf: Seq<u8>,
    r1: Result<(usize, InstrValue), DecodeError>,
    r2: Result<(usize, InstrValue), DecodeError>,
)
    requires
        wf_models(models),
        decode_post(models, buf, r1),
        decode_post(models, buf, r2),
    ensures
        r1 is Ok <==> r2 is Ok,
        r1 is Ok ==> {
            &&& r1->Ok_0.0 == r2->Ok_0.0
            &&& r1->Ok_0.1.instr == r2->Ok_0.1.instr
            &&& r1->Ok_0.1.fields@ == r2->Ok_0.1.fields@
        },
{
    match (r1, r2) {
        (Ok((n1, v1)), Ok((n2, v2))) => {
            if v1.instr != v2.instr {
                let pi = models[v1.instr as int].opcode.bits@;
                let pj = models[v2.instr as int].opcode.bits@;
                lemma_collides_sym(pi, pj);
                assert(wf_model(models[v1.instr as int]));
                assert(wf_model(models[v2.instr as int]));
                lemma_match_unique(pi, pj, buf);
            }
        },
        (Ok((n1, v1)), Err(_)) => {
            assert(!spec_matches(models[v1.instr as int].opcode.bits@, buf));
        },
        (Err(_), Ok((n2, v2))) => {
            assert(!spec_matches(models[v2.instr as int].opcode.bits@, buf));
        },
        (Err(_), Err(_)) => {},
    }
}

/// Encoding is deterministic: two runs of the encode contract on the same
/// value and the same starting buffer write the same bytes and return the
/// same result.
pub proof fn lemma_encode_deterministic(
    models: Seq<InstructionModel>,
    v: InstrValue,
    old_buf: Seq<u8>,
    b1: Seq<u8>,
    r1: Result<usize, EncodeError>,
    b2: Seq<u8>,
    r2: Result<usize, EncodeError>,
)
    requires
        v.instr < models.len(),
        encode_post(models, v, old_buf, b1, r1),
        encode_post(models, v, old_buf, b2, r2),
    ensures
        b1 == b2,
        r1 == r2,
{
    let nb = models[v.instr as int].opcode.bits@.len() / 8;
    match (r1, r2) {
        (Ok(n1), Ok(n2)) => {
            assert(b1 =~= b2);
        },
        (Err(e1), Err(e2)) => {
            assert(b1 =~= b2);
        },
        (Ok(n1), Err(e2)) => {
            assert(old_buf.len() >= nb && old_buf.len() < nb);
        },
        (Err(e1), Ok(n2)) => {
            assert(old_buf.len() >= nb && old_buf.len() < nb);
        },
    }
}

/// Collision rejection: a specification holding two instructions whose
/// patterns agree on every bit position where neither is a wildcard is not
/// a valid specification, so `compile` — which succeeds exactly on valid
/// specifications — never builds an instruction set from it.
pub proof fn lemma_collision_rejected(descs: Seq<InstrDescriptor>, i: int, j: int)
    requires
        0 <= i < j < descs.len(),
        collides(parsed_pat(descs[i]), parsed_pat(descs[j])),
    ensures
        !descs_valid(descs),
{
}

} // verus!
