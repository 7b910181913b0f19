//! The compiled codec of one instruction.
//!
//! From an instruction's model the compiler derives three artifacts: the
//! per-byte constant masks and codes whose comparison `mem[b] & mask[b] ==
//! code[b]` is the match predicate, and, per variable, the mask runs that
//! move its bits between buffer and value.  Decoding extracts each run and
//! assembles the value by shift-and-or, most significant occurrence first;
//! encoding writes the constant template and then ors each run's bits into
//! place.

use vstd::prelude::*;
use vstd::arithmetic::power2::{pow2, lemma_pow2_adds, lemma_pow2_pos, lemma2_to64};
use vstd::arithmetic::div_mod::{
    lemma_fundamental_div_mod_converse_div, lemma_mod_mod, lemma_small_mod,
};
use vstd::bits::{low_bits_mask, lemma_u8_shr_is_div, lemma_u128_shr_is_div};
use crate::bitmath::{
    all_bits, bit_seq, bits_val, byte_bit, nth_bit, lemma_and_bit, lemma_bits_val_bit,
    lemma_bits_val_bound, lemma_bits_val_concat, lemma_bits_val_zero, lemma_byte_eq_bits,
    lemma_chunk_extract, lemma_nth_bit_div, lemma_nth_bit_mod, lemma_or_insert,
    lemma_or_insert_bits, lemma_pow2_small, lemma_val_of_bit_seq, pow2_u128,
};
use crate::model::{
    bit_admits, buf_bit, enc_bit, enc_byte, find_var, occ, occ_index, spec_decoded_fields,
    spec_field_val, spec_matches, EncodeError, InstructionModel, VariableSpec, lemma_find_var,
    lemma_occ_index_sorted, lemma_occ_props, wf_model,
};
use crate::pattern::{Bit, Opcode};
use crate::posmap::{
    build_runs, occurrences, pos_ints, run_covers, runs_start, runs_cover, MaskRun,
};

verus! {

/// The mask bit of a pattern position: set exactly where it is constant.
pub open spec fn mask_bit(b: Bit) -> u8 {
    match b {
        Bit::Var(_) => 0,
        _ => 1,
    }
}

/// The code bit of a pattern position: set exactly at a constant one.
pub open spec fn code_bit(b: Bit) -> u8 {
    match b {
        Bit::One => 1,
        _ => 0,
    }
}

/// The constant mask of pattern byte `b`.
pub open spec fn spec_mask_byte(pat: Seq<Bit>, b: int) -> nat {
    bits_val(Seq::new(8, |j: int| mask_bit(pat[8 * b + j])))
}

/// The constant code of pattern byte `b`.
pub open spec fn spec_code_byte(pat: Seq<Bit>, b: int) -> nat {
    bits_val(Seq::new(8, |j: int| code_bit(pat[8 * b + j])))
}

/// One instruction together with its compiled codec: the constant masks and
/// codes per byte, and each variable's mask runs.
pub struct CompiledInstr {
    pub model: InstructionModel,
    pub masks: Vec<u8>,
    pub codes: Vec<u8>,
    pub var_runs: Vec<Vec<MaskRun>>,
}

impl CompiledInstr {
    /// The codec belongs to a well-formed model and is faithful to it.
    pub open spec fn wf(&self) -> bool {
        let pat = self.model.opcode.bits@;
        &&& wf_model(self.model)
        &&& self.masks@.len() == pat.len() / 8
        &&& self.codes@.len() == pat.len() / 8
        &&& forall|b: int|
            0 <= b < pat.len() / 8 ==> #[trigger] self.masks@[b] as nat == spec_mask_byte(pat, b)
        &&& forall|b: int|
            0 <= b < pat.len() / 8 ==> #[trigger] self.codes@[b] as nat == spec_code_byte(pat, b)
        &&& self.var_runs@.len() == self.model.vars@.len()
        &&& forall|j: int|
            0 <= j < self.model.vars@.len() ==> runs_cover(
                #[trigger] self.var_runs@[j]@,
                occ(pat, self.model.vars@[j].symbol),
            )
    }

    /// The instruction's fixed wire length in bytes.
    pub fn num_bytes(&self) -> (n: usize)
        requires
            self.wf(),
        ensures
            n == self.model.opcode.bits@.len() / 8,
    {
        self.masks.len()
    }

    /// Compiles a model's codec: masks, codes and mask runs.
    pub fn compile(model: InstructionModel) -> (r: CompiledInstr)
        requires
            wf_model(model),
        ensures
            r.wf(),
            r.model == model,
    {
        let pat_len = model.opcode.bits.len();
        let nb = pat_len / 8;
        let ghost pat = model.opcode.bits@;
        let mut masks: Vec<u8> = Vec::new();
        let mut codes: Vec<u8> = Vec::new();
        let mut b: usize = 0;
        while b < nb
            invariant
                b <= nb,
                nb == pat.len() / 8,
                pat.len() % 8 == 0,
                pat == model.opcode.bits@,
                pat_len == pat.len(),
                masks@.len() == b,
                codes@.len() == b,
                forall|b2: int|
                    0 <= b2 < b ==> #[trigger] masks@[b2] as nat == spec_mask_byte(pat, b2),
                forall|b2: int|
                    0 <= b2 < b ==> #[trigger] codes@[b2] as nat == spec_code_byte(pat, b2),
            decreases nb - b,
        {
            let mut mv: u8 = 0;
            let mut cv: u8 = 0;
            let mut j: usize = 0;
            while j < 8
                invariant
                    j <= 8,
                    b < nb,
                    nb == pat.len() / 8,
                    pat.len() % 8 == 0,
                    pat == model.opcode.bits@,
                    pat_len == pat.len(),
                    mv as nat == bits_val(
                        Seq::new(j as nat, |t: int| mask_bit(pat[8 * b + t])),
                    ),
                    cv as nat == bits_val(
                        Seq::new(j as nat, |t: int| code_bit(pat[8 * b + t])),
                    ),
                decreases 8 - j,
            {
                let ghost mseq = Seq::new(j as nat, |t: int| mask_bit(pat[8 * b + t]));
                let ghost cseq = Seq::new(j as nat, |t: int| code_bit(pat[8 * b + t]));
                proof {
                    assert(all_bits(mseq));
                    assert(all_bits(cseq));
                    lemma_bits_val_bound(mseq);
                    lemma_bits_val_bound(cseq);
                    lemma_pow2_small(j as nat);
                    lemma_pow2_small((j + 1) as nat);
                    assert(Seq::new((j + 1) as nat, |t: int| mask_bit(pat[8 * b + t])).drop_last()
                        =~= mseq);
                    assert(Seq::new((j + 1) as nat, |t: int| code_bit(pat[8 * b + t])).drop_last()
                        =~= cseq);
                }
                let (mbit, cbit): (u8, u8) = match model.opcode.bits[8 * b + j] {
                    Bit::Var(_) => (0, 0),
                    Bit::One => (1, 1),
                    Bit::Zero => (1, 0),
                };
                mv = mv * 2 + mbit;
                cv = cv * 2 + cbit;
                j = j + 1;
            }
            masks.push(mv);
            codes.push(cv);
            proof {
                assert(Seq::new(8, |t: int| mask_bit(pat[8 * b + t])) =~= Seq::new(
                    8 as nat,
                    |t: int| mask_bit(pat[8 * b + t]),
                ));
                assert(Seq::new(8, |t: int| code_bit(pat[8 * b + t])) =~= Seq::new(
                    8 as nat,
                    |t: int| code_bit(pat[8 * b + t]),
                ));
            }
            b = b + 1;
        }
        let mut var_runs: Vec<Vec<MaskRun>> = Vec::new();
        let nv = model.vars.len();
        let mut j: usize = 0;
        while j < nv
            invariant
                j <= nv,
                nv == model.vars@.len(),
                wf_model(model),
                pat == model.opcode.bits@,
                var_runs@.len() == j,
                forall|j2: int|
                    0 <= j2 < j ==> runs_cover(
                        #[trigger] var_runs@[j2]@,
                        occ(pat, model.vars@[j2].symbol),
                    ),
            decreases nv - j,
        {
            let sym = model.vars[j].symbol;
            let positions = occurrences(&model.opcode, sym);
            proof {
                assert(1 <= occ(pat, sym).len() <= model.vars@[j as int].ty.spec_width());
                assert(pos_ints(positions@).len() == occ(pat, sym).len());
            }
            let runs = build_runs(&positions);
            var_runs.push(runs);
            j = j + 1;
        }
        CompiledInstr { model, masks, codes, var_runs }
    }

    /// The match predicate: the buffer is long enough and every constant
    /// byte agrees under the constant mask.
    pub fn matches(&self, mem: &[u8]) -> (r: bool)
        requires
            self.wf(),
        ensures
            r == spec_matches(self.model.opcode.bits@, mem@),
    {
        let ghost pat = self.model.opcode.bits@;
        let nb = self.masks.len();
        if mem.len() < nb {
            return false;
        }
        let mut b: usize = 0;
        while b < nb
            invariant
                b <= nb,
                self.wf(),
                pat == self.model.opcode.bits@,
                nb == pat.len() / 8,
                mem@.len() >= nb,
                forall|p: int| 0 <= p < 8 * b ==> bit_admits(#[trigger] pat[p], buf_bit(mem@, p)),
            decreases nb - b,
        {
            let x = mem[b];
            let matched = x & self.masks[b] == self.codes[b];
            proof {
                lemma_byte_match(x, pat, b as int, self.masks@[b as int], self.codes@[b as int]);
            }
            if !matched {
                proof {
                    let j = choose|j: int|
                        0 <= j < 8 && !bit_admits(pat[8 * (b as int) + j], byte_bit(x, j));
                    assert(buf_bit(mem@, 8 * (b as int) + j) == byte_bit(x, j)) by {
                        lemma_bit_index(b as int, j);
                    }
                    assert(!bit_admits(pat[8 * (b as int) + j], buf_bit(mem@, 8 * (b as int) + j)));
                }
                return false;
            }
            proof {
                assert forall|p: int| 0 <= p < 8 * (b + 1) implies bit_admits(
                    #[trigger] pat[p],
                    buf_bit(mem@, p),
                ) by {
                    if p >= 8 * b {
                        let j = p - 8 * (b as int);
                        lemma_bit_index(b as int, j);
                        assert(bit_admits(pat[8 * (b as int) + j], byte_bit(x, j)));
                    }
                }
            }
            b = b + 1;
        }
        true
    }

    /// Decodes one variable from a buffer: extracts each mask run and
    /// assembles the value by shift-and-or, so the earliest occurrence in
    /// the pattern becomes the value's most significant bit.
    fn decode_var(&self, j: usize, mem: &[u8]) -> (v: u128)
        requires
            self.wf(),
            j < self.model.vars@.len(),
            mem@.len() >= self.model.opcode.bits@.len() / 8,
        ensures
            v as nat == spec_field_val(
                self.model.opcode.bits@,
                mem@,
                self.model.vars@[j as int].symbol,
            ),
    {
        let ghost pat = self.model.opcode.bits@;
        let ghost sym = self.model.vars@[j as int].symbol;
        let ghost positions = occ(pat, sym);
        let ghost width_bound = self.model.vars@[j as int].ty.spec_width();
        proof {
            lemma_occ_props(pat, sym);
            assert(positions.len() <= width_bound);
            assert(width_bound <= 128) by {
                assert(usize::BITS <= 128);
            }
        }
        let runs = &self.var_runs[j];
        let nr = runs.len();
        let mut acc: u128 = 0;
        let mut i: usize = 0;
        proof {
            assert(runs_cover(runs@, positions));
            assert(bits_val(positions.subrange(0, 0).map_values(|p: int| buf_bit(mem@, p))) == 0)
                by {
                lemma_bits_val_zero(
                    positions.subrange(0, 0).map_values(|p: int| buf_bit(mem@, p)),
                );
            }
            lemma2_to64();
        }
        while i < nr
            invariant
                i <= nr,
                self.wf(),
                j < self.model.vars@.len(),
                pat == self.model.opcode.bits@,
                sym == self.model.vars@[j as int].symbol,
                positions == occ(pat, sym),
                positions.len() <= 128,
                mem@.len() >= pat.len() / 8,
                runs == self.var_runs@[j as int],
                nr == runs@.len(),
                0 <= runs_start(runs@, i as int) <= positions.len(),
                acc as nat == bits_val(
                    positions.subrange(0, runs_start(runs@, i as int)).map_values(
                        |p: int| buf_bit(mem@, p),
                    ),
                ),
                acc < pow2(runs_start(runs@, i as int) as nat),
            decreases nr - i,
        {
            let ghost ks = runs_start(runs@, i as int);
            let run = runs[i];
            proof {
                lemma_occ_props(pat, sym);
                assert(run_covers(run, positions, ks));
                assert(positions[ks + 0] == 8 * run.byte_idx + (8 - run.width as int
                    - run.shift as int) + 0);
                assert(0 <= positions[ks] < pat.len());
                assert(8 * run.byte_idx < 8 * (pat.len() / 8));
            }
            let x = mem[run.byte_idx];
            let chunk = (x & run.mask) >> run.shift;
            proof {
                lemma_chunk_extract(x, run.mask, run.shift, run.width);
                lemma_chunk_segment(mem@, positions, run, ks, chunk);
                let pre = positions.subrange(0, ks).map_values(|p: int| buf_bit(mem@, p));
                let seg = positions.subrange(ks, ks + run.width as int).map_values(
                    |p: int| buf_bit(mem@, p),
                );
                assert(positions.subrange(0, ks + run.width as int).map_values(
                    |p: int| buf_bit(mem@, p),
                ) =~= pre + seg);
                lemma_bits_val_concat(pre, seg);
                // no overflow: the result stays below pow2 of the new prefix
                lemma_pow2_adds(ks as nat, run.width as nat);
                lemma_pow2_pos(ks as nat);
                lemma_pow2_pos(run.width as nat);
                let pk = pow2(ks as nat);
                let pwg = pow2(run.width as nat);
                let pkw = pow2((ks + run.width as int) as nat);
                assert((acc as nat) * pwg + (chunk as nat) < pkw) by (nonlinear_arith)
                    requires
                        (acc as nat) < pk,
                        (chunk as nat) < pwg,
                        pkw == pk * pwg,
                ;
                lemma_pow2_le_128((ks + run.width as int) as nat);
                assert(runs_start(runs@, i + 1) == ks + run.width as int);
            }
            let pw = pow2_u128(run.width as usize);
            acc = acc * pw + chunk as u128;
            i = i + 1;
        }
        proof {
            assert(runs_start(runs@, nr as int) == positions.len());
            assert(positions.subrange(0, positions.len() as int) =~= positions);
        }
        acc
    }

    /// Decodes every variable of the instruction from a buffer, in field
    /// order.
    pub fn decode_fields(&self, mem: &[u8]) -> (fields: Vec<u128>)
        requires
            self.wf(),
            mem@.len() >= self.model.opcode.bits@.len() / 8,
        ensures
            fields@ == spec_decoded_fields(self.model, mem@),
    {
        let mut fields: Vec<u128> = Vec::new();
        let nv = self.var_runs.len();
        let mut j: usize = 0;
        while j < nv
            invariant
                j <= nv,
                self.wf(),
                mem@.len() >= self.model.opcode.bits@.len() / 8,
                nv == self.model.vars@.len(),
                fields@.len() == j,
                forall|j2: int|
                    0 <= j2 < j ==> #[trigger] fields@[j2] == spec_decoded_fields(
                        self.model,
                        mem@,
                    )[j2],
            decreases nv - j,
        {
            let v = self.decode_var(j, mem);
            fields.push(v);
            j = j + 1;
        }
        proof {
            assert(fields@ =~= spec_decoded_fields(self.model, mem@));
        }
        fields
    }

    /// Encodes the instruction's fields into the front of a buffer,
    /// all-or-nothing: a short buffer fails without writing anything; on
    /// success the constant template is written, every variable's mask runs
    /// are ored in, and the tail of the buffer is untouched.
    #[verifier::rlimit(60)]
    pub fn encode_fields(&self, fields: &Vec<u128>, buf: &mut Vec<u8>) -> (r: Result<
        usize,
        EncodeError,
    >)
        requires
            self.wf(),
            fields@.len() == self.model.vars@.len(),
        ensures
            match r {
                Ok(n) => {
                    &&& n == self.model.opcode.bits@.len() / 8
                    &&& old(buf)@.len() >= n
                    &&& final(buf)@.len() == old(buf)@.len()
                    &&& forall|b: int|
                        0 <= b < n ==> final(buf)@[b] == enc_byte(
                            self.model.opcode.bits@,
                            self.model.vars@,
                            fields@,
                            b,
                        )
                    &&& forall|b: int|
                        n <= b < old(buf)@.len() ==> final(buf)@[b] == old(buf)@[b]
                },
                Err(e) => {
                    &&& e == EncodeError::UnexpectedEOF
                    &&& old(buf)@.len() < self.model.opcode.bits@.len() / 8
                    &&& final(buf)@ == old(buf)@
                },
            },
    {
        let ghost pat = self.model.opcode.bits@;
        let ghost vars = self.model.vars@;
        let nb = self.codes.len();
        if buf.len() < nb {
            return Err(EncodeError::UnexpectedEOF);
        }
        let mut b: usize = 0;
        while b < nb
            invariant
                b <= nb,
                self.wf(),
                pat == self.model.opcode.bits@,
                nb == pat.len() / 8,
                buf@.len() == old(buf)@.len(),
                buf@.len() >= nb,
                forall|b2: int|
                    0 <= b2 < b ==> #[trigger] buf@[b2] as nat == spec_code_byte(pat, b2),
                forall|b2: int| b <= b2 < buf@.len() ==> #[trigger] buf@[b2] == old(buf)@[b2],
            decreases nb - b,
        {
            let c = self.codes[b];
            buf[b] = c;
            b = b + 1;
        }
        proof {
            assert forall|p: int| 0 <= p < pat.len() implies buf_bit(buf@, p) == partial_bit(
                pat,
                vars,
                fields@,
                0,
                0,
                p,
            ) by {
                let b2 = p / 8;
                let j2 = p % 8;
                vstd::arithmetic::div_mod::lemma_fundamental_div_mod(p, 8);
                assert(8 * b2 < pat.len());
                lemma_template_partial(pat, vars, fields@, buf@[b2], b2, j2);
            }
        }
        let nv = self.var_runs.len();
        let mut j: usize = 0;
        while j < nv
            invariant
                j <= nv,
                self.wf(),
                fields@.len() == nv,
                pat == self.model.opcode.bits@,
                vars == self.model.vars@,
                nv == vars.len(),
                nb == pat.len() / 8,
                buf@.len() == old(buf)@.len(),
                buf@.len() >= nb,
                forall|b2: int| nb <= b2 < buf@.len() ==> #[trigger] buf@[b2] == old(buf)@[b2],
                forall|p: int|
                    0 <= p < pat.len() ==> buf_bit(buf@, p) == partial_bit(
                        pat,
                        vars,
                        fields@,
                        j as int,
                        0,
                        p,
                    ),
            decreases nv - j,
        {
            let ghost sym = vars[j as int].symbol;
            let ghost positions = occ(pat, sym);
            let nr = self.var_runs[j].len();
            let v = fields[j];
            let mut i: usize = 0;
            while i < nr
                invariant
                    i <= nr,
                    self.wf(),
                    j < nv,
                    fields@.len() == nv,
                    pat == self.model.opcode.bits@,
                    vars == self.model.vars@,
                    nv == vars.len(),
                    nb == pat.len() / 8,
                    sym == vars[j as int].symbol,
                    positions == occ(pat, sym),
                    nr == self.var_runs@[j as int]@.len(),
                    v == fields@[j as int],
                    buf@.len() == old(buf)@.len(),
                    buf@.len() >= nb,
                    forall|b2: int| nb <= b2 < buf@.len() ==> #[trigger] buf@[b2] == old(buf)@[b2],
                    forall|p: int|
                        0 <= p < pat.len() ==> buf_bit(buf@, p) == partial_bit(
                            pat,
                            vars,
                            fields@,
                            j as int,
                            runs_start(self.var_runs@[j as int]@, i as int),
                            p,
                        ),
                decreases nr - i,
            {
                let ghost runsg = self.var_runs@[j as int]@;
                let ghost ks = runs_start(runsg, i as int);
                let run = self.var_runs[j][i];
                proof {
                    lemma_occ_props(pat, sym);
                    assert(run_covers(run, positions, ks));
                    assert(positions[ks + 0] == 8 * run.byte_idx + (8 - run.width as int
                        - run.shift as int) + 0);
                    assert(0 <= positions[ks] < pat.len());
                    assert(8 * run.byte_idx < 8 * nb);
                    assert(8 * run.byte_idx + 8 <= pat.len());
                }
                let xold = buf[run.byte_idx];
                proof {
                    lemma_window_clear(self.model, fields@, j as int, run, ks, buf@, xold);
                }
                let lowm = run.mask >> run.shift;
                proof {
                    lemma_pow2_pos(run.shift as nat);
                    lemma_u8_shr_is_div(run.mask, run.shift);
                    let lowv = low_bits_mask(run.width as nat) as int;
                    let psh = pow2(run.shift as nat) as int;
                    assert(run.mask as int == lowv * psh + 0);
                    lemma_fundamental_div_mod_converse_div(run.mask as int, psh, lowv, 0);
                    assert(lowm as nat == low_bits_mask(run.width as nat));
                    assert(positions.len() <= vars[j as int].ty.spec_width());
                    assert(usize::BITS <= 128);
                    assert(run.val_shift < 128);
                    lemma_u128_shr_is_div(v, run.val_shift as u128);
                }
                let shifted = v >> (run.val_shift as u128);
                let m8 = (shifted % 256) as u8;
                let chunk = m8 & lowm;
                proof {
                    assert(shifted as nat == (v as nat) / pow2(run.val_shift as nat));
                    assert(m8 as nat == (shifted as nat) % 256);
                    crate::bitmath::lemma_and_low_mask(m8, run.width);
                    assert(chunk as nat == (m8 as nat) % pow2(run.width as nat));
                    lemma2_to64();
                    let pw = pow2(run.width as nat) as int;
                    let sh_int = shifted as int;
                    assert(chunk as int == (sh_int % 256) % pw);
                    if run.width < 8 {
                        let pr = pow2((8 - run.width as int) as nat) as int;
                        lemma_pow2_adds(run.width as nat, (8 - run.width as int) as nat);
                        lemma_mod_mod(sh_int, pw, pr);
                        assert(pw * pr == 256);
                        assert((sh_int % (pw * pr)) % pw == sh_int % pw);
                        assert(sh_int % 256 == sh_int % (pw * pr));
                        assert((sh_int % 256) % pw == sh_int % pw);
                    } else {
                        assert(pw == 256);
                        assert((sh_int % 256) % pw == sh_int % pw) by {
                            vstd::arithmetic::div_mod::lemma_mod_twice(sh_int, 256);
                        }
                    }
                    assert(chunk as int == sh_int % pw);
                    assert(chunk as nat == ((v as nat) / pow2(run.val_shift as nat)) % pow2(
                        run.width as nat,
                    ));
                    lemma_or_insert(xold, chunk, run.shift, run.width);
                }
                let xnew = xold | (chunk << run.shift);
                let ghost buf_snap = buf@;
                buf[run.byte_idx] = xnew;
                proof {
                    assert(buf@ == buf_snap.update(run.byte_idx as int, xnew));
                    assert forall|s: u8| s < 8 implies nth_bit(xnew as nat, s as nat) == (
                    if run.shift <= s < run.shift + run.width {
                        nth_bit(chunk as nat, (s - run.shift) as nat)
                    } else {
                        nth_bit(xold as nat, s as nat)
                    }) by {
                        lemma_or_insert_bits(xold, xnew, chunk, run.shift, run.width, s);
                    }
                    lemma_run_update(
                        self.model,
                        fields@,
                        j as int,
                        run,
                        ks,
                        buf_snap,
                        buf@,
                        xold,
                        xnew,
                        chunk,
                    );
                    assert(runs_start(runsg, i + 1) == ks + run.width);
                }
                i = i + 1;
            }
            proof {
                assert(runs_cover(self.var_runs@[j as int]@, positions));
                assert(runs_start(self.var_runs@[j as int]@, nr as int) == positions.len());
                assert forall|p: int| 0 <= p < pat.len() implies buf_bit(buf@, p) == partial_bit(
                    pat,
                    vars,
                    fields@,
                    j + 1,
                    0,
                    p,
                ) by {
                    lemma_partial_next_var(self.model, fields@, j as int, p);
                }
            }
            j = j + 1;
        }
        proof {
            assert forall|b2: int| 0 <= b2 < nb implies buf@[b2] == enc_byte(
                pat,
                vars,
                fields@,
                b2,
            ) by {
                assert forall|p: int| 0 <= p < pat.len() implies buf_bit(buf@, p) == enc_bit(
                    pat,
                    vars,
                    fields@,
                    p,
                ) by {
                    lemma_partial_final(self.model, fields@, p);
                }
                lemma_bits_to_enc_byte(self.model, fields@, buf@, b2);
            }
        }
        Ok(nb)
    }
}

/// Each bit of an encoded byte is the encoding's bit for that position.
pub proof fn lemma_enc_byte_bit(
    pat: Seq<Bit>,
    vars: Seq<VariableSpec>,
    fields: Seq<u128>,
    b: int,
    j: int,
)
    requires
        pat.len() % 8 == 0,
        0 <= b < pat.len() / 8,
        0 <= j < 8,
    ensures
        byte_bit(enc_byte(pat, vars, fields, b), j) == enc_bit(pat, vars, fields, 8 * b + j),
{
    let eseq = Seq::new(8, |t: int| enc_bit(pat, vars, fields, 8 * b + t));
    assert(all_bits(eseq)) by {
        assert forall|t: int| 0 <= t < eseq.len() implies eseq[t] <= 1 by {
            match pat[8 * b + t] {
                Bit::Var(c) => {
                    assert(nth_bit(fields[find_var(vars, c)] as nat, (occ(pat, c).len() - 1
                        - occ_index(occ(pat, c), 8 * b + t)) as nat) <= 1);
                },
                _ => {},
            }
        }
    }
    lemma_bits_val_bound(eseq);
    lemma_pow2_small(8);
    lemma_bits_val_bit(eseq, (7 - j) as nat);
}

/// A buffer whose bits all carry the encoding has the encoded byte values.
proof fn lemma_bits_to_enc_byte(m: InstructionModel, fields: Seq<u128>, buf: Seq<u8>, b: int)
    requires
        m.opcode.bits@.len() % 8 == 0,
        0 <= b < m.opcode.bits@.len() / 8,
        buf.len() >= m.opcode.bits@.len() / 8,
        forall|p: int|
            0 <= p < m.opcode.bits@.len() ==> buf_bit(buf, p) == enc_bit(
                m.opcode.bits@,
                m.vars@,
                fields,
                p,
            ),
    ensures
        buf[b] == enc_byte(m.opcode.bits@, m.vars@, fields, b),
{
    let pat = m.opcode.bits@;
    let vars = m.vars@;
    let x = buf[b];
    let eseq = Seq::new(8, |j: int| enc_bit(pat, vars, fields, 8 * b + j));
    assert(all_bits(eseq)) by {
        assert forall|j: int| 0 <= j < eseq.len() implies eseq[j] <= 1 by {
            match pat[8 * b + j] {
                Bit::Var(c) => {
                    assert(nth_bit(fields[find_var(vars, c)] as nat, (occ(pat, c).len() - 1
                        - occ_index(occ(pat, c), 8 * b + j)) as nat) <= 1);
                },
                _ => {},
            }
        }
    }
    lemma_val_of_bit_seq(x as nat, 8);
    lemma_small_mod(x as nat, 256);
    lemma2_to64();
    assert(bit_seq(x as nat, 8) =~= eseq) by {
        assert forall|j: int| 0 <= j < 8 implies bit_seq(x as nat, 8)[j] == eseq[j] by {
            lemma_bit_index(b, j);
            assert(buf_bit(buf, 8 * b + j) == byte_bit(x, j));
            assert(8 * b + j < pat.len());
        }
    }
    lemma_bits_val_bound(eseq);
    lemma_pow2_small(8);
}

/// The bit standing at pattern position `p` midway through encoding:
/// constants and the variables before `jv` are fully written, variable `jv`
/// up to its first `k` occurrences, and every later variable bit still
/// holds the template's zero.
#[verifier::opaque]
pub open spec fn partial_bit(
    pat: Seq<Bit>,
    vars: Seq<VariableSpec>,
    fields: Seq<u128>,
    jv: int,
    k: int,
    p: int,
) -> u8 {
    match pat[p] {
        Bit::Zero => 0,
        Bit::One => 1,
        Bit::Var(c) => {
            let j = find_var(vars, c);
            if j < 0 {
                0
            } else {
                let positions = occ(pat, c);
                let i = occ_index(positions, p);
                if j < jv || (j == jv && i < k) {
                    nth_bit(fields[j] as nat, (positions.len() - 1 - i) as nat)
                } else {
                    0
                }
            }
        },
    }
}

/// The symbol of variable `jv` resolves back to index `jv`.
pub proof fn lemma_var_self(m: InstructionModel, jv: int)
    requires
        wf_model(m),
        0 <= jv < m.vars@.len(),
    ensures
        find_var(m.vars@, m.vars@[jv].symbol) == jv,
{
    let c = m.vars@[jv].symbol;
    lemma_find_var(m.vars@, c);
    let j = find_var(m.vars@, c);
    assert(m.vars@[jv].symbol == c);
    assert(j >= 0 && m.vars@[j].symbol == c);
    if j < jv {
        assert(m.vars@[j].symbol != m.vars@[jv].symbol);
    }
    if j > jv {
        assert(m.vars@[jv].symbol != m.vars@[j].symbol);
    }
}

/// For a pattern position holding a bound symbol, its occurrence index is
/// within the symbol's position list.
proof fn lemma_occ_index_valid(pat: Seq<Bit>, c: char, p: int)
    requires
        0 <= p < pat.len(),
        pat[p] == Bit::Var(c),
    ensures
        0 <= occ_index(occ(pat, c), p) < occ(pat, c).len(),
        occ(pat, c)[occ_index(occ(pat, c), p)] == p,
{
    lemma_occ_props(pat, c);
    let positions = occ(pat, c);
    assert(positions.contains(p));
    let i = choose|i: int| 0 <= i < positions.len() && positions[i] == p;
    lemma_occ_index_sorted(positions, i);
}

/// The template byte's bits are the partial encoding before any variable is
/// written.
proof fn lemma_template_partial(
    pat: Seq<Bit>,
    vars: Seq<VariableSpec>,
    fields: Seq<u128>,
    x: u8,
    b: int,
    j: int,
)
    requires
        pat.len() % 8 == 0,
        0 <= b < pat.len() / 8,
        0 <= j < 8,
        x as nat == spec_code_byte(pat, b),
    ensures
        byte_bit(x, j) == partial_bit(pat, vars, fields, 0, 0, 8 * b + j),
{
    reveal(partial_bit);
    let cseq = Seq::new(8, |t: int| code_bit(pat[8 * b + t]));
    assert(all_bits(cseq));
    lemma_bits_val_bit(cseq, (7 - j) as nat);
    match pat[8 * b + j] {
        Bit::Var(c) => {
            crate::model::lemma_occ_index_nonneg(occ(pat, c), 8 * b + j);
        },
        _ => {},
    }
}

/// Finishing one variable's runs is the same partial encoding as standing
/// at the start of the next variable.
proof fn lemma_partial_next_var(m: InstructionModel, fields: Seq<u128>, jv: int, p: int)
    requires
        wf_model(m),
        0 <= jv < m.vars@.len(),
        0 <= p < m.opcode.bits@.len(),
    ensures
        partial_bit(
            m.opcode.bits@,
            m.vars@,
            fields,
            jv,
            occ(m.opcode.bits@, m.vars@[jv].symbol).len() as int,
            p,
        ) == partial_bit(m.opcode.bits@, m.vars@, fields, jv + 1, 0, p),
{
    reveal(partial_bit);
    let pat = m.opcode.bits@;
    let vars = m.vars@;
    match pat[p] {
        Bit::Var(c) => {
            let j = find_var(vars, c);
            crate::model::lemma_occ_index_nonneg(occ(pat, c), p);
            if j >= 0 {
                lemma_find_var(vars, c);
                if j == jv {
                    assert(m.vars@[j].symbol == c);
                    lemma_occ_index_valid(pat, c, p);
                }
            }
        },
        _ => {},
    }
}

/// After the last variable, the partial encoding is the full encoding.
proof fn lemma_partial_final(m: InstructionModel, fields: Seq<u128>, p: int)
    requires
        wf_model(m),
        0 <= p < m.opcode.bits@.len(),
    ensures
        partial_bit(m.opcode.bits@, m.vars@, fields, m.vars@.len() as int, 0, p) == enc_bit(
            m.opcode.bits@,
            m.vars@,
            fields,
            p,
        ),
{
    reveal(partial_bit);
    let vars = m.vars@;
    match m.opcode.bits@[p] {
        Bit::Var(c) => {
            lemma_find_var(vars, c);
        },
        _ => {},
    }
}

/// The window a run is about to write is still clear: its buffer bits hold
/// the template's zeros.
proof fn lemma_window_clear(
    m: InstructionModel,
    fields: Seq<u128>,
    jv: int,
    run: MaskRun,
    ks: int,
    buf: Seq<u8>,
    x: u8,
)
    requires
        wf_model(m),
        0 <= jv < m.vars@.len(),
        run_covers(run, occ(m.opcode.bits@, m.vars@[jv].symbol), ks),
        0 <= run.byte_idx < buf.len(),
        x == buf[run.byte_idx as int],
        8 * run.byte_idx + 8 <= m.opcode.bits@.len(),
        forall|p: int|
            0 <= p < m.opcode.bits@.len() ==> buf_bit(buf, p) == partial_bit(
                m.opcode.bits@,
                m.vars@,
                fields,
                jv,
                ks,
                p,
            ),
    ensures
        (x as nat / pow2(run.shift as nat)) % pow2(run.width as nat) == 0,
{
    reveal(partial_bit);
    let pat = m.opcode.bits@;
    let sym = m.vars@[jv].symbol;
    let positions = occ(pat, sym);
    let w = run.width as int;
    let o = 8 - w - run.shift as int;
    let sh = run.shift as nat;
    lemma_occ_props(pat, sym);
    lemma_var_self(m, jv);
    lemma_pow2_pos(sh);
    lemma_pow2_pos(run.width as nat);
    let m0 = (x as nat / pow2(sh)) % pow2(run.width as nat);
    vstd::arithmetic::div_mod::lemma_mod_division_less_than_divisor(
        (x as nat / pow2(sh)) as int,
        pow2(run.width as nat) as int,
    );
    lemma_val_of_bit_seq(m0, run.width as nat);
    lemma_small_mod(m0, pow2(run.width as nat));
    assert(bit_seq(m0, run.width as nat) =~= Seq::new(run.width as nat, |t: int| 0u8)) by {
        assert forall|t: int| 0 <= t < w implies bit_seq(m0, run.width as nat)[t] == 0u8 by {
            let i = (w - 1 - t) as nat;
            lemma_nth_bit_mod(x as nat / pow2(sh), run.width as nat, i);
            lemma_nth_bit_div(x as nat, sh, i);
            // nth_bit(m0, i) is the buffer bit at the run's position ks + t
            let p = positions[ks + t];
            assert(p == 8 * run.byte_idx + o + t);
            lemma_bit_index(run.byte_idx as int, o + t);
            assert(buf_bit(buf, p) == byte_bit(x, o + t));
            assert(7 - (o + t) == sh + i);
            lemma_occ_index_sorted(positions, ks + t);
            assert(partial_bit(pat, m.vars@, fields, jv, ks, p) == 0);
        }
    }
    lemma_bits_val_zero(Seq::new(run.width as nat, |t: int| 0u8));
}

/// Writing one run's chunk advances the partial encoding by the run's
/// occurrences and leaves every other bit standing.
proof fn lemma_run_update(
    m: InstructionModel,
    fields: Seq<u128>,
    jv: int,
    run: MaskRun,
    ks: int,
    old_buf: Seq<u8>,
    new_buf: Seq<u8>,
    xold: u8,
    xnew: u8,
    chunk: u8,
)
    requires
        wf_model(m),
        0 <= jv < m.vars@.len(),
        fields.len() == m.vars@.len(),
        run_covers(run, occ(m.opcode.bits@, m.vars@[jv].symbol), ks),
        0 <= run.byte_idx < old_buf.len(),
        old_buf.len() >= m.opcode.bits@.len() / 8,
        8 * run.byte_idx + 8 <= m.opcode.bits@.len(),
        xold == old_buf[run.byte_idx as int],
        new_buf == old_buf.update(run.byte_idx as int, xnew),
        chunk as nat == ((fields[jv] as nat) / pow2(run.val_shift as nat)) % pow2(
            run.width as nat,
        ),
        forall|s: u8|
            s < 8 ==> nth_bit(xnew as nat, s as nat) == if run.shift <= s < run.shift + run.width {
                nth_bit(chunk as nat, (s - run.shift) as nat)
            } else {
                nth_bit(xold as nat, s as nat)
            },
        forall|p: int|
            0 <= p < m.opcode.bits@.len() ==> buf_bit(old_buf, p) == partial_bit(
                m.opcode.bits@,
                m.vars@,
                fields,
                jv,
                ks,
                p,
            ),
    ensures
        forall|p: int|
            0 <= p < m.opcode.bits@.len() ==> buf_bit(new_buf, p) == partial_bit(
                m.opcode.bits@,
                m.vars@,
                fields,
                jv,
                ks + run.width,
                p,
            ),
{
    reveal(partial_bit);
    let pat = m.opcode.bits@;
    let vars = m.vars@;
    let sym = vars[jv].symbol;
    let positions = occ(pat, sym);
    let w = run.width as int;
    let o = 8 - w - run.shift as int;
    let n = positions.len() as int;
    lemma_occ_props(pat, sym);
    lemma_var_self(m, jv);
    assert forall|p: int| 0 <= p < pat.len() implies buf_bit(new_buf, p) == partial_bit(
        pat,
        vars,
        fields,
        jv,
        ks + w,
        p,
    ) by {
        let b = p / 8;
        let j = p % 8;
        vstd::arithmetic::div_mod::lemma_fundamental_div_mod(p, 8);
        assert(p == 8 * b + j);
        assert(8 * b < pat.len());
        assert(b < pat.len() / 8);
        // whether p's occurrence index moved across the cutoff
        if b != run.byte_idx as int {
            assert(new_buf[b] == old_buf[b]);
            assert(buf_bit(new_buf, p) == buf_bit(old_buf, p));
            assert forall|t: int|
                0 <= t < run.width implies p != #[trigger] occ(pat, sym)[ks + t] by {
                assert(positions[ks + t] == 8 * run.byte_idx + o + t);
                lemma_bit_index(run.byte_idx as int, o + t);
            }
            lemma_partial_stable(m, fields, jv, run, ks, p);
        } else {
            let s = (7 - j) as u8;
            assert(byte_bit(xnew, j) == nth_bit(xnew as nat, s as nat));
            if run.shift <= s < run.shift + run.width {
                // inside the window: this is the run's occurrence ks + t
                let t = j - o;
                assert(0 <= t < w);
                assert(j == o + t);
                assert(positions[ks + t] == 8 * run.byte_idx + o + t);
                assert(p == positions[ks + t]);
                assert(pat[p] == Bit::Var(sym));
                lemma_occ_index_sorted(positions, ks + t);
                assert(occ_index(positions, p) == ks + t);
                // the chunk bit is the field bit
                let i = (s - run.shift) as nat;
                lemma_nth_bit_mod((fields[jv] as nat) / pow2(run.val_shift as nat),
                    run.width as nat, i);
                lemma_nth_bit_div(fields[jv] as nat, run.val_shift as nat, i);
                assert(nth_bit(chunk as nat, i) == nth_bit(
                    fields[jv] as nat,
                    (run.val_shift as nat + i) as nat,
                ));
                assert(run.val_shift as int + i as int == n - 1 - (ks + t));
            } else {
                assert(nth_bit(xnew as nat, s as nat) == nth_bit(xold as nat, s as nat));
                assert(buf_bit(new_buf, p) == buf_bit(old_buf, p));
                assert forall|t: int|
                    0 <= t < run.width implies p != #[trigger] occ(pat, sym)[ks + t] by {
                    assert(positions[ks + t] == 8 * run.byte_idx + o + t);
                    lemma_bit_index(run.byte_idx as int, o + t);
                }
                lemma_partial_stable(m, fields, jv, run, ks, p);
            }
        }
    }
}

/// A pattern position outside a run's window keeps its partial bit when the
/// cutoff advances past the run.
proof fn lemma_partial_stable(
    m: InstructionModel,
    fields: Seq<u128>,
    jv: int,
    run: MaskRun,
    ks: int,
    p: int,
)
    requires
        wf_model(m),
        0 <= jv < m.vars@.len(),
        run_covers(run, occ(m.opcode.bits@, m.vars@[jv].symbol), ks),
        0 <= p < m.opcode.bits@.len(),
        forall|t: int|
            0 <= t < run.width ==> p != #[trigger] occ(m.opcode.bits@, m.vars@[jv].symbol)[ks + t],
    ensures
        partial_bit(m.opcode.bits@, m.vars@, fields, jv, ks + run.width, p) == partial_bit(
            m.opcode.bits@,
            m.vars@,
            fields,
            jv,
            ks,
            p,
        ),
{
    reveal(partial_bit);
    let pat = m.opcode.bits@;
    let vars = m.vars@;
    match pat[p] {
        Bit::Var(c) => {
            let j = find_var(vars, c);
            if j == jv {
                lemma_find_var(vars, c);
                assert(vars[jv].symbol == c);
                lemma_occ_index_valid(pat, c, p);
                let i = occ_index(occ(pat, c), p);
                if ks <= i < ks + run.width {
                    assert(p == occ(pat, c)[ks + (i - ks)]);
                }
            }
        },
        _ => {},
    }
}

/// Powers of two up to the 128-bit range.
proof fn lemma_pow2_le_128(n: nat)
    requires
        n <= 128,
    ensures
        pow2(n) <= 0x100000000000000000000000000000000,
{
    crate::bitmath::lemma_pow2_127();
    vstd::arithmetic::power2::lemma_pow2_unfold(128);
    if n < 128 {
        vstd::arithmetic::power2::lemma_pow2_strictly_increases(n, 128);
    }
}

/// Bit position `8 * b + j` lies in byte `b` at offset `j`.
proof fn lemma_bit_index(b: int, j: int)
    requires
        0 <= j < 8,
        0 <= b,
    ensures
        (8 * b + j) / 8 == b,
        (8 * b + j) % 8 == j,
{
    lemma_fundamental_div_mod_converse_div(8 * b + j, 8, b, j);
    vstd::arithmetic::div_mod::lemma_fundamental_div_mod_converse_mod(8 * b + j, 8, b, j);
}

/// The chunk a mask run extracts from its byte is the value of the buffer
/// bits at the run's positions, most significant first.
proof fn lemma_chunk_segment(buf: Seq<u8>, positions: Seq<int>, r: MaskRun, k: int, chunk: u8)
    requires
        run_covers(r, positions, k),
        0 <= r.byte_idx < buf.len(),
        chunk as nat == (buf[r.byte_idx as int] as nat / pow2(r.shift as nat)) % pow2(
            r.width as nat,
        ),
        chunk < pow2(r.width as nat),
    ensures
        chunk as nat == bits_val(
            positions.subrange(k, k + r.width).map_values(|p: int| buf_bit(buf, p)),
        ),
{
    let w = r.width as int;
    let sh = r.shift as nat;
    let o = 8 - w - r.shift as int;
    let x = buf[r.byte_idx as int];
    let seg = positions.subrange(k, k + w).map_values(|p: int| buf_bit(buf, p));
    lemma_val_of_bit_seq(chunk as nat, r.width as nat);
    lemma_small_mod(chunk as nat, pow2(r.width as nat));
    assert(bit_seq(chunk as nat, r.width as nat) =~= seg) by {
        assert forall|t: int| 0 <= t < w implies bit_seq(chunk as nat, r.width as nat)[t] == seg[t]
            by {
            let i = (w - 1 - t) as nat;
            lemma_nth_bit_mod(x as nat / pow2(sh), r.width as nat, i);
            lemma_nth_bit_div(x as nat, sh, i);
            assert(nth_bit(chunk as nat, i) == nth_bit(x as nat, (sh + i) as nat));
            let p = positions[k + t];
            assert(p == 8 * r.byte_idx + o + t);
            lemma_bit_index(r.byte_idx as int, o + t);
            assert(seg[t] == byte_bit(x, o + t));
            assert(7 - (o + t) == sh + i);
        }
    }
}

/// A byte agrees with its constant mask and code exactly when every one of
/// its pattern bits admits the byte's bits.
proof fn lemma_byte_match(x: u8, pat: Seq<Bit>, b: int, maskv: u8, codev: u8)
    requires
        pat.len() % 8 == 0,
        0 <= b < pat.len() / 8,
        maskv as nat == spec_mask_byte(pat, b),
        codev as nat == spec_code_byte(pat, b),
    ensures
        (x & maskv == codev) <==> (forall|j: int|
            0 <= j < 8 ==> bit_admits(#[trigger] pat[8 * b + j], byte_bit(x, j))),
{
    let mseq = Seq::new(8, |j: int| mask_bit(pat[8 * b + j]));
    let cseq = Seq::new(8, |j: int| code_bit(pat[8 * b + j]));
    assert(all_bits(mseq));
    assert(all_bits(cseq));
    assert forall|s: u8| s < 8 implies nth_bit(maskv as nat, s as nat) == mseq[7 - s] && nth_bit(
        codev as nat,
        s as nat,
    ) == cseq[7 - s] by {
        lemma_bits_val_bit(mseq, s as nat);
        lemma_bits_val_bit(cseq, s as nat);
    }
    if x & maskv == codev {
        assert forall|j: int| 0 <= j < 8 implies bit_admits(
            #[trigger] pat[8 * b + j],
            byte_bit(x, j),
        ) by {
            let s = (7 - j) as u8;
            lemma_and_bit(x, maskv, s);
            assert(nth_bit((x & maskv) as nat, s as nat) == nth_bit(codev as nat, s as nat));
        }
    }
    if forall|j: int| 0 <= j < 8 ==> bit_admits(#[trigger] pat[8 * b + j], byte_bit(x, j)) {
        assert forall|s: nat| s < 8 implies nth_bit((x & maskv) as nat, s) == nth_bit(
            codev as nat,
            s,
        ) by {
            lemma_and_bit(x, maskv, s as u8);
            let j = 7 - s as int;
            assert(bit_admits(pat[8 * b + j], byte_bit(x, j)));
        }
        lemma_byte_eq_bits(x & maskv, codev);
    }
}

} // verus!
