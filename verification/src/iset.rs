//! The compiled instruction set and its two run-time entry points.
//!
//! `InstructionSet::compile` turns a list of instruction descriptors into
//! an immutable compiled set, validating everything up front: it succeeds
//! exactly when every descriptor is well formed and no two patterns
//! collide, and otherwise reports every independently detectable error.
//! The compiled set offers the two pure functions of the codec: `decode`,
//! which recognizes a byte buffer through the decision tree, and `encode`,
//! which serializes an instruction value into a caller-supplied buffer.  A
//! naive linear-scan decoder with the identical contract is kept alongside
//! as the reference the decision tree is measured against.

use vstd::prelude::*;
use crate::binder::{bind_instruction, desc_valid, model_matches_desc};
use crate::codec::CompiledInstr;
use crate::collision::find_collision;
use crate::matcher::{build_node, instrs_wf, node_cands, node_wf, pats_of, walk, TreeNode};
use crate::model::{
    collides, enc_byte, err_instr, spec_decoded_fields, spec_matches, wf_model, wf_models,
    DecodeError, EncodeError, InstrDescriptor, InstrValue, InstructionModel, SpecError,
};
use crate::posmap::pos_ints;

verus! {

/// A whole specification is acceptable: every descriptor is valid and no
/// two patterns collide.
pub open spec fn descs_valid(ds: Seq<InstrDescriptor>) -> bool {
    &&& forall|i: int| 0 <= i < ds.len() ==> desc_valid(#[trigger] ds[i])
    &&& forall|i: int, j: int|
        0 <= i < j < ds.len() ==> !collides(
            crate::binder::parsed_pat(#[trigger] ds[i]),
            crate::binder::parsed_pat(#[trigger] ds[j]),
        )
}

/// What a decoder returns for a buffer, whichever strategy it uses: on
/// success the matched instruction's index, its exact byte length, and its
/// decoded fields; on failure the promise that nothing in the set matches.
pub open spec fn decode_post(
    models: Seq<InstructionModel>,
    buf: Seq<u8>,
    r: Result<(usize, InstrValue), DecodeError>,
) -> bool {
    match r {
        Ok((n, v)) => {
            &&& v.instr < models.len()
            &&& spec_matches(models[v.instr as int].opcode.bits@, buf)
            &&& n == models[v.instr as int].opcode.bits@.len() / 8
            &&& v.fields@ == spec_decoded_fields(models[v.instr as int], buf)
        },
        Err(_) => forall|i: int|
            0 <= i < models.len() ==> !spec_matches(#[trigger] models[i].opcode.bits@, buf),
    }
}

/// What encoding an instruction value into a buffer does: on success,
/// exactly the instruction's fixed byte length is written at the front and
/// the rest of the buffer is untouched; on a short buffer, nothing at all
/// is written.
pub open spec fn encode_post(
    models: Seq<InstructionModel>,
    v: InstrValue,
    old_buf: Seq<u8>,
    new_buf: Seq<u8>,
    r: Result<usize, EncodeError>,
) -> bool {
    let m = models[v.instr as int];
    let nb = m.opcode.bits@.len() / 8;
    match r {
        Ok(n) => {
            &&& n == nb
            &&& old_buf.len() >= nb
            &&& new_buf.len() == old_buf.len()
            &&& forall|b: int| 0 <= b < nb ==> new_buf[b] == enc_byte(m.opcode.bits@, m.vars@, v.fields@, b)
            &&& forall|b: int| nb <= b < old_buf.len() ==> new_buf[b] == old_buf[b]
        },
        Err(e) => {
            &&& e == EncodeError::UnexpectedEOF
            &&& old_buf.len() < nb
            &&& new_buf == old_buf
        },
    }
}

/// What a failed compilation reports when every descriptor alone is
/// valid: exactly one error, naming the earliest colliding pair.
#[verifier::opaque]
pub open spec fn collision_report(descs: Seq<InstrDescriptor>, es: Seq<SpecError>) -> bool {
    (forall|i: int| 0 <= i < descs.len() ==> desc_valid(#[trigger] descs[i])) ==> {
        &&& es.len() == 1
        &&& match es[0] {
            SpecError::Collision { first, second } => {
                &&& first < second < descs.len()
                &&& collides(
                    crate::binder::parsed_pat(descs[first as int]),
                    crate::binder::parsed_pat(descs[second as int]),
                )
                &&& forall|i2: int, j2: int|
                    0 <= i2 < j2 < second ==> !collides(
                        crate::binder::parsed_pat(#[trigger] descs[i2]),
                        crate::binder::parsed_pat(#[trigger] descs[j2]),
                    )
                &&& forall|i2: int|
                    0 <= i2 < first ==> !collides(
                        crate::binder::parsed_pat(#[trigger] descs[i2]),
                        crate::binder::parsed_pat(descs[second as int]),
                    )
            },
            _ => false,
        }
    }
}

/// A compiled instruction set: the per-instruction codecs and the decision
/// tree over them.
pub struct InstructionSet {
    pub instrs: Vec<CompiledInstr>,
    pub nodes: Vec<TreeNode>,
    pub root: usize,
}

impl InstructionSet {
    /// The models of the set, in specification order.
    pub open spec fn models(&self) -> Seq<InstructionModel> {
        self.instrs@.map_values(|ci: CompiledInstr| ci.model)
    }

    /// The compiled set is sound: every codec is faithful, no two
    /// instructions collide, and the decision tree starts from all of them.
    pub open spec fn wf(&self) -> bool {
        &&& instrs_wf(self.instrs@)
        &&& self.instrs@.len() >= 1
        &&& node_wf(self.nodes@, pats_of(self.instrs@), self.root as int)
        &&& forall|c: int|
            0 <= c < self.instrs@.len() ==> node_cands(self.nodes@[self.root as int]).contains(c)
    }

    /// The number of instructions in the set.
    pub fn len(&self) -> (n: usize)
        ensures
            n == self.models().len(),
    {
        self.instrs.len()
    }

    /// Compiles a specification.  Succeeds exactly when every descriptor is
    /// valid and no two instructions collide; otherwise the accumulated
    /// errors are returned and no instruction set is built.  When all
    /// descriptors are valid but two collide, the single reported error
    /// names the earliest colliding pair.
    #[verifier::rlimit(100)]
    #[verifier::spinoff_prover]
    pub fn compile(descs: &Vec<InstrDescriptor>) -> (r: Result<InstructionSet, Vec<SpecError>>)
        requires
            descs@.len() >= 1,
        ensures
            r is Ok <==> descs_valid(descs@),
            match r {
                Ok(s) => {
                    &&& s.wf()
                    &&& s.models().len() == descs@.len()
                    &&& forall|i: int|
                        0 <= i < descs@.len() ==> model_matches_desc(
                            #[trigger] s.models()[i],
                            descs@[i],
                        )
                },
                Err(es) => {
                    &&& es@.len() >= 1
                    &&& collision_report(descs@, es@)
                    &&& forall|i: int|
                        0 <= i < descs@.len() && !desc_valid(#[trigger] descs@[i])
                            ==> exists|k: int|
                            0 <= k < es@.len() && err_instr(#[trigger] es@[k]) == i
                },
            },
    {
        let nd = descs.len();
        let mut errors: Vec<SpecError> = Vec::new();
        let mut models: Vec<InstructionModel> = Vec::new();
        let mut all_ok = true;
        let mut i: usize = 0;
        while i < nd
            invariant
                i <= nd,
                nd == descs@.len(),
                all_ok <==> (forall|i2: int| 0 <= i2 < i ==> desc_valid(#[trigger] descs@[i2])),
                all_ok ==> models@.len() == i,
                all_ok ==> forall|i2: int|
                    0 <= i2 < i ==> model_matches_desc(#[trigger] models@[i2], descs@[i2])
                        && wf_model(models@[i2]),
                all_ok ==> errors@ == Seq::<SpecError>::empty(),
                !all_ok ==> errors@.len() >= 1,
                forall|i2: int|
                    0 <= i2 < i && !desc_valid(#[trigger] descs@[i2]) ==> exists|k: int|
                        0 <= k < errors@.len() && err_instr(#[trigger] errors@[k]) == i2,
            decreases nd - i,
        {
            let ghost errors_pre = errors@;
            match bind_instruction(&descs[i], i, &mut errors) {
                Some(m) => {
                    if all_ok {
                        models.push(m);
                    }
                },
                None => {
                    all_ok = false;
                },
            }
            proof {
                assert forall|i2: int|
                    0 <= i2 < i + 1 && !desc_valid(#[trigger] descs@[i2]) implies exists|k: int|
                    0 <= k < errors@.len() && err_instr(#[trigger] errors@[k]) == i2 by {
                    if i2 < i {
                        let k0 = choose|k0: int|
                            0 <= k0 < errors_pre.len() && err_instr(#[trigger] errors_pre[k0])
                                == i2;
                        assert(errors@[k0] == errors_pre[k0]);
                        assert(err_instr(errors@[k0]) == i2);
                    } else {
                        let k0 = choose|k0: int|
                            errors_pre.len() <= k0 < errors@.len() && err_instr(
                                #[trigger] errors@[k0],
                            ) == i2;
                        assert(err_instr(errors@[k0]) == i2);
                    }
                }
            }
            i = i + 1;
        }
        if !all_ok {
            proof {
                reveal(collision_report);
                assert(errors@.len() >= 1);
                assert(!(forall|i2: int|
                    0 <= i2 < descs@.len() ==> desc_valid(#[trigger] descs@[i2])));
                assert(collision_report(descs@, errors@));
                assert(!descs_valid(descs@));
            }
            return Err(errors);
        }
        match find_collision(&models) {
            Some((a, b)) => {
                proof {
                    assert forall|i2: int| 0 <= i2 < nd implies #[trigger] models@[i2].opcode.bits@
                        == crate::binder::parsed_pat(descs@[i2]) by {
                        assert(model_matches_desc(models@[i2], descs@[i2]));
                    }
                    assert(collides(
                        crate::binder::parsed_pat(descs@[a as int]),
                        crate::binder::parsed_pat(descs@[b as int]),
                    ));
                    assert(!descs_valid(descs@));
                    assert(errors@ =~= Seq::<SpecError>::empty());
                }
                errors.push(SpecError::Collision { first: a, second: b });
                proof {
                    reveal(collision_report);
                    assert(errors@.len() == 1);
                    assert(errors@[0] == SpecError::Collision { first: a, second: b });
                    assert forall|i2: int, j2: int| 0 <= i2 < j2 < b implies !collides(
                        crate::binder::parsed_pat(#[trigger] descs@[i2]),
                        crate::binder::parsed_pat(#[trigger] descs@[j2]),
                    ) by {
                        assert(models@[i2].opcode.bits@ == crate::binder::parsed_pat(descs@[i2]));
                        assert(models@[j2].opcode.bits@ == crate::binder::parsed_pat(descs@[j2]));
                        assert(!collides(models@[i2].opcode.bits@, models@[j2].opcode.bits@));
                    }
                    assert forall|i2: int| 0 <= i2 < a implies !collides(
                        crate::binder::parsed_pat(#[trigger] descs@[i2]),
                        crate::binder::parsed_pat(descs@[b as int]),
                    ) by {
                        assert(models@[i2].opcode.bits@ == crate::binder::parsed_pat(descs@[i2]));
                        assert(!collides(
                            models@[i2].opcode.bits@,
                            models@[b as int].opcode.bits@,
                        ));
                    }
                    assert(collision_report(descs@, errors@));
                }
                return Err(errors);
            },
            None => {},
        }
        proof {
            assert forall|i2: int, j2: int| 0 <= i2 < j2 < descs@.len() implies !collides(
                crate::binder::parsed_pat(#[trigger] descs@[i2]),
                crate::binder::parsed_pat(#[trigger] descs@[j2]),
            ) by {
                assert(!collides(
                    models@[i2].opcode.bits@,
                    models@[j2].opcode.bits@,
                ));
            }
            assert(descs_valid(descs@));
        }
        let ghost models_seq = models@;
        let mut instrs: Vec<CompiledInstr> = Vec::new();
        let mut k: usize = 0;
        while k < nd
            invariant
                k <= nd,
                nd == models_seq.len(),
                models@ == models_seq.skip(k as int),
                forall|i2: int| 0 <= i2 < nd ==> wf_model(#[trigger] models_seq[i2]),
                instrs@.len() == k,
                forall|i2: int|
                    0 <= i2 < k ==> (#[trigger] instrs@[i2]).wf() && instrs@[i2].model
                        == models_seq[i2],
            decreases nd - k,
        {
            proof {
                assert(models@[0] == models_seq[k as int]);
            }
            let m = models.remove(0);
            let ci = CompiledInstr::compile(m);
            instrs.push(ci);
            proof {
                assert(models@ =~= models_seq.skip(k + 1));
            }
            k = k + 1;
        }
        proof {
            assert forall|i2: int, j2: int| 0 <= i2 < j2 < instrs@.len() implies !collides(
                #[trigger] instrs@[i2].model.opcode.bits@,
                #[trigger] instrs@[j2].model.opcode.bits@,
            ) by {
                assert(instrs@[i2].model == models_seq[i2]);
                assert(instrs@[j2].model == models_seq[j2]);
            }
            assert(instrs_wf(instrs@));
        }
        let mut cands: Vec<usize> = Vec::new();
        let mut c: usize = 0;
        while c < nd
            invariant
                c <= nd,
                cands@.len() == c,
                forall|t: int| 0 <= t < c ==> #[trigger] cands@[t] == t,
            decreases nd - c,
        {
            cands.push(c);
            c = c + 1;
        }
        let mut nodes: Vec<TreeNode> = Vec::new();
        let root = build_node(&instrs, &mut nodes, &cands);
        proof {
            assert forall|c2: int|
                0 <= c2 < instrs@.len() implies node_cands(nodes@[root as int]).contains(c2) by {
                assert(pos_ints(cands@)[c2] == c2);
            }
            let final_models = instrs@.map_values(|ci: CompiledInstr| ci.model);
            assert forall|i2: int| 0 <= i2 < descs@.len() implies model_matches_desc(
                #[trigger] final_models[i2],
                descs@[i2],
            ) by {
                assert(instrs@[i2].model == models_seq[i2]);
            }
        }
        Ok(InstructionSet { instrs, nodes, root })
    }

    /// Decodes an instruction from the front of a buffer by walking the
    /// decision tree and re-verifying the reached leaf's match predicate.
    /// Returns the number of bytes read and the decoded value, or
    /// `UnknownOpcode`/`UnexpectedEOF` when no instruction of the set
    /// matches the buffer.
    pub fn decode(&self, mem: &[u8]) -> (r: Result<(usize, InstrValue), DecodeError>)
        requires
            self.wf(),
        ensures
            decode_post(self.models(), mem@, r),
    {
        match walk(&self.instrs, &self.nodes, self.root, mem) {
            Ok(idx) => {
                let ci = &self.instrs[idx];
                let n = ci.num_bytes();
                proof {
                    assert(mem@.len() >= ci.model.opcode.bits@.len() / 8);
                }
                let fields = ci.decode_fields(mem);
                proof {
                    assert(self.models()[idx as int] == ci.model);
                }
                Ok((n, InstrValue { instr: idx, fields }))
            },
            Err(e) => {
                proof {
                    assert forall|i: int| 0 <= i < self.models().len() implies !spec_matches(
                        #[trigger] self.models()[i].opcode.bits@,
                        mem@,
                    ) by {
                        assert(self.models()[i] == self.instrs@[i].model);
                    }
                }
                Err(e)
            },
        }
    }

    /// Decodes by the naive linear scan: tries every instruction's match
    /// predicate in specification order and takes the first hit.  Kept as
    /// the reference strategy; its contract is identical to `decode`'s.
    pub fn linear_decode(&self, mem: &[u8]) -> (r: Result<(usize, InstrValue), DecodeError>)
        requires
            self.wf(),
        ensures
            decode_post(self.models(), mem@, r),
    {
        let n = self.instrs.len();
        let mut i: usize = 0;
        while i < n
            invariant
                i <= n,
                self.wf(),
                n == self.instrs@.len(),
                forall|i2: int|
                    0 <= i2 < i ==> !spec_matches(
                        #[trigger] self.instrs@[i2].model.opcode.bits@,
                        mem@,
                    ),
            decreases n - i,
        {
            let ci = &self.instrs[i];
            if ci.matches(mem) {
                let nb = ci.num_bytes();
                let fields = ci.decode_fields(mem);
                proof {
                    assert(self.models()[i as int] == ci.model);
                }
                return Ok((nb, InstrValue { instr: i, fields }));
            }
            i = i + 1;
        }
        proof {
            assert forall|i2: int| 0 <= i2 < self.models().len() implies !spec_matches(
                #[trigger] self.models()[i2].opcode.bits@,
                mem@,
            ) by {
                assert(self.models()[i2] == self.instrs@[i2].model);
            }
        }
        Err(DecodeError::UnknownOpcode)
    }

    /// Encodes an instruction value into the front of a buffer,
    /// all-or-nothing: on success the instruction's fixed byte length is
    /// returned and the buffer's tail is untouched; a short destination
    /// fails with `UnexpectedEOF` and the buffer is left unchanged.
    pub fn encode(&self, v: &InstrValue, buf: &mut Vec<u8>) -> (r: Result<usize, EncodeError>)
        requires
            self.wf(),
            v.instr < self.models().len(),
            v.fields@.len() == self.models()[v.instr as int].vars@.len(),
        ensures
            encode_post(self.models(), *v, old(buf)@, final(buf)@, r),
    {
        let ci = &self.instrs[v.instr];
        proof {
            assert(self.models()[v.instr as int] == ci.model);
        }
        ci.encode_fields(&v.fields, buf)
    }
}

} // verus!
