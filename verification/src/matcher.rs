//! The decision-tree matcher.
//!
//! Instead of testing every instruction's match predicate in turn, decoding
//! walks a binary tree of single-bit tests.  Each fork tests one buffer bit
//! and each leaf names one instruction.  Building the tree partitions the
//! live candidate list by a discriminating bit: candidates constant at that
//! bit go to one branch, candidates with a variable there go to both.  A
//! candidate list is held as ghost state on every node, which is what the
//! walk's guarantee rests on: an instruction that matches the buffer is a
//! candidate of every node the walk visits, so reaching a leaf that fails
//! its full match predicate proves that nothing matches.
//!
//! In a collision-free specification any two candidates disagree on some
//! constant bit within their shared length, so a discriminating bit always
//! exists and both branches strictly shrink.  The bit chosen among the
//! discriminating ones is a heuristic (here: favouring positions that are
//! constant in many candidates and split them evenly); it affects only the
//! shape of the tree, never what decoding returns.

use vstd::prelude::*;
use crate::bitmath::lemma_bit_test;
use crate::codec::CompiledInstr;
use crate::collision::lemma_collides_sym;
use crate::model::{bit_admits, buf_bit, collides, spec_matches, DecodeError};
use crate::pattern::Bit;
use crate::posmap::pos_ints;

verus! {

/// A compiled instruction list fit for tree building: every codec is sound
/// and no two instructions collide.
pub open spec fn instrs_wf(instrs: Seq<CompiledInstr>) -> bool {
    &&& forall|k: int| 0 <= k < instrs.len() ==> (#[trigger] instrs[k]).wf()
    &&& forall|i: int, j: int|
        0 <= i < j < instrs.len() ==> !collides(
            #[trigger] instrs[i].model.opcode.bits@,
            #[trigger] instrs[j].model.opcode.bits@,
        )
}

/// One node of the decision tree, children by index into the arena; every
/// node carries its candidate list as ghost state.
#[derive(Clone, Copy)]
pub enum TreeNode {
    Fork { pos: usize, zero: usize, one: usize, cands: Ghost<Seq<int>> },
    Leaf { instr: usize, cands: Ghost<Seq<int>> },
}

/// The candidate list of a node.
pub open spec fn node_cands(n: TreeNode) -> Seq<int> {
    match n {
        TreeNode::Fork { cands, .. } => cands@,
        TreeNode::Leaf { cands, .. } => cands@,
    }
}

/// The patterns of a compiled instruction list.
pub open spec fn pats_of(instrs: Seq<CompiledInstr>) -> Seq<Seq<Bit>> {
    instrs.map_values(|ci: CompiledInstr| ci.model.opcode.bits@)
}

/// The candidates a fork routes into its zero branch: those whose pattern
/// is not constant one at the fork's bit.
pub open spec fn zero_cands(pats: Seq<Seq<Bit>>, cands: Seq<int>, pos: int) -> Seq<int>
    decreases cands.len(),
{
    if cands.len() == 0 {
        Seq::empty()
    } else {
        zero_cands(pats, cands.drop_last(), pos) + if pats[cands.last()][pos] is One {
            Seq::empty()
        } else {
            seq![cands.last()]
        }
    }
}

/// The candidates a fork routes into its one branch: those whose pattern is
/// not constant zero at the fork's bit.
pub open spec fn one_cands(pats: Seq<Seq<Bit>>, cands: Seq<int>, pos: int) -> Seq<int>
    decreases cands.len(),
{
    if cands.len() == 0 {
        Seq::empty()
    } else {
        one_cands(pats, cands.drop_last(), pos) + if pats[cands.last()][pos] is Zero {
            Seq::empty()
        } else {
            seq![cands.last()]
        }
    }
}

/// What the zero branch holds: exactly the candidates not constant one.
pub proof fn lemma_zero_cands(pats: Seq<Seq<Bit>>, cands: Seq<int>, pos: int)
    ensures
        forall|x: int|
            #[trigger] zero_cands(pats, cands, pos).contains(x) <==> cands.contains(x) && !(
            pats[x][pos] is One),
        zero_cands(pats, cands, pos).len() <= cands.len(),
        (exists|t: int| 0 <= t < cands.len() && pats[#[trigger] cands[t]][pos] is One)
            ==> zero_cands(pats, cands, pos).len() < cands.len(),
    decreases cands.len(),
{
    if cands.len() > 0 {
        lemma_zero_cands(pats, cands.drop_last(), pos);
        let prev = zero_cands(pats, cands.drop_last(), pos);
        let cur = zero_cands(pats, cands, pos);
        assert forall|x: int| #[trigger] cur.contains(x) implies cands.contains(x) && !(
        pats[x][pos] is One) by {
            let i = choose|i: int| 0 <= i < cur.len() && cur[i] == x;
            if i < prev.len() {
                assert(prev.contains(x));
                let i2 = choose|i2: int|
                    0 <= i2 < cands.drop_last().len() && cands.drop_last()[i2] == x;
                assert(cands[i2] == x);
            } else {
                assert(x == cands.last());
                assert(cands[cands.len() - 1] == x);
            }
        }
        assert forall|x: int| cands.contains(x) && !(pats[x][pos] is One) implies #[trigger] cur
            .contains(x) by {
            let i = choose|i: int| 0 <= i < cands.len() && cands[i] == x;
            if i < cands.len() - 1 {
                assert(cands.drop_last()[i] == x);
                assert(prev.contains(x));
                let i2 = choose|i2: int| 0 <= i2 < prev.len() && prev[i2] == x;
                assert(cur[i2] == x);
            } else {
                assert(cur[cur.len() - 1] == x);
            }
        }
        if exists|t: int| 0 <= t < cands.len() && pats[#[trigger] cands[t]][pos] is One {
            let t = choose|t: int| 0 <= t < cands.len() && pats[#[trigger] cands[t]][pos] is One;
            if t == cands.len() - 1 {
                assert(cur == prev);
            } else {
                assert(cands.drop_last()[t] == cands[t]);
                assert(prev.len() < cands.drop_last().len());
            }
        }
    }
}

/// What the one branch holds: exactly the candidates not constant zero.
pub proof fn lemma_one_cands(pats: Seq<Seq<Bit>>, cands: Seq<int>, pos: int)
    ensures
        forall|x: int|
            #[trigger] one_cands(pats, cands, pos).contains(x) <==> cands.contains(x) && !(
            pats[x][pos] is Zero),
        one_cands(pats, cands, pos).len() <= cands.len(),
        (exists|t: int| 0 <= t < cands.len() && pats[#[trigger] cands[t]][pos] is Zero)
            ==> one_cands(pats, cands, pos).len() < cands.len(),
    decreases cands.len(),
{
    if cands.len() > 0 {
        lemma_one_cands(pats, cands.drop_last(), pos);
        let prev = one_cands(pats, cands.drop_last(), pos);
        let cur = one_cands(pats, cands, pos);
        assert forall|x: int| #[trigger] cur.contains(x) implies cands.contains(x) && !(
        pats[x][pos] is Zero) by {
            let i = choose|i: int| 0 <= i < cur.len() && cur[i] == x;
            if i < prev.len() {
                assert(prev.contains(x));
                let i2 = choose|i2: int|
                    0 <= i2 < cands.drop_last().len() && cands.drop_last()[i2] == x;
                assert(cands[i2] == x);
            } else {
                assert(x == cands.last());
                assert(cands[cands.len() - 1] == x);
            }
        }
        assert forall|x: int| cands.contains(x) && !(pats[x][pos] is Zero) implies #[trigger] cur
            .contains(x) by {
            let i = choose|i: int| 0 <= i < cands.len() && cands[i] == x;
            if i < cands.len() - 1 {
                assert(cands.drop_last()[i] == x);
                assert(prev.contains(x));
                let i2 = choose|i2: int| 0 <= i2 < prev.len() && prev[i2] == x;
                assert(cur[i2] == x);
            } else {
                assert(cur[cur.len() - 1] == x);
            }
        }
        if exists|t: int| 0 <= t < cands.len() && pats[#[trigger] cands[t]][pos] is Zero {
            let t = choose|t: int| 0 <= t < cands.len() && pats[#[trigger] cands[t]][pos] is Zero;
            if t == cands.len() - 1 {
                assert(cur == prev);
            } else {
                assert(cands.drop_last()[t] == cands[t]);
                assert(prev.len() < cands.drop_last().len());
            }
        }
    }
}

/// Structural soundness of the tree rooted at node `i`: children precede
/// their parent in the arena, a leaf's candidate list is its instruction
/// alone, a fork's bit lies within every candidate's pattern, and each
/// branch's candidates are exactly those the fork routes to it.
pub open spec fn node_wf(nodes: Seq<TreeNode>, pats: Seq<Seq<Bit>>, i: int) -> bool
    decreases i,
{
    &&& 0 <= i < nodes.len()
    &&& match nodes[i] {
        TreeNode::Leaf { instr, cands } => {
            &&& instr < pats.len()
            &&& cands@ == seq![instr as int]
        },
        TreeNode::Fork { pos, zero, one, cands } => {
            &&& 0 <= zero < i
            &&& 0 <= one < i
            &&& node_wf(nodes, pats, zero as int)
            &&& node_wf(nodes, pats, one as int)
            &&& (forall|c: int|
                #[trigger] cands@.contains(c) ==> 0 <= c < pats.len() && pos < pats[c].len())
            &&& node_cands(nodes[zero as int]) == zero_cands(pats, cands@, pos as int)
            &&& node_cands(nodes[one as int]) == one_cands(pats, cands@, pos as int)
        },
    }
}

/// Extending the arena beyond a sound subtree leaves it sound.
pub proof fn lemma_node_wf_extend(
    nodes: Seq<TreeNode>,
    nodes2: Seq<TreeNode>,
    pats: Seq<Seq<Bit>>,
    i: int,
)
    requires
        node_wf(nodes, pats, i),
        nodes.len() <= nodes2.len(),
        forall|k: int| 0 <= k < nodes.len() ==> nodes2[k] == #[trigger] nodes[k],
    ensures
        node_wf(nodes2, pats, i),
    decreases i,
{
    assert(nodes2[i] == nodes[i]);
    match nodes[i] {
        TreeNode::Fork { pos, zero, one, cands } => {
            assert(nodes2[zero as int] == nodes[zero as int]);
            assert(nodes2[one as int] == nodes[one as int]);
            lemma_node_wf_extend(nodes, nodes2, pats, zero as int);
            lemma_node_wf_extend(nodes, nodes2, pats, one as int);
        },
        TreeNode::Leaf { .. } => {},
    }
}

/// Whether some candidate is constant zero and some candidate constant one
/// at bit position `p`: such a position discriminates.
pub open spec fn has_split(pats: Seq<Seq<Bit>>, cands: Seq<int>, p: int) -> bool {
    &&& exists|t: int| 0 <= t < cands.len() && pats[#[trigger] cands[t]][p] is Zero
    &&& exists|t: int| 0 <= t < cands.len() && pats[#[trigger] cands[t]][p] is One
}

/// In a collision-free candidate list of two or more, a discriminating bit
/// exists within the shortest candidate's length: the shortest candidate
/// and any other disagree on a constant bit there.
proof fn lemma_split_exists(pats: Seq<Seq<Bit>>, cands: Seq<int>, min_bits: int)
    requires
        forall|i: int, j: int|
            0 <= i < j < pats.len() ==> !collides(#[trigger] pats[i], #[trigger] pats[j]),
        cands.len() >= 2,
        forall|t: int| 0 <= t < cands.len() ==> 0 <= #[trigger] cands[t] < pats.len(),
        forall|t1: int, t2: int|
            0 <= t1 < t2 < cands.len() ==> #[trigger] cands[t1] != #[trigger] cands[t2],
        forall|t: int| 0 <= t < cands.len() ==> min_bits <= pats[#[trigger] cands[t]].len(),
        exists|t: int| 0 <= t < cands.len() && min_bits == pats[#[trigger] cands[t]].len(),
    ensures
        exists|p: int| 0 <= p < min_bits && #[trigger] has_split(pats, cands, p),
{
    let tm = choose|t: int| 0 <= t < cands.len() && min_bits == pats[#[trigger] cands[t]].len();
    let to = if tm == 0 {
        1int
    } else {
        0int
    };
    let c1 = cands[tm];
    let c2 = cands[to];
    assert(c1 != c2);
    lemma_collides_sym(pats[c1], pats[c2]);
    assert(!collides(pats[c1], pats[c2]));
    let p = choose|p: int|
        0 <= p < vstd::math::min(pats[c1].len() as int, pats[c2].len() as int)
            && !crate::model::bit_compat(pats[c1][p], pats[c2][p]);
    assert(0 <= p < min_bits);
    assert(!(pats[c1][p] is Var) && !(pats[c2][p] is Var) && pats[c1][p] != pats[c2][p]);
    if pats[c1][p] is Zero {
        assert(pats[cands[tm]][p] is Zero);
        assert(pats[cands[to]][p] is One);
    } else {
        assert(pats[cands[to]][p] is Zero);
        assert(pats[cands[tm]][p] is One);
    }
    assert(has_split(pats, cands, p));
}

/// Picks the discriminating bit position for a candidate list: among the
/// positions where some candidate is constant zero and some constant one,
/// the one maximizing an integer balance score (ties to the earliest).
fn find_split(instrs: &Vec<CompiledInstr>, cands: &Vec<usize>) -> (pos: usize)
    requires
        instrs_wf(instrs@),
        cands@.len() >= 2,
        forall|t: int| 0 <= t < cands@.len() ==> #[trigger] cands@[t] < instrs@.len(),
        forall|t1: int, t2: int|
            0 <= t1 < t2 < cands@.len() ==> #[trigger] cands@[t1] != #[trigger] cands@[t2],
    ensures
        forall|t: int|
            0 <= t < cands@.len() ==> pos < pats_of(instrs@)[#[trigger] cands@[t] as int].len(),
        has_split(pats_of(instrs@), pos_ints(cands@), pos as int),
{
    let ghost pats = pats_of(instrs@);
    let ghost ci = pos_ints(cands@);
    let n = cands.len();
    let mut min_bits = instrs[cands[0]].model.opcode.bits.len();
    let mut k: usize = 1;
    while k < n
        invariant
            1 <= k <= n,
            n == cands@.len(),
            pats == pats_of(instrs@),
            instrs_wf(instrs@),
            forall|t: int| 0 <= t < cands@.len() ==> #[trigger] cands@[t] < instrs@.len(),
            forall|t: int| 0 <= t < k ==> min_bits <= pats[#[trigger] cands@[t] as int].len(),
            exists|t: int| 0 <= t < k && min_bits == pats[#[trigger] cands@[t] as int].len(),
        decreases n - k,
    {
        let l = instrs[cands[k]].model.opcode.bits.len();
        if l < min_bits {
            min_bits = l;
            proof {
                assert(0 <= k < n && min_bits == pats[cands@[k as int] as int].len());
            }
        }
        k = k + 1;
    }
    let mut best_pos: usize = 0;
    let mut best_score: u128 = 0;
    let mut found = false;
    let mut pos: usize = 0;
    while pos < min_bits
        invariant
            pos <= min_bits,
            n == cands@.len() >= 2,
            pats == pats_of(instrs@),
            ci == pos_ints(cands@),
            instrs_wf(instrs@),
            forall|t: int| 0 <= t < cands@.len() ==> #[trigger] cands@[t] < instrs@.len(),
            forall|t: int|
                0 <= t < cands@.len() ==> min_bits <= pats[#[trigger] cands@[t] as int].len(),
            exists|t: int| 0 <= t < n && min_bits == pats[#[trigger] cands@[t] as int].len(),
            found ==> best_pos < min_bits && has_split(pats, ci, best_pos as int),
            !found ==> forall|p: int| 0 <= p < pos ==> !#[trigger] has_split(pats, ci, p),
        decreases min_bits - pos,
    {
        let mut z: usize = 0;
        let mut o: usize = 0;
        let mut t: usize = 0;
        while t < n
            invariant
                t <= n,
                n == cands@.len(),
                pats == pats_of(instrs@),
                ci == pos_ints(cands@),
                instrs_wf(instrs@),
                pos < min_bits,
                forall|t2: int| 0 <= t2 < cands@.len() ==> #[trigger] cands@[t2] < instrs@.len(),
                forall|t2: int|
                    0 <= t2 < cands@.len() ==> min_bits <= pats[#[trigger] cands@[t2] as int].len(),
                z <= t,
                o <= t,
                z + o <= t,
                (z > 0) <==> exists|t2: int|
                    0 <= t2 < t && pats[#[trigger] ci[t2]][pos as int] is Zero,
                (o > 0) <==> exists|t2: int|
                    0 <= t2 < t && pats[#[trigger] ci[t2]][pos as int] is One,
            decreases n - t,
        {
            let c = cands[t];
            match instrs[c].model.opcode.bits[pos] {
                Bit::Zero => {
                    z = z + 1;
                    proof {
                        assert(pats[ci[t as int]][pos as int] is Zero);
                    }
                },
                Bit::One => {
                    o = o + 1;
                    proof {
                        assert(pats[ci[t as int]][pos as int] is One);
                    }
                },
                Bit::Var(_) => {},
            }
            t = t + 1;
        }
        if z >= 1 && o >= 1 {
            let m = if z < o {
                z
            } else {
                o
            };
            proof {
                assert((z as u128 + o as u128) * (m as u128) <= u128::MAX) by (nonlinear_arith)
                    requires
                        (z as u128) + (o as u128) <= 0xffff_ffff_ffff_ffff,
                        (m as u128) <= 0xffff_ffff_ffff_ffff,
                ;
            }
            let score = (z as u128 + o as u128) * (m as u128);
            if !found || score > best_score {
                best_pos = pos;
                best_score = score;
            }
            found = true;
            proof {
                assert(has_split(pats, ci, pos as int));
            }
        } else {
            proof {
                assert(!has_split(pats, ci, pos as int));
            }
        }
        pos = pos + 1;
    }
    if !found {
        proof {
            assert forall|t2: int|
                0 <= t2 < ci.len() implies 0 <= #[trigger] ci[t2] < pats.len() by {
                assert(cands@[t2] < instrs@.len());
            }
            assert forall|t1: int, t2: int|
                0 <= t1 < t2 < ci.len() implies #[trigger] ci[t1] != #[trigger] ci[t2] by {
                assert(cands@[t1] != cands@[t2]);
            }
            let tmw = choose|t: int|
                0 <= t < n && min_bits == pats[#[trigger] cands@[t] as int].len();
            assert(0 <= tmw < ci.len() && min_bits as int == pats[ci[tmw]].len());
            assert forall|t: int|
                0 <= t < ci.len() implies min_bits as int <= pats[#[trigger] ci[t]].len() by {
                assert(min_bits <= pats[cands@[t] as int].len());
            }
            lemma_split_exists(pats, ci, min_bits as int);
            assert(false);
        }
    }
    best_pos
}

/// Splits a candidate list by the bit at `pos`: constants go to their
/// branch, variables to both.
fn partition(instrs: &Vec<CompiledInstr>, cands: &Vec<usize>, pos: usize) -> (r: (
    Vec<usize>,
    Vec<usize>,
))
    requires
        instrs_wf(instrs@),
        forall|t: int| 0 <= t < cands@.len() ==> #[trigger] cands@[t] < instrs@.len(),
        forall|t: int|
            0 <= t < cands@.len() ==> pos < pats_of(instrs@)[#[trigger] cands@[t] as int].len(),
    ensures
        pos_ints(r.0@) == zero_cands(pats_of(instrs@), pos_ints(cands@), pos as int),
        pos_ints(r.1@) == one_cands(pats_of(instrs@), pos_ints(cands@), pos as int),
{
    let ghost pats = pats_of(instrs@);
    let mut zeros: Vec<usize> = Vec::new();
    let mut ones: Vec<usize> = Vec::new();
    let n = cands.len();
    let mut t: usize = 0;
    while t < n
        invariant
            t <= n,
            n == cands@.len(),
            pats == pats_of(instrs@),
            instrs_wf(instrs@),
            forall|t2: int| 0 <= t2 < cands@.len() ==> #[trigger] cands@[t2] < instrs@.len(),
            forall|t2: int|
                0 <= t2 < cands@.len() ==> pos < pats[#[trigger] cands@[t2] as int].len(),
            pos_ints(zeros@) == zero_cands(pats, pos_ints(cands@.take(t as int)), pos as int),
            pos_ints(ones@) == one_cands(pats, pos_ints(cands@.take(t as int)), pos as int),
        decreases n - t,
    {
        let c = cands[t];
        proof {
            assert(pos_ints(cands@.take(t + 1)).drop_last() =~= pos_ints(cands@.take(t as int)));
            assert(pos_ints(cands@.take(t + 1)).last() == cands@[t as int] as int);
        }
        match instrs[c].model.opcode.bits[pos] {
            Bit::Zero => {
                zeros.push(c);
            },
            Bit::One => {
                ones.push(c);
            },
            Bit::Var(_) => {
                zeros.push(c);
                ones.push(c);
            },
        }
        proof {
            assert(pos_ints(zeros@) =~= zero_cands(
                pats,
                pos_ints(cands@.take(t + 1)),
                pos as int,
            ));
            assert(pos_ints(ones@) =~= one_cands(pats, pos_ints(cands@.take(t + 1)), pos as int));
        }
        t = t + 1;
    }
    proof {
        assert(cands@.take(n as int) =~= cands@);
    }
    (zeros, ones)
}

/// Builds the subtree deciding among `cands`, appending its nodes to the
/// arena and returning the subtree's root (always the last node built).
pub fn build_node(
    instrs: &Vec<CompiledInstr>,
    nodes: &mut Vec<TreeNode>,
    cands: &Vec<usize>,
) -> (root: usize)
    requires
        instrs_wf(instrs@),
        cands@.len() >= 1,
        forall|t: int| 0 <= t < cands@.len() ==> #[trigger] cands@[t] < instrs@.len(),
        forall|t1: int, t2: int|
            0 <= t1 < t2 < cands@.len() ==> #[trigger] cands@[t1] != #[trigger] cands@[t2],
    ensures
        final(nodes)@.len() > old(nodes)@.len(),
        forall|k: int| 0 <= k < old(nodes)@.len() ==> final(nodes)@[k] == #[trigger] old(
            nodes,
        )@[k],
        root == final(nodes)@.len() - 1,
        node_wf(final(nodes)@, pats_of(instrs@), root as int),
        node_cands(final(nodes)@[root as int]) == pos_ints(cands@),
    decreases cands@.len(),
{
    let ghost pats = pats_of(instrs@);
    if cands.len() == 1 {
        let instr = cands[0];
        let ghost ci = pos_ints(cands@);
        proof {
            assert(ci =~= seq![cands@[0] as int]);
        }
        nodes.push(TreeNode::Leaf { instr, cands: Ghost(ci) });
        return nodes.len() - 1;
    }
    let pos = find_split(instrs, cands);
    let (zeros, ones) = partition(instrs, cands, pos);
    proof {
        lemma_zero_cands(pats, pos_ints(cands@), pos as int);
        lemma_one_cands(pats, pos_ints(cands@), pos as int);
        assert forall|t1: int, t2: int|
            0 <= t1 < t2 < pos_ints(cands@).len() implies #[trigger] pos_ints(cands@)[t1]
            != #[trigger] pos_ints(cands@)[t2] by {
            assert(cands@[t1] != cands@[t2]);
        }
        assert forall|t: int|
            0 <= t < pos_ints(cands@).len() implies 0 <= #[trigger] pos_ints(cands@)[t]
            < instrs@.len() by {
            assert(cands@[t] < instrs@.len());
        }
        lemma_branch_ok(pats, pos_ints(cands@), pos_ints(zeros@), instrs@.len() as int, true, pos as int);
        lemma_branch_ok(pats, pos_ints(cands@), pos_ints(ones@), instrs@.len() as int, false, pos as int);
        assert forall|t: int| 0 <= t < zeros@.len() implies #[trigger] zeros@[t]
            < instrs@.len() by {
            assert(pos_ints(zeros@)[t] == zeros@[t] as int);
        }
        assert forall|t: int| 0 <= t < ones@.len() implies #[trigger] ones@[t]
            < instrs@.len() by {
            assert(pos_ints(ones@)[t] == ones@[t] as int);
        }
        assert forall|t1: int, t2: int|
            0 <= t1 < t2 < zeros@.len() implies #[trigger] zeros@[t1] != #[trigger] zeros@[t2] by {
            assert(pos_ints(zeros@)[t1] != pos_ints(zeros@)[t2]);
        }
        assert forall|t1: int, t2: int|
            0 <= t1 < t2 < ones@.len() implies #[trigger] ones@[t1] != #[trigger] ones@[t2] by {
            assert(pos_ints(ones@)[t1] != pos_ints(ones@)[t2]);
        }
    }
    let zero = build_node(instrs, nodes, &zeros);
    let ghost nodes_mid = nodes@;
    let one = build_node(instrs, nodes, &ones);
    proof {
        lemma_node_wf_extend(nodes_mid, nodes@, pats, zero as int);
    }
    let ghost ci = pos_ints(cands@);
    let ghost pre_push = nodes@;
    nodes.push(
        TreeNode::Fork { pos, zero, one, cands: Ghost(ci) },
    );
    proof {
        let nn = nodes@;
        let root = nn.len() - 1;
        assert(nn.drop_last() =~= pre_push);
        lemma_node_wf_extend(pre_push, nn, pats, zero as int);
        lemma_node_wf_extend(pre_push, nn, pats, one as int);
        assert forall|c: int| ci.contains(c) implies 0 <= c < pats.len() && (pos as int) < pats[c].len() by {
            let t = choose|t: int| 0 <= t < ci.len() && ci[t] == c;
            assert(cands@[t] < instrs@.len());
            assert((pos as int) < pats[cands@[t] as int].len());
        }
        assert(node_cands(nn[zero as int]) == zero_cands(pats, ci, pos as int));
        assert(node_cands(nn[one as int]) == one_cands(pats, ci, pos as int));
        assert(node_wf(nn, pats, root));
    }
    nodes.len() - 1
}

/// A branch's candidate list inherits bounds, distinctness and, because the
/// split bit excludes a constant candidate from it, strictly shrinks.
proof fn lemma_branch_ok(
    pats: Seq<Seq<Bit>>,
    cands: Seq<int>,
    branch: Seq<int>,
    bound: int,
    zero_side: bool,
    pos: int,
)
    requires
        branch == if zero_side {
            zero_cands(pats, cands, pos)
        } else {
            one_cands(pats, cands, pos)
        },
        has_split(pats, cands, pos),
        forall|t: int| 0 <= t < cands.len() ==> 0 <= #[trigger] cands[t] < bound,
        forall|t1: int, t2: int|
            0 <= t1 < t2 < cands.len() ==> #[trigger] cands[t1] != #[trigger] cands[t2],
    ensures
        branch.len() >= 1,
        branch.len() < cands.len(),
        forall|t: int| 0 <= t < branch.len() ==> 0 <= #[trigger] branch[t] < bound,
        forall|t1: int, t2: int|
            0 <= t1 < t2 < branch.len() ==> #[trigger] branch[t1] != #[trigger] branch[t2],
    decreases cands.len(),
{
    if zero_side {
        lemma_zero_cands(pats, cands, pos);
        let t0 = choose|t: int| 0 <= t < cands.len() && pats[#[trigger] cands[t]][pos] is Zero;
        assert(branch.contains(cands[t0]));
        assert(branch.len() >= 1);
    } else {
        lemma_one_cands(pats, cands, pos);
        let t1 = choose|t: int| 0 <= t < cands.len() && pats[#[trigger] cands[t]][pos] is One;
        assert(branch.contains(cands[t1]));
        assert(branch.len() >= 1);
    }
    assert forall|t: int| 0 <= t < branch.len() implies 0 <= #[trigger] branch[t] < bound by {
        assert(branch.contains(branch[t]));
        let t2 = choose|t2: int| 0 <= t2 < cands.len() && cands[t2] == branch[t];
    }
    lemma_branch_distinct(pats, cands, pos, zero_side, branch);
}

/// A branch of a duplicate-free candidate list is duplicate-free.
proof fn lemma_branch_distinct(
    pats: Seq<Seq<Bit>>,
    cands: Seq<int>,
    pos: int,
    zero_side: bool,
    branch: Seq<int>,
)
    requires
        branch == if zero_side {
            zero_cands(pats, cands, pos)
        } else {
            one_cands(pats, cands, pos)
        },
        forall|t1: int, t2: int|
            0 <= t1 < t2 < cands.len() ==> #[trigger] cands[t1] != #[trigger] cands[t2],
    ensures
        forall|t1: int, t2: int|
            0 <= t1 < t2 < branch.len() ==> #[trigger] branch[t1] != #[trigger] branch[t2],
    decreases cands.len(),
{
    if cands.len() > 0 {
        assert forall|t1: int, t2: int|
            0 <= t1 < t2 < cands.drop_last().len() implies #[trigger] cands.drop_last()[t1]
            != #[trigger] cands.drop_last()[t2] by {
            assert(cands[t1] != cands[t2]);
        }
        let prev0 = if zero_side {
            zero_cands(pats, cands.drop_last(), pos)
        } else {
            one_cands(pats, cands.drop_last(), pos)
        };
        lemma_branch_distinct(pats, cands.drop_last(), pos, zero_side, prev0);
        let prev = if zero_side {
            zero_cands(pats, cands.drop_last(), pos)
        } else {
            one_cands(pats, cands.drop_last(), pos)
        };
        let cur = branch;
        if zero_side {
            lemma_zero_cands(pats, cands.drop_last(), pos);
        } else {
            lemma_one_cands(pats, cands.drop_last(), pos);
        }
        assert forall|t1: int, t2: int|
            0 <= t1 < t2 < cur.len() implies #[trigger] cur[t1] != #[trigger] cur[t2] by {
            if t2 < prev.len() {
            } else {
                // the appended element is the last candidate, absent earlier
                assert(cur[t2] == cands.last());
                assert(prev.contains(prev[t1]));
                let tc = choose|tc: int|
                    0 <= tc < cands.drop_last().len() && cands.drop_last()[tc] == prev[t1];
                assert(cands[tc] == prev[t1]);
                assert(cands[cands.len() - 1] == cands.last());
                assert(cands[tc] != cands[cands.len() - 1]);
            }
        }
    }
}

/// Decodes by walking the tree from `root`: each fork tests one buffer bit,
/// and the leaf reached re-verifies its instruction's full match predicate.
/// Success means the named instruction matches; failure means no
/// instruction in the set does.
pub fn walk(instrs: &Vec<CompiledInstr>, nodes: &Vec<TreeNode>, root: usize, mem: &[u8]) -> (r:
    Result<usize, DecodeError>)
    requires
        instrs_wf(instrs@),
        node_wf(nodes@, pats_of(instrs@), root as int),
        forall|c: int|
            0 <= c < instrs@.len() ==> node_cands(nodes@[root as int]).contains(c),
    ensures
        match r {
            Ok(idx) => idx < instrs@.len() && spec_matches(
                instrs@[idx as int].model.opcode.bits@,
                mem@,
            ),
            Err(_) => forall|i: int|
                0 <= i < instrs@.len() ==> !spec_matches(
                    #[trigger] instrs@[i].model.opcode.bits@,
                    mem@,
                ),
        },
{
    let ghost pats = pats_of(instrs@);
    let mut cur = root;
    loop
        invariant
            instrs_wf(instrs@),
            pats == pats_of(instrs@),
            node_wf(nodes@, pats, cur as int),
            forall|i: int|
                0 <= i < instrs@.len() && spec_matches(
                    #[trigger] instrs@[i].model.opcode.bits@,
                    mem@,
                ) ==> node_cands(nodes@[cur as int]).contains(i),
        decreases cur,
    {
        let node = nodes[cur];
        match node {
            TreeNode::Leaf { instr, cands } => {
                if instrs[instr].matches(mem) {
                    return Ok(instr);
                } else {
                    proof {
                        assert forall|i: int|
                            0 <= i < instrs@.len() implies !spec_matches(
                            #[trigger] instrs@[i].model.opcode.bits@,
                            mem@,
                        ) by {
                            if spec_matches(instrs@[i].model.opcode.bits@, mem@) {
                                assert(cands@.contains(i));
                                assert(cands@ == seq![instr as int]);
                                assert(i == instr as int);
                            }
                        }
                    }
                    return Err(DecodeError::UnknownOpcode);
                }
            },
            TreeNode::Fork { pos, zero, one, cands } => {
                let byte = pos / 8;
                if byte >= mem.len() {
                    proof {
                        assert forall|i: int|
                            0 <= i < instrs@.len() implies !spec_matches(
                            #[trigger] instrs@[i].model.opcode.bits@,
                            mem@,
                        ) by {
                            if spec_matches(instrs@[i].model.opcode.bits@, mem@) {
                                assert(cands@.contains(i));
                                assert((pos as int) < pats[i].len());
                                assert(instrs@[i].wf());
                                assert(pats[i].len() % 8 == 0);
                                assert(mem@.len() >= pats[i].len() / 8);
                            }
                        }
                    }
                    return Err(DecodeError::UnexpectedEOF);
                }
                let sh = (7 - (pos % 8)) as u8;
                let bitv = (mem[byte] >> sh) & 1;
                proof {
                    lemma_bit_test(mem@[byte as int], sh);
                    assert(buf_bit(mem@, pos as int) == bitv);
                    lemma_zero_cands(pats, cands@, pos as int);
                    lemma_one_cands(pats, cands@, pos as int);
                    assert forall|i: int|
                        0 <= i < instrs@.len() && spec_matches(
                            #[trigger] instrs@[i].model.opcode.bits@,
                            mem@,
                        ) implies (if bitv == 0 {
                        zero_cands(pats, cands@, pos as int)
                    } else {
                        one_cands(pats, cands@, pos as int)
                    }).contains(i) by {
                        assert(cands@.contains(i));
                        assert((pos as int) < pats[i].len());
                        assert(bit_admits(pats[i][pos as int], buf_bit(mem@, pos as int)));
                    }
                }
                if bitv == 0 {
                    cur = zero;
                } else {
                    cur = one;
                }
            },
        }
    }
}

} // verus!
