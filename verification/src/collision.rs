//! Collision detection between instruction patterns.
//!
//! Two instructions collide when, over their shared byte length, every bit
//! position is either a wildcard in one of them or the identical constant in
//! both: no buffer content can then tell them apart.  A specification with a
//! colliding pair is rejected outright.  Conversely, in a collision-free set
//! at most one instruction ever matches a given buffer, which is what makes
//! decoding unambiguous.

use vstd::prelude::*;
use crate::model::{bit_admits, bit_compat, buf_bit, collides, spec_matches, InstructionModel};
use crate::pattern::{Bit, Opcode};

verus! {

/// Whether two parsed patterns collide.
pub fn is_collision(op1: &Opcode, op2: &Opcode) -> (r: bool)
    ensures
        r == collides(op1.bits@, op2.bits@),
{
    let n1 = op1.bits.len();
    let n2 = op2.bits.len();
    let n = if n1 < n2 {
        n1
    } else {
        n2
    };
    let mut p: usize = 0;
    while p < n
        invariant
            p <= n,
            n == vstd::math::min(op1.bits@.len() as int, op2.bits@.len() as int),
            forall|q: int| 0 <= q < p ==> bit_compat(#[trigger] op1.bits@[q], op2.bits@[q]),
        decreases n - p,
    {
        let b1 = op1.bits[p];
        let b2 = op2.bits[p];
        let compatible = match (b1, b2) {
            (Bit::Var(_), _) => true,
            (_, Bit::Var(_)) => true,
            _ => b1 == b2,
        };
        if !compatible {
            assert(!bit_compat(op1.bits@[p as int], op2.bits@[p as int]));
            return false;
        }
        p = p + 1;
    }
    true
}

/// The first colliding pair among the patterns, if any: the second index is
/// the first instruction that collides with an earlier one, and the first
/// index is the earliest instruction it collides with.
pub fn find_collision(models: &Vec<InstructionModel>) -> (r: Option<(usize, usize)>)
    ensures
        match r {
            Some((i, j)) => {
                &&& i < j < models@.len()
                &&& collides(models@[i as int].opcode.bits@, models@[j as int].opcode.bits@)
                &&& forall|i2: int, j2: int|
                    0 <= i2 < j2 < j ==> !collides(
                        #[trigger] models@[i2].opcode.bits@,
                        #[trigger] models@[j2].opcode.bits@,
                    )
                &&& forall|i2: int|
                    0 <= i2 < i ==> !collides(
                        #[trigger] models@[i2].opcode.bits@,
                        models@[j as int].opcode.bits@,
                    )
            },
            None => forall|i2: int, j2: int|
                0 <= i2 < j2 < models@.len() ==> !collides(
                    #[trigger] models@[i2].opcode.bits@,
                    #[trigger] models@[j2].opcode.bits@,
                ),
        },
{
    let n = models.len();
    let mut j: usize = 1;
    while j < n
        invariant
            1 <= j,
            n == models@.len(),
            forall|i2: int, j2: int|
                0 <= i2 < j2 < j ==> !collides(
                    #[trigger] models@[i2].opcode.bits@,
                    #[trigger] models@[j2].opcode.bits@,
                ),
        decreases n - j,
    {
        let mut i: usize = 0;
        while i < j
            invariant
                i <= j < n,
                n == models@.len(),
                forall|i2: int, j2: int|
                    0 <= i2 < j2 < j ==> !collides(
                        #[trigger] models@[i2].opcode.bits@,
                        #[trigger] models@[j2].opcode.bits@,
                    ),
                forall|i2: int|
                    0 <= i2 < i ==> !collides(
                        #[trigger] models@[i2].opcode.bits@,
                        models@[j as int].opcode.bits@,
                    ),
            decreases j - i,
        {
            if is_collision(&models[i].opcode, &models[j].opcode) {
                return Some((i, j));
            }
            i = i + 1;
        }
        j = j + 1;
    }
    None
}

/// Collision is symmetric: the test reads the two patterns the same way.
pub proof fn lemma_collides_sym(p1: Seq<Bit>, p2: Seq<Bit>)
    ensures
        collides(p1, p2) == collides(p2, p1),
{
    if collides(p1, p2) {
        assert forall|p: int|
            0 <= p < vstd::math::min(p2.len() as int, p1.len() as int) implies crate::model::bit_compat(
            p2[p],
            p1[p],
        ) by {
            assert(crate::model::bit_compat(p1[p], p2[p]));
        }
    }
    if collides(p2, p1) {
        assert forall|p: int|
            0 <= p < vstd::math::min(p1.len() as int, p2.len() as int) implies crate::model::bit_compat(
            p1[p],
            p2[p],
        ) by {
            assert(crate::model::bit_compat(p2[p], p1[p]));
        }
    }
}

/// In a collision-free pair, a buffer matched by one pattern is never
/// matched by the other: the position where their constants disagree is
/// within both patterns, and the buffer bit there can only agree with one.
pub proof fn lemma_match_unique(p1: Seq<Bit>, p2: Seq<Bit>, buf: Seq<u8>)
    requires
        p1.len() % 8 == 0,
        p2.len() % 8 == 0,
        !collides(p1, p2),
        spec_matches(p1, buf),
    ensures
        !spec_matches(p2, buf),
{
    let p = choose|p: int|
        0 <= p < vstd::math::min(p1.len() as int, p2.len() as int) && !bit_compat(p1[p], p2[p]);
    assert(bit_admits(p1[p], buf_bit(buf, p)));
    if spec_matches(p2, buf) {
        assert(bit_admits(p2[p], buf_bit(buf, p)));
    }
}

} // verus!
