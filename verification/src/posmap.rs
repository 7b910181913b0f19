//! Bit-position maps and mask runs.
//!
//! For one variable symbol, the position map is the ordered list of pattern
//! bit positions the symbol occupies, scanned most significant byte and bit
//! first; the earliest occurrence is the most significant bit of the
//! variable's value.  Consecutive positions that share a byte are compressed
//! into a `MaskRun` — one mask, byte index and shift — which is the unit the
//! generated encode and decode operations act on.

use vstd::prelude::*;
use vstd::arithmetic::power2::pow2;
use vstd::bits::{
    low_bits_mask, lemma_low_bits_mask_unfold, lemma_low_bits_mask_values, lemma_u8_shl_is_mul,
};
use crate::bitmath::{lemma_pow2_small, lemma_u8_low_mask};
use crate::model::occ;
use crate::pattern::{Bit, Opcode};

verus! {

/// A compressed group of contiguous bits of one variable within one byte.
/// `mask` selects the bits within the byte, `shift` brings them down to the
/// byte's least significant end, and `val_shift` is where the group's least
/// significant bit sits within the variable's value.
#[derive(Clone, Copy, PartialEq, Eq, Structural, Debug)]
pub struct MaskRun {
    pub byte_idx: usize,
    pub mask: u8,
    pub shift: u8,
    pub width: u8,
    pub val_shift: u8,
}

/// The positions of a vector, as mathematical integers.
pub open spec fn pos_ints(v: Seq<usize>) -> Seq<int> {
    v.map_values(|p: usize| p as int)
}

/// One run covering `run.width` consecutive positions of the position map,
/// starting at map index `k`: the positions sit in one byte, the mask
/// selects exactly them, and `val_shift` places them within the value.
pub open spec fn run_covers(r: MaskRun, positions: Seq<int>, k: int) -> bool {
    let w = r.width as int;
    let o = 8 - w - r.shift as int;
    &&& 1 <= w <= 8
    &&& r.shift < 8
    &&& o >= 0
    &&& 0 <= k
    &&& k + w <= positions.len()
    &&& forall|t: int| 0 <= t < w ==> #[trigger] positions[k + t] == 8 * r.byte_idx + o + t
    &&& r.mask as nat == low_bits_mask(r.width as nat) * pow2(r.shift as nat)
    &&& r.val_shift as int == positions.len() - k - w
}

/// The position-map index where run `i` of a run list starts.
pub open spec fn runs_start(runs: Seq<MaskRun>, i: int) -> int
    decreases i,
{
    if i <= 0 {
        0
    } else {
        runs_start(runs, i - 1) + runs[i - 1].width
    }
}

/// A run list that tiles the whole position map, in order.
pub open spec fn runs_cover(runs: Seq<MaskRun>, positions: Seq<int>) -> bool {
    &&& forall|i: int|
        0 <= i < runs.len() ==> run_covers(#[trigger] runs[i], positions, runs_start(runs, i))
    &&& runs_start(runs, runs.len() as int) == positions.len()
}

/// Appending a run does not move the start of any earlier run.
pub proof fn lemma_runs_start_push(runs: Seq<MaskRun>, r: MaskRun, i: int)
    requires
        0 <= i <= runs.len(),
    ensures
        runs_start(runs.push(r), i) == runs_start(runs, i),
    decreases i,
{
    if i > 0 {
        lemma_runs_start_push(runs, r, i - 1);
        assert(runs.push(r)[i - 1] == runs[i - 1]);
    }
}

/// The pattern bit positions where a symbol occurs, scan order.
pub fn occurrences(op: &Opcode, sym: char) -> (r: Vec<usize>)
    ensures
        pos_ints(r@) == occ(op.bits@, sym),
{
    let mut r: Vec<usize> = Vec::new();
    let n = op.bits.len();
    let mut p: usize = 0;
    while p < n
        invariant
            p <= n,
            n == op.bits@.len(),
            pos_ints(r@) == occ(op.bits@.take(p as int), sym),
        decreases n - p,
    {
        let is_sym = match op.bits[p] {
            Bit::Var(c) => c == sym,
            _ => false,
        };
        proof {
            assert(op.bits@.take(p + 1).drop_last() =~= op.bits@.take(p as int));
            assert(op.bits@.take(p + 1).last() == op.bits@[p as int]);
        }
        if is_sym {
            r.push(p);
            proof {
                assert(pos_ints(r@) =~= occ(op.bits@.take(p + 1), sym));
            }
        } else {
            proof {
                assert(pos_ints(r@) =~= occ(op.bits@.take(p + 1), sym));
            }
        }
        p = p + 1;
    }
    proof {
        assert(op.bits@.take(n as int) =~= op.bits@);
    }
    r
}

/// Compresses a position map into mask runs: consecutive, bit-adjacent
/// positions sharing a byte merge into one mask-and-shift operation.
#[verifier::rlimit(100)]
pub fn build_runs(positions: &Vec<usize>) -> (runs: Vec<MaskRun>)
    requires
        positions@.len() <= 128,
    ensures
        runs_cover(runs@, pos_ints(positions@)),
{
    let mut runs: Vec<MaskRun> = Vec::new();
    let n = positions.len();
    let mut k: usize = 0;
    while k < n
        invariant
            k <= n,
            n == positions@.len() <= 128,
            runs_start(runs@, runs@.len() as int) == k,
            forall|i: int|
                0 <= i < runs@.len() ==> run_covers(
                    #[trigger] runs@[i],
                    pos_ints(positions@),
                    runs_start(runs@, i),
                ),
        decreases n - k,
    {
        let p = positions[k];
        let byte_idx = p / 8;
        let o = p % 8;
        let mut w: usize = 1;
        while k + w < n && o + w < 8 && positions[k + w] == p + w
            invariant
                1 <= w,
                o + w <= 8,
                k + w <= n,
                k < n,
                n == positions@.len(),
                p == positions@[k as int],
                o == p % 8,
                forall|t: int| 0 <= t < w ==> #[trigger] positions@[k + t] == p + t,
            decreases 8 - w,
        {
            w = w + 1;
        }
        let shift = 8 - o - w;
        // The low w-bit mask, then shifted into position.
        let mut mask_low: u8 = 0;
        let mut t: usize = 0;
        proof {
            lemma_low_bits_mask_values();
        }
        while t < w
            invariant
                t <= w <= 8,
                mask_low as nat == low_bits_mask(t as nat),
            decreases w - t,
        {
            proof {
                lemma_low_bits_mask_unfold((t + 1) as nat);
                lemma_u8_low_mask((t + 1) as u8);
            }
            mask_low = mask_low * 2 + 1;
            t = t + 1;
        }
        proof {
            lemma_u8_low_mask(w as u8);
            lemma_pow2_small((w + shift) as nat);
            lemma_pow2_small(shift as nat);
            lemma_pow2_small(w as nat);
            vstd::arithmetic::power2::lemma_pow2_adds(w as nat, shift as nat);
            assert(low_bits_mask(w as nat) * pow2(shift as nat) <= 255) by (nonlinear_arith)
                requires
                    low_bits_mask(w as nat) < pow2(w as nat),
                    pow2(w as nat) * pow2(shift as nat) <= 256,
                    pow2(shift as nat) >= 1,
            ;
            if shift > 0 {
                lemma_u8_shl_is_mul(mask_low, shift as u8);
            } else {
                assert(mask_low << 0u8 == mask_low) by (bit_vector);
            }
        }
        let mask = mask_low << (shift as u8);
        let run = MaskRun {
            byte_idx,
            mask,
            shift: shift as u8,
            width: w as u8,
            val_shift: (n - k - w) as u8,
        };
        let ghost old_runs = runs@;
        let ghost pi = pos_ints(positions@);
        proof {
            // the new run covers positions [k, k + w)
            assert(run.mask as nat == low_bits_mask(run.width as nat) * pow2(run.shift as nat));
            assert(8 - (run.width as int) - (run.shift as int) == o);
            assert forall|t2: int| 0 <= t2 < run.width implies #[trigger] pi[k + t2] == 8
                * run.byte_idx + (8 - (run.width as int) - (run.shift as int)) + t2 by {
                assert(positions@[k + t2] == p + t2);
                assert(p == 8 * byte_idx + o);
            }
            assert(run_covers(run, pi, k as int));
        }
        runs.push(run);
        proof {
            assert(runs@ =~= old_runs.push(run));
            assert forall|i: int| 0 <= i < runs@.len() implies run_covers(
                #[trigger] runs@[i],
                pi,
                runs_start(runs@, i),
            ) by {
                lemma_runs_start_push(old_runs, run, i);
                if i < old_runs.len() {
                    assert(runs@[i] == old_runs[i]);
                } else {
                    assert(runs@[i] == run);
                    assert(runs_start(runs@, i) == k);
                }
            }
            lemma_runs_start_push(old_runs, run, old_runs.len() as int);
            assert(runs_start(runs@, runs@.len() as int) == k + w);
        }
        k = k + w;
    }
    runs
}

} // verus!
