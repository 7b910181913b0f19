//! Arithmetic model of bit strings.
//!
//! Patterns, buffers and field values are all, at bottom, strings of binary
//! digits read most-significant-first.  This module defines the one value
//! function `bits_val` interpreting such a string as a number, the projection
//! `nth_bit` reading one digit of a number, and the lemmas connecting them to
//! the mask-and-shift operations the executable codec performs on bytes.

use vstd::prelude::*;
use vstd::arithmetic::power2::{
    pow2, lemma_pow2_adds, lemma_pow2_pos, lemma_pow2_unfold, lemma2_to64,
};
use vstd::arithmetic::div_mod::{
    lemma_breakdown, lemma_div_denominator, lemma_fundamental_div_mod_converse_div,
    lemma_fundamental_div_mod_converse_mod, lemma_mod_mod, lemma_small_mod,
};
use vstd::bits::{
    low_bits_mask, lemma_low_bits_mask_values, lemma_u8_low_bits_mask_is_mod,
    lemma_u8_shl_is_mul, lemma_u8_shr_is_div,
};

verus! {

/// The binary digit of `v` at position `i`, counting from the least
/// significant digit.
pub open spec fn nth_bit(v: nat, i: nat) -> u8 {
    ((v / pow2(i)) % 2) as u8
}

/// Every element of the sequence is a binary digit.
pub open spec fn all_bits(bs: Seq<u8>) -> bool {
    forall|i: int| 0 <= i < bs.len() ==> bs[i] <= 1
}

/// The number whose binary digits, most significant first, are `bs`.
pub open spec fn bits_val(bs: Seq<u8>) -> nat
    decreases bs.len(),
{
    if bs.len() == 0 {
        0
    } else {
        (bits_val(bs.drop_last()) * 2 + bs.last()) as nat
    }
}

/// The `n` low binary digits of `v`, most significant first.
pub open spec fn bit_seq(v: nat, n: nat) -> Seq<u8> {
    Seq::new(n, |i: int| nth_bit(v, (n - 1 - i) as nat))
}

/// The bit of byte `x` at offset `off` from the most significant end.
pub open spec fn byte_bit(x: u8, off: int) -> u8 {
    nth_bit(x as nat, (7 - off) as nat)
}

pub proof fn lemma_bits_val_bound(bs: Seq<u8>)
    requires
        all_bits(bs),
    ensures
        bits_val(bs) < pow2(bs.len()),
    decreases bs.len(),
{
    lemma2_to64();
    if bs.len() > 0 {
        assert(all_bits(bs.drop_last()));
        lemma_bits_val_bound(bs.drop_last());
        lemma_pow2_unfold(bs.len());
    }
}

pub proof fn lemma_bits_val_concat(a: Seq<u8>, b: Seq<u8>)
    ensures
        bits_val(a + b) == bits_val(a) * pow2(b.len()) + bits_val(b),
    decreases b.len(),
{
    lemma2_to64();
    if b.len() == 0 {
        assert(a + b =~= a);
    } else {
        assert((a + b).drop_last() =~= a + b.drop_last());
        assert((a + b).last() == b.last());
        lemma_bits_val_concat(a, b.drop_last());
        lemma_pow2_unfold(b.len());
        let v = bits_val(a) as int;
        let p = pow2((b.len() - 1) as nat) as int;
        assert(v * (2 * p) == (v * p) * 2) by (nonlinear_arith);
    }
}

/// A string of zero digits has value zero.
pub proof fn lemma_bits_val_zero(bs: Seq<u8>)
    requires
        forall|i: int| 0 <= i < bs.len() ==> bs[i] == 0,
    ensures
        bits_val(bs) == 0,
    decreases bs.len(),
{
    if bs.len() > 0 {
        lemma_bits_val_zero(bs.drop_last());
    }
}

/// Reading a digit of `bits_val(bs)` gives back the corresponding element.
pub proof fn lemma_bits_val_bit(bs: Seq<u8>, k: nat)
    requires
        all_bits(bs),
    ensures
        nth_bit(bits_val(bs), k) == if k < bs.len() {
            bs[bs.len() - 1 - k]
        } else {
            0
        },
    decreases bs.len(),
{
    lemma2_to64();
    lemma_pow2_pos(k);
    if bs.len() == 0 {
        assert(0nat / pow2(k) == 0) by {
            lemma_fundamental_div_mod_converse_div(0, pow2(k) as int, 0, 0);
        }
    } else {
        let w = bits_val(bs.drop_last()) as int;
        let v = bits_val(bs) as int;
        let last = bs.last() as int;
        assert(v == w * 2 + last);
        lemma_fundamental_div_mod_converse_div(v, 2, w, last);
        lemma_fundamental_div_mod_converse_mod(v, 2, w, last);
        assert(all_bits(bs.drop_last()));
        if k == 0 {
            assert(v / pow2(0) as int == v);
        } else {
            lemma_pow2_unfold(k);
            lemma_pow2_pos((k - 1) as nat);
            lemma_div_denominator(v, 2, pow2((k - 1) as nat) as int);
            lemma_bits_val_bit(bs.drop_last(), (k - 1) as nat);
        }
    }
}

/// `bit_seq(v, n)` really is the string of the `n` low digits of `v`.
pub proof fn lemma_val_of_bit_seq(v: nat, n: nat)
    ensures
        all_bits(bit_seq(v, n)),
        bits_val(bit_seq(v, n)) == v % pow2(n),
    decreases n,
{
    lemma2_to64();
    assert forall|i: int| 0 <= i < n implies bit_seq(v, n)[i] <= 1 by {
        lemma_pow2_pos((n - 1 - i) as nat);
    }
    if n == 0 {
        assert(v % pow2(0) == 0) by {
            lemma_fundamental_div_mod_converse_mod(v as int, 1, v as int, 0);
        }
    } else {
        lemma_val_of_bit_seq(v / 2, (n - 1) as nat);
        assert(bit_seq(v, n).drop_last() =~= bit_seq(v / 2, (n - 1) as nat)) by {
            assert forall|i: int| 0 <= i < n - 1 implies bit_seq(v, n)[i] == bit_seq(
                v / 2,
                (n - 1) as nat,
            )[i] by {
                let j = (n - 1 - i - 1) as nat;
                lemma_pow2_unfold((j + 1) as nat);
                lemma_pow2_pos(j);
                lemma_div_denominator(v as int, 2, pow2(j) as int);
            }
        }
        assert(bit_seq(v, n).last() == nth_bit(v, 0));
        assert(v / pow2(0) == v);
        lemma_pow2_unfold(n);
        lemma_pow2_pos((n - 1) as nat);
        lemma_breakdown(v as int, 2, pow2((n - 1) as nat) as int);
        assert(v as int % (2 * pow2((n - 1) as nat) as int) == 2 * ((v as int / 2) % (pow2(
            (n - 1) as nat,
        ) as int)) + v as int % 2);
    }
}

/// Decomposing a number below `pow2(sh + w + r)` into three digit groups:
/// `hi` above, `mid` in a window of `w` digits starting at `sh`, `lo` below.
pub proof fn lemma_three_part_split(x: nat, hi: nat, mid: nat, lo: nat, sh: nat, w: nat)
    requires
        x == hi * pow2((sh + w) as nat) + mid * pow2(sh) + lo,
        mid < pow2(w),
        lo < pow2(sh),
    ensures
        x / pow2(sh) % pow2(w) == mid,
        x % pow2(sh) == lo,
        x / pow2((sh + w) as nat) == hi,
{
    lemma_pow2_pos(sh);
    lemma_pow2_pos(w);
    lemma_pow2_pos((sh + w) as nat);
    lemma_pow2_adds(w, sh);
    let pw = pow2(w) as int;
    let ps = pow2(sh) as int;
    let q = hi as int * pw + mid as int;
    assert(x as int == q * ps + lo as int) by (nonlinear_arith)
        requires
            x == hi * (pw * ps) + mid * ps + lo,
            q == hi as int * pw + mid as int,
    ;
    lemma_fundamental_div_mod_converse_div(x as int, ps, q, lo as int);
    lemma_fundamental_div_mod_converse_mod(x as int, ps, q, lo as int);
    lemma_fundamental_div_mod_converse_div(q, pw, hi as int, mid as int);
    lemma_fundamental_div_mod_converse_mod(q, pw, hi as int, mid as int);
    lemma_div_denominator(x as int, ps, pw);
}

/// A digit of a quotient by a power of two is a higher digit of the number.
pub proof fn lemma_nth_bit_div(v: nat, s: nat, i: nat)
    ensures
        nth_bit(v / pow2(s), i) == nth_bit(v, (s + i) as nat),
{
    lemma_pow2_pos(s);
    lemma_pow2_pos(i);
    lemma_pow2_adds(s, i);
    lemma_div_denominator(v as int, pow2(s) as int, pow2(i) as int);
}

/// A digit of a remainder by `pow2(m)` agrees with the digit of the number,
/// for digit positions below `m`.
pub proof fn lemma_nth_bit_mod(v: nat, m: nat, i: nat)
    requires
        i < m,
    ensures
        nth_bit(v % pow2(m), i) == nth_bit(v, i),
{
    lemma_pow2_pos(i);
    lemma_pow2_pos(m);
    lemma_pow2_pos((m - i) as nat);
    lemma_pow2_pos((i + 1) as nat);
    // nth_bit(u, i) is determined by u % pow2(i + 1).
    lemma_nth_bit_from_low(v, i);
    lemma_nth_bit_from_low(v % pow2(m), i);
    lemma_pow2_adds((i + 1) as nat, (m - i - 1) as nat);
    lemma_mod_mod(v as int, pow2((i + 1) as nat) as int, pow2((m - i - 1) as nat) as int);
}

/// `nth_bit(v, i)` can be read off the remainder `v % pow2(i + 1)`.
pub proof fn lemma_nth_bit_from_low(v: nat, i: nat)
    ensures
        nth_bit(v, i) == (v % pow2((i + 1) as nat)) / pow2(i) % 2,
{
    lemma_pow2_pos(i);
    lemma_pow2_unfold((i + 1) as nat);
    let p = pow2(i) as int;
    lemma_breakdown(v as int, p, 2);
    // v % (p * 2) == p * ((v / p) % 2) + v % p
    let r = (v % (2 * pow2(i))) as int;
    assert(p * 2 == 2 * p);
    let b = (v as int / p) % 2;
    assert(r == b * p + (v as int % p)) by (nonlinear_arith)
        requires
            r == p * b + v as int % p,
    ;
    vstd::arithmetic::div_mod::lemma_mod_division_less_than_divisor(v as int, p);
    lemma_fundamental_div_mod_converse_div(r, p, b, v as int % p);
}

/// Small powers of two, bounded by the byte range.
pub proof fn lemma_pow2_small(n: nat)
    requires
        n <= 8,
    ensures
        pow2(n) <= 256,
        n <= 7 ==> pow2(n) <= 128,
        pow2(n) >= 1,
{
    lemma2_to64();
    lemma_pow2_pos(n);
    if n < 8 {
        vstd::arithmetic::power2::lemma_pow2_strictly_increases(n, 8);
    }
    if n < 7 {
        vstd::arithmetic::power2::lemma_pow2_strictly_increases(n, 7);
    }
}

/// Masking a byte with the low-`w`-bit mask is remainder modulo `pow2(w)`,
/// for every width a byte can hold.
pub proof fn lemma_and_low_mask(y: u8, w: u8)
    requires
        1 <= w <= 8,
    ensures
        (y & (low_bits_mask(w as nat) as u8)) as nat == y as nat % pow2(w as nat),
        y & (low_bits_mask(w as nat) as u8) < pow2(w as nat),
{
    lemma_low_bits_mask_values();
    lemma2_to64();
    if w < 8 {
        lemma_u8_low_bits_mask_is_mod(y, w as nat);
        lemma_pow2_small(w as nat);
        lemma_small_mod((y % (pow2(w as nat) as u8)) as nat, 256);
        vstd::arithmetic::div_mod::lemma_mod_division_less_than_divisor(
            y as int,
            pow2(w as nat) as int,
        );
    } else {
        assert(y & 0xffu8 == y) by (bit_vector);
        lemma_small_mod(y as nat, 256);
    }
}

/// Executable single-bit test: shifting and masking reads `nth_bit`.
pub proof fn lemma_bit_test(x: u8, s: u8)
    requires
        s < 8,
    ensures
        (x >> s) & 1 == nth_bit(x as nat, s as nat),
{
    lemma_u8_shr_is_div(x, s);
    lemma_low_bits_mask_values();
    lemma2_to64();
    lemma_u8_low_bits_mask_is_mod(x >> s, 1);
}

/// The low-`w`-bit mask as a byte.
pub proof fn lemma_u8_low_mask(w: u8)
    requires
        1 <= w <= 8,
    ensures
        0xffu8 >> ((8 - w) as u8) == low_bits_mask(w as nat),
        low_bits_mask(w as nat) < pow2(w as nat),
        pow2(w as nat) <= 256,
{
    lemma_low_bits_mask_values();
    lemma2_to64();
    lemma_u8_shr_is_div(0xffu8, (8 - w) as u8);
    lemma_pow2_pos((8 - w) as nat);
    lemma_pow2_adds(w as nat, (8 - w) as nat);
    // 255 == (pow2(w) - 1) * pow2(8 - w) + (pow2(8 - w) - 1)
    let pw = pow2(w as nat) as int;
    let pr = pow2((8 - w) as nat) as int;
    assert(255int == (pw - 1) * pr + (pr - 1)) by (nonlinear_arith)
        requires
            pw * pr == 256,
            pw >= 1,
            pr >= 1,
    ;
    lemma_fundamental_div_mod_converse_div(255, pr, pw - 1, pr - 1);
}

/// Extracting a mask run from a byte: `(x & mask) >> shift` reads the `w`
/// digits of `x` that start `sh` places above the least significant end.
pub proof fn lemma_chunk_extract(x: u8, m: u8, sh: u8, w: u8)
    requires
        sh < 8,
        1 <= w,
        sh + w <= 8,
        m as nat == low_bits_mask(w as nat) * pow2(sh as nat),
    ensures
        ((x & m) >> sh) as nat == (x as nat / pow2(sh as nat)) % pow2(w as nat),
        (x & m) >> sh < pow2(w as nat),
{
    lemma_u8_low_mask(w);
    let lowm = (0xffu8 >> ((8 - w) as u8));
    lemma_pow2_pos(sh as nat);
    lemma_pow2_pos(w as nat);
    lemma_pow2_adds(w as nat, sh as nat);
    lemma_pow2_small((w + sh) as nat);
    assert(low_bits_mask(w as nat) * pow2(sh as nat) <= 255) by (nonlinear_arith)
        requires
            low_bits_mask(w as nat) < pow2(w as nat),
            pow2(w as nat) * pow2(sh as nat) <= 256,
            pow2(sh as nat) >= 1,
    ;
    if sh > 0 {
        lemma_u8_shl_is_mul(lowm, sh);
        assert(m == lowm << sh);
    } else {
        lemma2_to64();
        assert(m == lowm << 0) by (bit_vector)
            requires
                m == lowm,
        ;
    }
    assert((x & m) >> sh == (x >> sh) & lowm) by (bit_vector)
        requires
            m == lowm << sh,
            lowm == 0xffu8 >> ((8 - w) as u8),
            sh < 8,
            1 <= w,
            sh + w <= 8,
    ;
    lemma_u8_shr_is_div(x, sh);
    lemma_and_low_mask(x >> sh, w);
}

/// Inserting a chunk into a byte whose target window is clear: bitwise or
/// is addition of the shifted chunk.
pub proof fn lemma_or_insert(x: u8, c: u8, sh: u8, w: u8)
    requires
        sh < 8,
        1 <= w,
        sh + w <= 8,
        c < pow2(w as nat),
        (x as nat / pow2(sh as nat)) % pow2(w as nat) == 0,
    ensures
        x as nat + c as nat * pow2(sh as nat) < 256,
        (x | (c << sh)) as nat == x as nat + c as nat * pow2(sh as nat),
{
    lemma_u8_low_mask(w);
    let lowm = (0xffu8 >> ((8 - w) as u8));
    assert(c <= lowm);
    lemma_pow2_pos(sh as nat);
    lemma_pow2_pos(w as nat);
    lemma_u8_shr_is_div(x, sh);
    lemma_and_low_mask(x >> sh, w);
    assert((x >> sh) & lowm == 0);
    assert(x | (c << sh) == x + c * (1u8 << sh) && x + c * (1u8 << sh) < 256) by (bit_vector)
        requires
            (x >> sh) & lowm == 0,
            lowm == 0xffu8 >> ((8 - w) as u8),
            c <= lowm,
            sh < 8,
            1 <= w,
            sh + w <= 8,
    ;
    lemma_pow2_small(sh as nat);
    if sh > 0 {
        lemma_u8_shl_is_mul(1u8, sh);
        assert(1 * pow2(sh as nat) == pow2(sh as nat));
    } else {
        lemma2_to64();
        assert(1u8 << 0 == 1) by (bit_vector);
    }
}

/// Bitwise and works digit by digit.
pub proof fn lemma_and_bit(x: u8, y: u8, s: u8)
    requires
        s < 8,
    ensures
        nth_bit((x & y) as nat, s as nat) == if nth_bit(x as nat, s as nat) == 1 && nth_bit(
            y as nat,
            s as nat,
        ) == 1 {
            1u8
        } else {
            0u8
        },
{
    assert(((x & y) >> s) & 1 == (if ((x >> s) & 1) == 1 && ((y >> s) & 1) == 1 {
        1u8
    } else {
        0u8
    })) by (bit_vector)
        requires
            s < 8,
    ;
    lemma_bit_test(x, s);
    lemma_bit_test(y, s);
    lemma_bit_test(x & y, s);
}

/// Bytes with the same digits are the same byte.
pub proof fn lemma_byte_eq_bits(x: u8, y: u8)
    requires
        forall|s: nat| s < 8 ==> nth_bit(x as nat, s) == nth_bit(y as nat, s),
    ensures
        x == y,
{
    lemma_val_of_bit_seq(x as nat, 8);
    lemma_val_of_bit_seq(y as nat, 8);
    lemma2_to64();
    lemma_small_mod(x as nat, 256);
    lemma_small_mod(y as nat, 256);
    assert(bit_seq(x as nat, 8) =~= bit_seq(y as nat, 8));
}

/// A number splits uniquely into digit groups: quotients and remainders by
/// powers of two read the groups back.
pub proof fn lemma_split_parts(x: nat, sh: nat, w: nat)
    ensures
        x == (x / pow2((sh + w) as nat)) * pow2((sh + w) as nat) + ((x / pow2(sh)) % pow2(w))
            * pow2(sh) + x % pow2(sh),
{
    lemma_pow2_pos(sh);
    lemma_pow2_pos(w);
    lemma_pow2_pos((sh + w) as nat);
    lemma_pow2_adds(sh, w);
    let ps = pow2(sh) as int;
    let pw = pow2(w) as int;
    let q = x as int / ps;
    vstd::arithmetic::div_mod::lemma_fundamental_div_mod(x as int, ps);
    vstd::arithmetic::div_mod::lemma_fundamental_div_mod(q, pw);
    lemma_div_denominator(x as int, ps, pw);
    // x == q * ps + x % ps, q == (q / pw) * pw + q % pw, q / pw == x / (ps * pw)
    assert(x as int == ((q / pw) * pw + q % pw) * ps + x as int % ps) by (nonlinear_arith)
        requires
            x as int == ps * q + x as int % ps,
            q == pw * (q / pw) + q % pw,
    ;
    assert(((q / pw) * pw + q % pw) * ps == (q / pw) * (pw * ps) + (q % pw) * ps)
        by (nonlinear_arith);
    assert(pw * ps == ps * pw);
}

/// Inserting a chunk into a cleared window, read back digit by digit: the
/// window digits come from the chunk, every other digit is unchanged.
pub proof fn lemma_or_insert_bits(x: u8, x2: u8, c: u8, sh: u8, w: u8, s: u8)
    requires
        sh < 8,
        1 <= w,
        sh + w <= 8,
        c < pow2(w as nat),
        (x as nat / pow2(sh as nat)) % pow2(w as nat) == 0,
        x2 as nat == x as nat + c as nat * pow2(sh as nat),
        s < 8,
    ensures
        nth_bit(x2 as nat, s as nat) == if sh <= s < sh + w {
            nth_bit(c as nat, (s - sh) as nat)
        } else {
            nth_bit(x as nat, s as nat)
        },
{
    let shn = sh as nat;
    let wn = w as nat;
    let hi = x as nat / pow2((shn + wn) as nat);
    let lo = x as nat % pow2(shn);
    lemma_pow2_pos(shn);
    lemma_pow2_pos(wn);
    lemma_pow2_pos((shn + wn) as nat);
    lemma_split_parts(x as nat, shn, wn);
    assert(x as nat == hi * pow2((shn + wn) as nat) + lo);
    vstd::arithmetic::div_mod::lemma_mod_division_less_than_divisor(x as int, pow2(shn) as int);
    assert(x2 as nat == hi * pow2((shn + wn) as nat) + c as nat * pow2(shn) + lo);
    lemma_three_part_split(x2 as nat, hi, c as nat, lo, shn, wn);
    lemma_three_part_split(x as nat, hi, 0, lo, shn, wn);
    if s < sh {
        // determined by the remainder below pow2(sh), equal for x and x2
        lemma_nth_bit_from_low(x as nat, s as nat);
        lemma_nth_bit_from_low(x2 as nat, s as nat);
        lemma_pow2_pos((s + 1) as nat);
        lemma_pow2_pos((sh - s - 1) as nat);
        lemma_pow2_adds((s + 1) as nat, (sh - s - 1) as nat);
        lemma_mod_mod(x as int, pow2((s + 1) as nat) as int, pow2((sh - s - 1) as nat) as int);
        lemma_mod_mod(x2 as int, pow2((s + 1) as nat) as int, pow2((sh - s - 1) as nat) as int);
    } else if s < sh + w {
        // determined by the window group
        let q2 = x2 as nat / pow2(shn);
        vstd::arithmetic::div_mod::lemma_fundamental_div_mod(q2 as int, pow2(wn) as int);
        lemma_div_denominator(x2 as int, pow2(shn) as int, pow2(wn) as int);
        lemma_pow2_adds(shn, wn);
        // q2 == (q2 / pow2(w)) * pow2(w) + c
        lemma_nth_bit_div(x2 as nat, shn, (s - sh) as nat);
        lemma_nth_bit_mod(q2, wn, (s - sh) as nat);
        assert(q2 % pow2(wn) == c as nat);
    } else {
        // determined by the high group, equal for x and x2
        lemma_nth_bit_div(x as nat, (shn + wn) as nat, (s - sh - w) as nat);
        lemma_nth_bit_div(x2 as nat, (shn + wn) as nat, (s - sh - w) as nat);
        assert(x as nat / pow2((shn + wn) as nat) == hi);
        assert(x2 as nat / pow2((shn + wn) as nat) == hi);
    }
}

/// The largest power of two a 128-bit word can hold.
pub proof fn lemma_pow2_127()
    ensures
        pow2(127) == 0x80000000000000000000000000000000,
{
    lemma_pow2_adds(64, 63);
    lemma2_to64();
    vstd::arithmetic::power2::lemma2_to64_rest();
}

/// Executable power of two on 128-bit words.
pub fn pow2_u128(e: usize) -> (r: u128)
    requires
        e < 128,
    ensures
        r == pow2(e as nat),
{
    let mut r: u128 = 1;
    let mut k: usize = 0;
    proof {
        lemma2_to64();
    }
    while k < e
        invariant
            k <= e,
            e < 128,
            r == pow2(k as nat),
        decreases e - k,
    {
        proof {
            lemma_pow2_unfold((k + 1) as nat);
            lemma_pow2_127();
            if k + 1 < 127 {
                vstd::arithmetic::power2::lemma_pow2_strictly_increases((k + 1) as nat, 127);
            }
        }
        r = r * 2;
        k = k + 1;
    }
    r
}

} // verus!
