//! Textual bit patterns and their parsed form.
//!
//! A pattern literal such as `"0x1x0x"` or `"0b0101_xxyy"` describes one
//! instruction's wire encoding: after the `0x`/`0b` prefix, every hex digit
//! stands for four fixed bits (binary digit characters stand for one), and
//! every other character is a variable symbol occupying those bit positions.
//! Underscores are grouping separators and carry no meaning.  The parsed form
//! is a sequence of `Bit` symbols padded with constant zeros to a whole
//! number of bytes, most significant bit first.

use vstd::prelude::*;

verus! {

/// One position of a pattern: constant zero, constant one, or a variable
/// symbol (the symbol `'*'` is a free wildcard bound to no field).
#[derive(Clone, Copy, PartialEq, Eq, Structural, Debug)]
pub enum Bit {
    Zero,
    One,
    Var(char),
}

/// The bit a single pattern character stands for.
pub open spec fn char_bit(c: char) -> Bit {
    if c == '0' {
        Bit::Zero
    } else if c == '1' {
        Bit::One
    } else {
        Bit::Var(c)
    }
}

/// The bits a whole string of pattern characters stands for.
pub open spec fn bits_of_chars(s: Seq<char>) -> Seq<Bit> {
    s.map_values(|c: char| char_bit(c))
}

/// The four binary digit characters a hex pattern character expands to:
/// hex digits expand to their value, any other character to four copies of
/// itself.
pub open spec fn hex_char_bits(c: char) -> Seq<char> {
    if c == '0' {
        seq!['0', '0', '0', '0']
    } else if c == '1' {
        seq!['0', '0', '0', '1']
    } else if c == '2' {
        seq!['0', '0', '1', '0']
    } else if c == '3' {
        seq!['0', '0', '1', '1']
    } else if c == '4' {
        seq!['0', '1', '0', '0']
    } else if c == '5' {
        seq!['0', '1', '0', '1']
    } else if c == '6' {
        seq!['0', '1', '1', '0']
    } else if c == '7' {
        seq!['0', '1', '1', '1']
    } else if c == '8' {
        seq!['1', '0', '0', '0']
    } else if c == '9' {
        seq!['1', '0', '0', '1']
    } else if c == 'a' {
        seq!['1', '0', '1', '0']
    } else if c == 'b' {
        seq!['1', '0', '1', '1']
    } else if c == 'c' {
        seq!['1', '1', '0', '0']
    } else if c == 'd' {
        seq!['1', '1', '0', '1']
    } else if c == 'e' {
        seq!['1', '1', '1', '0']
    } else if c == 'f' {
        seq!['1', '1', '1', '1']
    } else {
        seq![c, c, c, c]
    }
}

/// Hex-to-binary expansion of a whole character string.
pub open spec fn hex_expand(s: Seq<char>) -> Seq<char>
    decreases s.len(),
{
    if s.len() == 0 {
        Seq::empty()
    } else {
        hex_expand(s.drop_last()) + hex_char_bits(s.last())
    }
}

/// The string with every grouping separator removed.
pub open spec fn strip_seps(s: Seq<char>) -> Seq<char>
    decreases s.len(),
{
    if s.len() == 0 {
        Seq::empty()
    } else {
        strip_seps(s.drop_last()) + if s.last() == '_' {
            Seq::empty()
        } else {
            seq![s.last()]
        }
    }
}

/// The number of constant-zero bits that pad a pattern to a whole byte.
pub open spec fn pad_len(n: nat) -> nat {
    ((8 - n % 8) % 8) as nat
}

/// A bit sequence padded with constant zeros to a whole number of bytes.
pub open spec fn pad_bits(bs: Seq<Bit>) -> Seq<Bit> {
    bs + Seq::new(pad_len(bs.len()), |i: int| Bit::Zero)
}

/// What parsing a pattern literal yields: `None` when the prefix is
/// malformed, otherwise the padded bit sequence.
pub open spec fn spec_parse_pattern(s: Seq<char>) -> Option<Seq<Bit>> {
    let t = strip_seps(s);
    if t.len() < 2 || t[0] != '0' || (t[1] != 'x' && t[1] != 'b') {
        None
    } else if t[1] == 'x' {
        Some(pad_bits(bits_of_chars(hex_expand(t.skip(2)))))
    } else {
        Some(pad_bits(bits_of_chars(t.skip(2))))
    }
}

/// A parsed pattern: its bits, most significant first, always a whole
/// number of bytes.
#[derive(PartialEq, Eq, Debug)]
pub struct Opcode {
    pub bits: Vec<Bit>,
}

impl Opcode {
    /// Patterns are always padded to a whole number of bytes.
    pub open spec fn wf(&self) -> bool {
        self.bits@.len() % 8 == 0
    }

    /// The fixed wire length of the pattern, in bytes.
    pub fn num_bytes(&self) -> (n: usize)
        ensures
            n == self.bits@.len() / 8,
    {
        self.bits.len() / 8
    }
}

/// The characters of a string, in order.
pub fn str_chars(s: &str) -> (r: Vec<char>)
    ensures
        r@ == s@,
{
    let mut r: Vec<char> = Vec::new();
    for c in it: s.chars()
        invariant
            r@ == it.seq().take(it.index() as int),
    {
        r.push(c);
    }
    proof {
        assert(r@ =~= s@);
    }
    r
}

/// Expands the hex form of an opcode literal into its binary form, so that
/// later stages see only one kind: each hex digit after the two prefix
/// characters becomes its four binary digits, and each variable symbol four
/// copies of itself ("0x0f" becomes "00001111").
pub fn hex_to_bin_string(src_str: &str) -> (r: Vec<char>)
    ensures
        src_str@.len() >= 2 ==> r@ == hex_expand(src_str@.skip(2)),
        src_str@.len() < 2 ==> r@ == Seq::<char>::empty(),
{
    let chars = str_chars(src_str);
    hex_expand_chars(&chars)
}

/// Hex-to-binary expansion of the characters after the two prefix ones.
fn hex_expand_chars(chars: &Vec<char>) -> (r: Vec<char>)
    ensures
        chars@.len() >= 2 ==> r@ == hex_expand(chars@.skip(2)),
        chars@.len() < 2 ==> r@ == Seq::<char>::empty(),
{
    let mut r: Vec<char> = Vec::new();
    let n = chars.len();
    if n <= 2 {
        proof {
            if n == 2 {
                assert(chars@.skip(2) =~= Seq::<char>::empty());
            }
        }
        return r;
    }
    let mut i: usize = 2;
    while i < n
        invariant
            2 <= i <= n,
            n == chars@.len(),
            r@ == hex_expand(chars@.subrange(2, i as int)),
        decreases n - i,
    {
        let c = chars[i];
        if c == '0' {
            push4(&mut r, '0', '0', '0', '0');
        } else if c == '1' {
            push4(&mut r, '0', '0', '0', '1');
        } else if c == '2' {
            push4(&mut r, '0', '0', '1', '0');
        } else if c == '3' {
            push4(&mut r, '0', '0', '1', '1');
        } else if c == '4' {
            push4(&mut r, '0', '1', '0', '0');
        } else if c == '5' {
            push4(&mut r, '0', '1', '0', '1');
        } else if c == '6' {
            push4(&mut r, '0', '1', '1', '0');
        } else if c == '7' {
            push4(&mut r, '0', '1', '1', '1');
        } else if c == '8' {
            push4(&mut r, '1', '0', '0', '0');
        } else if c == '9' {
            push4(&mut r, '1', '0', '0', '1');
        } else if c == 'a' {
            push4(&mut r, '1', '0', '1', '0');
        } else if c == 'b' {
            push4(&mut r, '1', '0', '1', '1');
        } else if c == 'c' {
            push4(&mut r, '1', '1', '0', '0');
        } else if c == 'd' {
            push4(&mut r, '1', '1', '0', '1');
        } else if c == 'e' {
            push4(&mut r, '1', '1', '1', '0');
        } else if c == 'f' {
            push4(&mut r, '1', '1', '1', '1');
        } else {
            push4(&mut r, c, c, c, c);
        }
        proof {
            assert(chars@.subrange(2, i + 1).drop_last() =~= chars@.subrange(2, i as int));
            assert(chars@.subrange(2, i + 1).last() == chars@[i as int]);
        }
        i = i + 1;
    }
    proof {
        assert(chars@.subrange(2, n as int) =~= chars@.skip(2));
    }
    r
}

/// Appends four characters.
fn push4(v: &mut Vec<char>, a: char, b: char, c: char, d: char)
    ensures
        final(v)@ == old(v)@ + seq![a, b, c, d],
{
    v.push(a);
    v.push(b);
    v.push(c);
    v.push(d);
    proof {
        assert(v@ =~= old(v)@ + seq![a, b, c, d]);
    }
}

/// Parses an opcode literal.  Returns `None` exactly when the string (after
/// separators are removed) lacks a `0x` or `0b` prefix; otherwise the parsed
/// pattern, padded to a whole number of bytes.
pub fn parse_pattern(s: &str) -> (r: Option<Opcode>)
    ensures
        match r {
            Some(op) => {
                &&& spec_parse_pattern(s@) == Some(op.bits@)
                &&& op.wf()
            },
            None => spec_parse_pattern(s@) is None,
        },
{
    let chars = str_chars(s);
    let mut stripped: Vec<char> = Vec::new();
    let n = chars.len();
    let mut i: usize = 0;
    while i < n
        invariant
            i <= n,
            n == chars@.len(),
            stripped@ == strip_seps(chars@.take(i as int)),
        decreases n - i,
    {
        let c = chars[i];
        if c != '_' {
            stripped.push(c);
        }
        proof {
            assert(chars@.take(i + 1).drop_last() =~= chars@.take(i as int));
            assert(chars@.take(i + 1).last() == chars@[i as int]);
        }
        i = i + 1;
    }
    proof {
        assert(chars@.take(n as int) =~= chars@);
    }
    if stripped.len() < 2 {
        return None;
    }
    let c0 = stripped[0];
    let c1 = stripped[1];
    if c0 != '0' || (c1 != 'x' && c1 != 'b') {
        return None;
    }
    let body: Vec<char> = if c1 == 'x' {
        hex_expand_chars(&stripped)
    } else {
        let mut b: Vec<char> = Vec::new();
        let m = stripped.len();
        let mut j: usize = 2;
        while j < m
            invariant
                2 <= j <= m,
                m == stripped@.len(),
                b@ == stripped@.subrange(2, j as int),
            decreases m - j,
        {
            b.push(stripped[j]);
            proof {
                assert(stripped@.subrange(2, j + 1) =~= stripped@.subrange(2, j as int).push(
                    stripped@[j as int],
                ));
            }
            j = j + 1;
        }
        proof {
            assert(stripped@.subrange(2, m as int) =~= stripped@.skip(2));
        }
        b
    };
    let mut bits: Vec<Bit> = Vec::new();
    let bn = body.len();
    let mut k: usize = 0;
    while k < bn
        invariant
            k <= bn,
            bn == body@.len(),
            bits@ == bits_of_chars(body@.take(k as int)),
        decreases bn - k,
    {
        let c = body[k];
        if c == '0' {
            bits.push(Bit::Zero);
        } else if c == '1' {
            bits.push(Bit::One);
        } else {
            bits.push(Bit::Var(c));
        }
        proof {
            assert(bits_of_chars(body@.take(k + 1)) =~= bits_of_chars(body@.take(k as int)).push(
                char_bit(body@[k as int]),
            ));
        }
        k = k + 1;
    }
    proof {
        assert(body@.take(bn as int) =~= body@);
    }
    let rem = bits.len() % 8;
    let padding = (8 - rem) % 8;
    let ghost prepad = bits@;
    let mut p: usize = 0;
    while p < padding
        invariant
            p <= padding,
            padding == pad_len(prepad.len()),
            bits@ == prepad + Seq::new(p as nat, |i: int| Bit::Zero),
        decreases padding - p,
    {
        bits.push(Bit::Zero);
        proof {
            assert(prepad + Seq::new((p + 1) as nat, |i: int| Bit::Zero) =~= (prepad + Seq::new(
                p as nat,
                |i: int| Bit::Zero,
            )).push(Bit::Zero));
        }
        p = p + 1;
    }
    proof {
        assert(bits@ =~= pad_bits(prepad));
        assert(bits@.len() % 8 == 0) by {
            assert(bits@.len() == prepad.len() + pad_len(prepad.len()));
        }
    }
    Some(Opcode { bits })
}

} // verus!
