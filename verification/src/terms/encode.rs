//! Serialisation of terms to the tagged wire bytes of the external format.
//!
//! The wire layout is specified by spec functions over the term view; every
//! encoding function is verified to append exactly the specified bytes.

use vstd::prelude::*;
use vstd::arithmetic::div_mod::lemma_div_by_multiple;
use vstd::arithmetic::div_mod::lemma_div_denominator;
use vstd::arithmetic::div_mod::lemma_mod_add_multiples_vanish;
use vstd::arithmetic::div_mod::lemma_small_mod;
use vstd::string::StrSliceExecFns;
use vstd::utf8::encode_utf8;

use crate::error::Error;
use crate::terms::EAtom;
use crate::terms::EBinary;
use crate::terms::EExport;
use crate::terms::EFloat;
use crate::terms::EInteger;
use crate::terms::EList;
use crate::terms::EMap;
use crate::terms::ENil;
use crate::terms::ENonProperList;
use crate::terms::EPid;
use crate::terms::EPort;
use crate::terms::EString;
use crate::terms::ETuple;
use crate::terms::Term;
use crate::terms::TermV;
use crate::terms::canonical_bytes;
use crate::terms::float_finite;
use crate::terms::pair_views;
use crate::terms::term_view;
use crate::terms::term_views;

verus! {

/// The value of a byte sequence read least-significant byte first, as the
/// big-integer layouts of the format store magnitudes.
pub open spec fn le_value(s: Seq<u8>) -> nat
    decreases s.len(),
{
    if s.len() == 0 {
        0
    } else {
        (s[0] + 256 * le_value(s.subrange(1, s.len() as int))) as nat
    }
}

/// 256 raised to the given power.
pub open spec fn pow256(n: nat) -> nat
    decreases n,
{
    if n == 0 {
        1
    } else {
        256 * pow256((n - 1) as nat)
    }
}

/// The `w` low-order bytes of a value, most significant first.
pub open spec fn be_bytes(v: nat, w: nat) -> Seq<u8>
    decreases w,
{
    if w == 0 {
        Seq::empty()
    } else {
        be_bytes(v / 256, (w - 1) as nat) + seq![(v % 256) as u8]
    }
}

/// The shortest least-significant-first byte sequence denoting a value:
/// the magnitude bytes that the big-integer layouts carry.
pub open spec fn min_le_bytes(v: nat) -> Seq<u8>
    decreases v,
{
    if v == 0 {
        Seq::empty()
    } else {
        seq![(v % 256) as u8] + min_le_bytes(v / 256)
    }
}

/// The given sequence with its trailing (most significant) zero bytes
/// removed.
pub open spec fn trim_bytes(s: Seq<u8>) -> Seq<u8>
    decreases s.len(),
{
    if s.len() == 0 {
        s
    } else if s[s.len() - 1] == 0 {
        trim_bytes(s.subrange(0, s.len() - 1))
    } else {
        s
    }
}

/// The absolute value.
pub open spec fn abs_nat(n: int) -> nat {
    if n < 0 {
        (-n) as nat
    } else {
        n as nat
    }
}

/// The sign byte of the big-integer layouts: one for a negative value,
/// zero otherwise.
pub open spec fn sign_byte(n: int) -> u8 {
    if n < 0 {
        1u8
    } else {
        0u8
    }
}

/// The signed value denoted by a sign flag and magnitude bytes.
pub open spec fn int_v(negative: bool, magnitude: Seq<u8>) -> int {
    if negative {
        -(le_value(magnitude) as int)
    } else {
        le_value(magnitude) as int
    }
}

/// The wire bytes of an integer, by the ordered minimum-width rule of the
/// format: one unsigned byte under the small-integer tag when the value
/// fits; four signed big-endian bytes under the integer tag when the value
/// fits; otherwise a big-integer layout, small when the magnitude takes at
/// most 255 bytes and large otherwise.
pub open spec fn int_wire(n: int) -> Seq<u8> {
    if 0 <= n <= 255 {
        seq![97u8, n as u8]
    } else if -0x8000_0000 <= n < 0x8000_0000 {
        seq![98u8] + be_bytes(((n + 0x1_0000_0000) % 0x1_0000_0000) as nat, 4)
    } else if min_le_bytes(abs_nat(n)).len() <= 255 {
        seq![110u8, min_le_bytes(abs_nat(n)).len() as u8, sign_byte(n)] + min_le_bytes(abs_nat(n))
    } else {
        seq![111u8] + be_bytes(min_le_bytes(abs_nat(n)).len() as nat, 4) + seq![sign_byte(n)]
            + min_le_bytes(abs_nat(n))
    }
}

/// An integer is encodable when its magnitude byte count fits the
/// four-byte length field of the large big-integer layout.
pub open spec fn int_encodable(n: int) -> bool {
    min_le_bytes(abs_nat(n)).len() <= 0xFFFF_FFFF
}

/// Powers of 256 are positive.
pub proof fn lemma_pow256_pos(n: nat)
    ensures
        pow256(n) >= 1,
    decreases n,
{
    if n > 0 {
        lemma_pow256_pos((n - 1) as nat);
    }
}

/// A fixed-width byte sequence has its stated width.
pub proof fn lemma_be_bytes_len(v: nat, w: nat)
    ensures
        be_bytes(v, w).len() == w,
    decreases w,
{
    if w > 0 {
        lemma_be_bytes_len(v / 256, (w - 1) as nat);
    }
}

/// Powers of 256 are monotone in the exponent.
pub proof fn lemma_pow256_mono(a: nat, b: nat)
    requires
        a <= b,
    ensures
        pow256(a) <= pow256(b),
    decreases b,
{
    if a < b {
        lemma_pow256_mono(a, (b - 1) as nat);
        lemma_pow256_pos((b - 1) as nat);
    }
}

/// Appending a byte raises the value by that byte at the next power.
pub proof fn lemma_le_value_push(s: Seq<u8>, b: u8)
    ensures
        le_value(s.push(b)) == le_value(s) + pow256(s.len()) * b,
    decreases s.len(),
{
    if s.len() == 0 {
        assert(s.push(b) =~= seq![b]);
        assert(s.push(b).subrange(1, 1) =~= Seq::<u8>::empty());
        assert(le_value(s.push(b).subrange(1, 1)) == 0);
        assert(le_value(s.push(b)) == b);
        assert(pow256(s.len()) * b == b) by (nonlinear_arith)
            requires
                pow256(s.len()) == 1,
        ;
    } else {
        let rest = s.subrange(1, s.len() as int);
        assert(s.push(b).subrange(1, s.len() as int + 1) =~= rest.push(b));
        lemma_le_value_push(rest, b);
        assert(le_value(s.push(b)) == s[0] + 256 * le_value(rest.push(b)));
        assert(256 * (pow256(rest.len()) * b) == pow256(s.len()) * b) by (nonlinear_arith)
            requires
                256 * pow256(rest.len()) == pow256(s.len()),
        ;
    }
}

/// A sequence with a non-zero most significant byte denotes at least the
/// power of 256 below its length.
pub proof fn lemma_le_value_lower(s: Seq<u8>)
    requires
        s.len() > 0,
        s[s.len() - 1] != 0,
    ensures
        le_value(s) >= pow256((s.len() - 1) as nat),
    decreases s.len(),
{
    let rest = s.subrange(1, s.len() as int);
    if s.len() == 1 {
    } else {
        lemma_le_value_lower(rest);
        assert(256 * le_value(rest) >= 256 * pow256((rest.len() - 1) as nat)) by (
        nonlinear_arith)
            requires
                le_value(rest) >= pow256((rest.len() - 1) as nat),
        ;
    }
}

/// On a canonical sequence, taking the value and back yields the sequence.
pub proof fn lemma_min_le_of_canonical(s: Seq<u8>)
    requires
        canonical_bytes(s),
    ensures
        min_le_bytes(le_value(s)) == s,
    decreases s.len(),
{
    if s.len() == 0 {
        assert(min_le_bytes(0) =~= s);
    } else {
        let rest = s.subrange(1, s.len() as int);
        let v = le_value(s);
        lemma_le_value_lower(s);
        lemma_pow256_pos((s.len() - 1) as nat);
        assert(v > 0);
        assert(v == s[0] + 256 * le_value(rest));
        lemma_div_by_multiple(le_value(rest) as int, 256);
        assert(v % 256 == s[0] && v / 256 == le_value(rest)) by {
            assert(v == 256 * le_value(rest) + s[0]);
            assert(0 <= s[0] < 256);
        }
        if rest.len() > 0 {
            assert(rest[rest.len() - 1] == s[s.len() - 1]);
        }
        lemma_min_le_of_canonical(rest);
        assert(min_le_bytes(v) =~= seq![(v % 256) as u8] + min_le_bytes(v / 256));
        assert(min_le_bytes(v) =~= s);
    }
}

/// Taking the bytes of a value and reading them back yields the value.
pub proof fn lemma_le_of_min_le(v: nat)
    ensures
        le_value(min_le_bytes(v)) == v,
    decreases v,
{
    if v > 0 {
        lemma_le_of_min_le(v / 256);
        let s = min_le_bytes(v);
        assert(s =~= seq![(v % 256) as u8] + min_le_bytes(v / 256));
        assert(s.subrange(1, s.len() as int) =~= min_le_bytes(v / 256));
        assert(le_value(s) == v % 256 + 256 * (v / 256));
    }
}

/// The byte count of a value below a power of 256 is at most that power's
/// exponent.
pub proof fn lemma_min_le_len(v: nat, k: nat)
    requires
        v < pow256(k),
    ensures
        min_le_bytes(v).len() <= k,
    decreases k,
{
    if v > 0 {
        assert(k > 0);
        assert(v / 256 < pow256((k - 1) as nat)) by (nonlinear_arith)
            requires
                v < 256 * pow256((k - 1) as nat),
        ;
        lemma_min_le_len(v / 256, (k - 1) as nat);
    }
}

/// The magnitude bytes of a value never end in a zero byte.
pub proof fn lemma_min_le_canonical(v: nat)
    ensures
        canonical_bytes(min_le_bytes(v)),
    decreases v,
{
    if v > 0 {
        lemma_min_le_canonical(v / 256);
        let s = min_le_bytes(v);
        let rest = min_le_bytes(v / 256);
        if rest.len() == 0 {
            assert(v % 256 != 0);
            assert(s[s.len() - 1] == (v % 256) as u8);
        } else {
            assert(s[s.len() - 1] == rest[rest.len() - 1]);
        }
    }
}

/// Trimming keeps the denoted value.
pub proof fn lemma_trim_value(s: Seq<u8>)
    ensures
        le_value(trim_bytes(s)) == le_value(s),
        canonical_bytes(trim_bytes(s)),
        trim_bytes(s).len() <= s.len(),
    decreases s.len(),
{
    if s.len() > 0 && s[s.len() - 1] == 0 {
        let head = s.subrange(0, s.len() - 1);
        lemma_trim_value(head);
        assert(s =~= head.push(0u8));
        lemma_le_value_push(head, 0u8);
        assert(pow256(head.len()) * 0 == 0) by (nonlinear_arith);
    }
}

/// A position below which a sequence is untouched by trimming: everything
/// at or above the position is zero, and the byte just below it, if any,
/// is not.
pub proof fn lemma_trim_at(s: Seq<u8>, tl: int)
    requires
        0 <= tl <= s.len(),
        forall|j: int| tl <= j < s.len() ==> s[j] == 0,
        tl == 0 || s[tl - 1] != 0,
    ensures
        trim_bytes(s) == s.subrange(0, tl),
    decreases s.len(),
{
    if s.len() == tl {
        assert(s.subrange(0, tl) =~= s);
    } else {
        assert(s[s.len() - 1] == 0);
        let head = s.subrange(0, s.len() - 1);
        lemma_trim_at(head, tl);
        assert(head.subrange(0, tl) =~= s.subrange(0, tl));
    }
}

/// The minimum-width law of integer encoding: the wire form carries the
/// narrowest applicable layout, tried in the format's order.  Byte
/// values take the one-byte layout; the remaining 32-bit signed values
/// take the four-byte layout; the remaining values whose magnitude fits
/// 255 bytes take the small big-integer layout; everything wider takes
/// the large one.
pub proof fn lemma_minimum_width(n: int)
    ensures
        0 <= n <= 255 ==> int_wire(n) == seq![97u8, n as u8],
        !(0 <= n <= 255) && -0x8000_0000 <= n < 0x8000_0000 ==> int_wire(n) == seq![98u8]
            + be_bytes(((n + 0x1_0000_0000) % 0x1_0000_0000) as nat, 4),
        !(-0x8000_0000 <= n < 0x8000_0000) && min_le_bytes(abs_nat(n)).len() <= 255 ==> int_wire(
            n,
        )[0] == 110,
        min_le_bytes(abs_nat(n)).len() > 255 ==> int_wire(n)[0] == 111,
{
    if min_le_bytes(abs_nat(n)).len() > 255 {
        reveal_with_fuel(pow256, 5);
        if -0x8000_0000 <= n < 0x8000_0000 {
            lemma_min_le_len(abs_nat(n), 4);
        }
    }
}

/// Appends one byte.
fn push_byte(out: &mut Vec<u8>, b: u8)
    ensures
        final(out)@ == old(out)@ + seq![b],
{
    out.push(b);
    proof {
        assert(out@ =~= old(out)@ + seq![b]);
    }
}

/// Appends a value as two big-endian bytes.
fn push_u16_be(out: &mut Vec<u8>, x: u16)
    ensures
        final(out)@ == old(out)@ + be_bytes(x as nat, 2),
{
    out.push((x / 256) as u8);
    out.push((x % 256) as u8);
    proof {
        reveal_with_fuel(be_bytes, 3);
        assert(be_bytes(x as nat, 2) =~= seq![(x / 256) as u8, (x % 256) as u8]);
        assert(out@ =~= old(out)@ + be_bytes(x as nat, 2));
    }
}

/// Appends a value as four big-endian bytes.
fn push_u32_be(out: &mut Vec<u8>, x: u32)
    ensures
        final(out)@ == old(out)@ + be_bytes(x as nat, 4),
{
    out.push((x / 0x100_0000) as u8);
    out.push(((x / 0x1_0000) % 256) as u8);
    out.push(((x / 256) % 256) as u8);
    out.push((x % 256) as u8);
    proof {
        reveal_with_fuel(be_bytes, 5);
        lemma_div_denominator(x as int, 256, 256);
        lemma_div_denominator(x as int, 0x1_0000, 256);
        assert(be_bytes(x as nat, 4) =~= seq![
            (x / 0x100_0000) as u8,
            ((x / 0x1_0000) % 256) as u8,
            ((x / 256) % 256) as u8,
            (x % 256) as u8,
        ]);
        assert(out@ =~= old(out)@ + be_bytes(x as nat, 4));
    }
}

/// Appends a value as eight big-endian bytes.
fn push_u64_be(out: &mut Vec<u8>, x: u64)
    ensures
        final(out)@ == old(out)@ + be_bytes(x as nat, 8),
{
    out.push((x / 0x100_0000_0000_0000) as u8);
    out.push(((x / 0x1_0000_0000_0000) % 256) as u8);
    out.push(((x / 0x100_0000_0000) % 256) as u8);
    out.push(((x / 0x1_0000_0000) % 256) as u8);
    out.push(((x / 0x100_0000) % 256) as u8);
    out.push(((x / 0x1_0000) % 256) as u8);
    out.push(((x / 256) % 256) as u8);
    out.push((x % 256) as u8);
    proof {
        reveal_with_fuel(be_bytes, 9);
        lemma_div_denominator(x as int, 256, 256);
        lemma_div_denominator(x as int, 0x1_0000, 256);
        lemma_div_denominator(x as int, 0x100_0000, 256);
        lemma_div_denominator(x as int, 0x1_0000_0000, 256);
        lemma_div_denominator(x as int, 0x100_0000_0000, 256);
        lemma_div_denominator(x as int, 0x1_0000_0000_0000, 256);
        assert(be_bytes(x as nat, 8) =~= seq![
            (x / 0x100_0000_0000_0000) as u8,
            ((x / 0x1_0000_0000_0000) % 256) as u8,
            ((x / 0x100_0000_0000) % 256) as u8,
            ((x / 0x1_0000_0000) % 256) as u8,
            ((x / 0x100_0000) % 256) as u8,
            ((x / 0x1_0000) % 256) as u8,
            ((x / 256) % 256) as u8,
            (x % 256) as u8,
        ]);
        assert(out@ =~= old(out)@ + be_bytes(x as nat, 8));
    }
}

/// Appends the first `n` bytes of a sequence.
fn push_prefix(out: &mut Vec<u8>, src: &Vec<u8>, n: usize)
    requires
        n <= src.len(),
    ensures
        final(out)@ == old(out)@ + src@.subrange(0, n as int),
{
    let mut i: usize = 0;
    while i < n
        invariant
            i <= n <= src.len(),
            out@ == old(out)@ + src@.subrange(0, i as int),
        decreases n - i,
    {
        out.push(src[i]);
        proof {
            assert(src@.subrange(0, i + 1) =~= src@.subrange(0, i as int).push(src@[i as int]));
            assert(out@ =~= old(out)@ + src@.subrange(0, i + 1));
        }
        i = i + 1;
    }
}

/// The length of the trimmed form of a byte vector: the count of its bytes
/// up to and including the most significant non-zero one.
pub(crate) fn trimmed_len(v: &Vec<u8>) -> (r: usize)
    ensures
        r <= v.len(),
        trim_bytes(v@) == v@.subrange(0, r as int),
        canonical_bytes(v@.subrange(0, r as int)),
{
    let mut r: usize = v.len();
    while r > 0 && v[r - 1] == 0
        invariant
            r <= v.len(),
            forall|j: int| r <= j < v@.len() ==> v@[j] == 0,
        decreases r,
    {
        r = r - 1;
    }
    proof {
        lemma_trim_at(v@, r as int);
    }
    r
}

/// Reads the value of the first `n` (at most eight) bytes of a vector,
/// least significant first.
fn le_value_prefix(v: &Vec<u8>, n: usize) -> (r: u64)
    requires
        n <= v.len(),
        n <= 8,
    ensures
        r == le_value(v@.subrange(0, n as int)),
{
    let mut acc: u64 = 0;
    let mut shift: u64 = 1;
    let mut i: usize = 0;
    while i < n
        invariant
            i <= n <= v.len(),
            n <= 8,
            i < n ==> shift == pow256(i as nat),
            acc == le_value(v@.subrange(0, i as int)),
            acc < pow256(i as nat),
        decreases n - i,
    {
        proof {
            reveal_with_fuel(pow256, 9);
            lemma_pow256_pos(i as nat);
            assert(pow256((i + 1) as nat) == 256 * pow256(i as nat));
            assert(v@.subrange(0, i + 1) =~= v@.subrange(0, i as int).push(v@[i as int]));
            lemma_le_value_push(v@.subrange(0, i as int), v@[i as int]);
            assert(acc + pow256(i as nat) * (v@[i as int] as nat) < pow256((i + 1) as nat)) by (
            nonlinear_arith)
                requires
                    acc < pow256(i as nat),
                    (v@[i as int] as nat) < 256,
                    pow256((i + 1) as nat) == 256 * pow256(i as nat),
                    pow256(i as nat) >= 1,
            ;
            assert(pow256(8) == 0x1_0000_0000_0000_0000);
            lemma_pow256_mono((i + 1) as nat, 8);
            assert(acc as nat + (v@[i as int] as nat) * (shift as nat) < pow256((i + 1) as nat))
                by (nonlinear_arith)
                requires
                    acc < pow256(i as nat),
                    (v@[i as int] as nat) < 256,
                    shift == pow256(i as nat),
                    pow256((i + 1) as nat) == 256 * pow256(i as nat),
            ;
            assert((v@[i as int] as nat) * (shift as nat) == pow256(i as nat) * (
            v@[i as int] as nat)) by (nonlinear_arith)
                requires
                    shift == pow256(i as nat),
            ;
            if i + 1 < n {
                lemma_pow256_mono((i + 1) as nat, 7);
                assert(pow256(7) == 0x100_0000_0000_0000);
            }
        }
        acc = acc + (v[i] as u64) * shift;
        if i + 1 < n {
            shift = shift * 256;
        }
        i = i + 1;
    }
    acc
}

/// Appends the wire bytes of the integer denoted by a sign and magnitude
/// bytes (least significant first, in any form: trailing zero bytes are
/// ignored), choosing the narrowest layout that the format's ordered rule
/// allows.  Fails only when the magnitude needs more bytes than the
/// four-byte length field of the large big-integer layout can state.
pub fn write_integer(negative: bool, magnitude: &Vec<u8>, out: &mut Vec<u8>) -> (r: Result<
    usize,
    Error,
>)
    ensures
        match r {
            Ok(n) => int_encodable(int_v(negative, magnitude@)) && final(out)@ == old(out)@
                + int_wire(int_v(negative, magnitude@)) && n == int_wire(
                int_v(negative, magnitude@),
            ).len(),
            Err(e) => !int_encodable(int_v(negative, magnitude@)) && e is Message,
        },
{
    let ghost n_int = int_v(negative, magnitude@);
    let start = out.len();
    let tl = trimmed_len(magnitude);
    let ghost tm = magnitude@.subrange(0, tl as int);
    proof {
        lemma_trim_value(magnitude@);
        lemma_min_le_of_canonical(tm);
        assert(le_value(tm) == le_value(magnitude@));
        assert(abs_nat(n_int) == le_value(tm));
        assert(min_le_bytes(abs_nat(n_int)) == tm);
        reveal_with_fuel(pow256, 5);
        reveal_with_fuel(le_value, 3);
        if tl >= 1 {
            lemma_le_value_lower(tm);
        }
    }
    if tl == 0 {
        push_byte(out, 97);
        push_byte(out, 0);
        proof {
            assert(n_int == 0);
            assert(int_wire(n_int) =~= seq![97u8, 0u8]);
            assert(out@ =~= old(out)@ + int_wire(n_int));
        }
        Ok(2)
    } else if !negative && tl == 1 {
        let b = magnitude[0];
        push_byte(out, 97);
        push_byte(out, b);
        proof {
            reveal_with_fuel(le_value, 3);
            assert(tm =~= seq![b]);
            assert(tm.subrange(1, 1) =~= Seq::<u8>::empty());
            assert(le_value(tm) == b);
            assert(int_wire(n_int) =~= seq![97u8, b]);
            assert(out@ =~= old(out)@ + int_wire(n_int));
        }
        Ok(2)
    } else {
        let mut in32 = false;
        let mut comp: u32 = 0;
        if tl <= 4 {
            let m = le_value_prefix(magnitude, tl);
            proof {
                lemma_pow256_mono(tl as nat, 4);
                assert(m == le_value(tm));
            }
            if !negative && m < 0x8000_0000 {
                in32 = true;
                comp = m as u32;
                proof {
                    lemma_small_mod(m as nat, 0x1_0000_0000);
                    lemma_mod_add_multiples_vanish(m as int, 0x1_0000_0000);
                    assert(((n_int + 0x1_0000_0000) % 0x1_0000_0000) as nat == comp as nat);
                }
            } else if negative && m <= 0x8000_0000 {
                in32 = true;
                comp = (0x1_0000_0000u64 - m) as u32;
                proof {
                    assert(n_int == -(m as int));
                    assert(n_int + 0x1_0000_0000 == comp as int);
                    lemma_small_mod(comp as nat, 0x1_0000_0000);
                    assert(((n_int + 0x1_0000_0000) % 0x1_0000_0000) as nat == comp as nat);
                }
            }
        }
        if in32 {
            push_byte(out, 98);
            push_u32_be(out, comp);
            proof {
                lemma_be_bytes_len(((n_int + 0x1_0000_0000) % 0x1_0000_0000) as nat, 4);
                if tl >= 2 {
                    assert(le_value(tm) >= pow256((tl - 1) as nat) >= 256);
                }
                assert(!(0 <= n_int <= 255));
                assert(-0x8000_0000 <= n_int < 0x8000_0000);
                assert(int_wire(n_int) =~= seq![98u8] + be_bytes(
                    ((n_int + 0x1_0000_0000) % 0x1_0000_0000) as nat,
                    4,
                ));
                assert(out@ =~= old(out)@ + int_wire(n_int));
            }
            Ok(5)
        } else {
            proof {
                // Too wide for the one-byte and four-byte layouts: either
                // at least five magnitude bytes, or a four-byte read that
                // missed the signed 32-bit range.
                if tl >= 5 {
                    lemma_pow256_mono(4, (tl - 1) as nat);
                    assert(le_value(tm) >= pow256(4));
                }
                assert(!(0 <= n_int <= 255));
                assert(!(-0x8000_0000 <= n_int < 0x8000_0000));
            }
            let sign: u8 = if negative {
                1
            } else {
                0
            };
            if tl <= 255 {
                push_byte(out, 110);
                push_byte(out, tl as u8);
                push_byte(out, sign);
                push_prefix(out, magnitude, tl);
                proof {
                    assert(int_wire(n_int) =~= seq![110u8, tl as u8, sign] + tm);
                    assert(out@ =~= old(out)@ + int_wire(n_int));
                }
                Ok(out.len() - start)
            } else if tl as u64 <= 0xFFFF_FFFF {
                push_byte(out, 111);
                push_u32_be(out, tl as u32);
                push_byte(out, sign);
                push_prefix(out, magnitude, tl);
                proof {
                    lemma_be_bytes_len(tl as nat, 4);
                    assert(int_wire(n_int) =~= seq![111u8] + be_bytes(tl as nat, 4) + seq![sign]
                        + tm);
                    assert(out@ =~= old(out)@ + int_wire(n_int));
                }
                Ok(out.len() - start)
            } else {
                Err(Error::Message("integer magnitude exceeds the length ceiling of the format".to_owned()))
            }
        }
    }
}

/// The absolute value of a signed 128-bit integer, without overflow on the
/// smallest value.
pub fn lossless_abs(num: i128) -> (r: u128)
    ensures
        r == abs_nat(num as int),
{
    if num >= 0 {
        num as u128
    } else {
        ((-(num + 1)) as u128) + 1
    }
}

/// The magnitude bytes of a value, least significant first, trimmed.
pub(crate) fn magnitude_bytes_u128(m: u128) -> (r: Vec<u8>)
    ensures
        r@ == min_le_bytes(m as nat),
{
    let mut digits: Vec<u8> = Vec::new();
    let mut cur: u128 = m;
    while cur != 0
        invariant
            min_le_bytes(m as nat) == digits@ + min_le_bytes(cur as nat),
        decreases cur,
    {
        proof {
            assert(min_le_bytes(cur as nat) =~= seq![(cur as nat % 256) as u8] + min_le_bytes(
                cur as nat / 256,
            ));
            assert(digits@.push((cur % 256) as u8) + min_le_bytes(cur as nat / 256) =~= digits@
                + min_le_bytes(cur as nat));
        }
        digits.push((cur % 256) as u8);
        cur = cur / 256;
    }
    proof {
        assert(digits@ + min_le_bytes(0) =~= digits@);
    }
    digits
}

/// Appends the wire bytes of a signed value whose magnitude fits 128 bits.
/// Such a value always fits one of the integer layouts.
pub fn write_int_u128(negative: bool, m: u128, out: &mut Vec<u8>) -> (n: usize)
    ensures
        final(out)@ == old(out)@ + int_wire(
            if negative {
                -(m as int)
            } else {
                m as int
            },
        ),
        n == int_wire(
            if negative {
                -(m as int)
            } else {
                m as int
            },
        ).len(),
{
    let digits = magnitude_bytes_u128(m);
    let ghost n_int: int = if negative {
        -(m as int)
    } else {
        m as int
    };
    proof {
        lemma_le_of_min_le(m as nat);
        assert(int_v(negative, digits@) == n_int);
        reveal_with_fuel(pow256, 17);
        assert(pow256(16) == 0x1_0000_0000_0000_0000_0000_0000_0000_0000);
        lemma_min_le_len(m as nat, 16);
        assert(int_encodable(n_int));
    }
    match write_integer(negative, &digits, out) {
        Ok(n) => n,
        Err(_) => {
            proof {
                assert(false);
            }
            0
        },
    }
}

/// The wire bytes of an atom: its UTF-8 bytes under the one-byte-length
/// tag when they number at most 255, under the two-byte-length tag
/// otherwise.
pub open spec fn atom_wire(s: Seq<char>) -> Seq<u8> {
    let b = encode_utf8(s);
    if b.len() <= 255 {
        seq![119u8, b.len() as u8] + b
    } else {
        seq![118u8] + be_bytes(b.len(), 2) + b
    }
}

/// An atom is encodable when its UTF-8 byte length fits the two-byte
/// length field.
pub open spec fn atom_encodable(s: Seq<char>) -> bool {
    encode_utf8(s).len() <= 0xFFFF
}

/// The wire bytes of a sequence of bytes written as small-integer terms,
/// one per byte: how text too long for the byte-list layout is carried
/// inside a plain list.
pub open spec fn byte_elems_wire(b: Seq<u8>) -> Seq<u8>
    decreases b.len(),
{
    if b.len() == 0 {
        Seq::empty()
    } else {
        seq![97u8, b[0]] + byte_elems_wire(b.subrange(1, b.len() as int))
    }
}

/// The wire bytes of a term.  This is the specification that the encoder
/// is verified against, byte for byte.
pub open spec fn wire(v: TermV) -> Seq<u8>
    decreases v, 1int,
{
    match v {
        TermV::Nil => seq![106u8],
        TermV::List(es) => if es.len() == 0 {
            seq![106u8]
        } else {
            seq![108u8] + be_bytes(es.len(), 4) + elems_wire(es) + seq![106u8]
        },
        TermV::Improper(es, tail) => seq![108u8] + be_bytes(es.len(), 4) + elems_wire(es) + wire(
            *tail,
        ),
        TermV::Atom(s) => atom_wire(s),
        TermV::Tuple(es) => if es.len() <= 255 {
            seq![104u8, es.len() as u8] + elems_wire(es)
        } else {
            seq![105u8] + be_bytes(es.len(), 4) + elems_wire(es)
        },
        TermV::Str(s) => {
            let b = encode_utf8(s);
            if b.len() <= 0xFFFF {
                seq![107u8] + be_bytes(b.len(), 2) + b
            } else {
                seq![108u8] + be_bytes(b.len(), 4) + byte_elems_wire(b) + seq![106u8]
            }
        },
        TermV::Mapping(ps) => seq![116u8] + be_bytes(ps.len(), 4) + pairs_wire(ps),
        TermV::Binary(b) => seq![109u8] + be_bytes(b.len(), 4) + b,
        TermV::Export { module, function, arity } => seq![113u8] + atom_wire(module) + atom_wire(
            function,
        ) + seq![97u8, arity],
        TermV::Port { node, id, creation } => seq![89u8] + atom_wire(node) + be_bytes(id as nat, 4)
            + be_bytes(creation as nat, 4),
        TermV::Pid { node, id, serial, creation } => seq![88u8] + atom_wire(node) + be_bytes(
            id as nat,
            4,
        ) + be_bytes(serial as nat, 4) + be_bytes(creation as nat, 4),
        TermV::Integer { negative, magnitude } => int_wire(int_v(negative, magnitude)),
        TermV::Float(bits) => seq![70u8] + be_bytes(bits as nat, 8),
    }
}

/// The concatenated wire bytes of a sequence of terms.
pub open spec fn elems_wire(vs: Seq<TermV>) -> Seq<u8>
    decreases vs, 0int,
{
    if vs.len() == 0 {
        Seq::empty()
    } else {
        wire(vs[0]) + elems_wire(vs.subrange(1, vs.len() as int))
    }
}

/// The concatenated wire bytes of a sequence of key/value pairs, keys and
/// values interleaved.
pub open spec fn pairs_wire(ps: Seq<(TermV, TermV)>) -> Seq<u8>
    decreases ps, 0int,
{
    if ps.len() == 0 {
        Seq::empty()
    } else {
        wire(ps[0].0) + wire(ps[0].1) + pairs_wire(ps.subrange(1, ps.len() as int))
    }
}

/// A term is encodable when every length in it fits its wire field: atom
/// text of at most 65535 UTF-8 bytes, element and byte counts that fit
/// four bytes, a finite float, and an integer magnitude of at most
/// 4294967295 bytes.
pub open spec fn encodable(v: TermV) -> bool
    decreases v, 1int,
{
    match v {
        TermV::Nil => true,
        TermV::List(es) => es.len() <= 0xFFFF_FFFF && elems_encodable(es),
        TermV::Improper(es, tail) => es.len() <= 0xFFFF_FFFF && elems_encodable(es) && encodable(
            *tail,
        ),
        TermV::Atom(s) => atom_encodable(s),
        TermV::Tuple(es) => es.len() <= 0xFFFF_FFFF && elems_encodable(es),
        TermV::Str(s) => encode_utf8(s).len() <= 0xFFFF_FFFF,
        TermV::Mapping(ps) => ps.len() <= 0xFFFF_FFFF && pairs_encodable(ps),
        TermV::Binary(b) => b.len() <= 0xFFFF_FFFF,
        TermV::Export { module, function, .. } => atom_encodable(module) && atom_encodable(
            function,
        ),
        TermV::Port { node, .. } => atom_encodable(node),
        TermV::Pid { node, .. } => atom_encodable(node),
        TermV::Integer { negative, magnitude } => int_encodable(int_v(negative, magnitude)),
        TermV::Float(bits) => float_finite(bits),
    }
}

/// Every term of the sequence is encodable.
pub open spec fn elems_encodable(vs: Seq<TermV>) -> bool
    decreases vs, 0int,
{
    forall|i: int| 0 <= i < vs.len() ==> encodable(#[trigger] vs[i])
}

/// Every key and value of the sequence is encodable.
pub open spec fn pairs_encodable(ps: Seq<(TermV, TermV)>) -> bool
    decreases ps, 0int,
{
    forall|i: int|
        0 <= i < ps.len() ==> encodable(#[trigger] ps[i].0) && encodable(ps[i].1)
}

/// The views of a term sequence, element by element.
pub proof fn lemma_term_views_index(s: Seq<Term>)
    ensures
        term_views(s).len() == s.len(),
        forall|i: int| 0 <= i < s.len() ==> #[trigger] term_views(s)[i] == term_view(s[i]),
    decreases s.len(),
{
    if s.len() > 0 {
        let rest = s.subrange(1, s.len() as int);
        lemma_term_views_index(rest);
        assert forall|i: int| 0 <= i < s.len() implies #[trigger] term_views(s)[i] == term_view(
            s[i],
        ) by {
            if i > 0 {
                assert(term_views(s)[i] == term_views(rest)[i - 1]);
                assert(rest[i - 1] == s[i]);
            }
        }
    }
}

/// The views of a pair sequence, pair by pair.
pub proof fn lemma_pair_views_index(s: Seq<(Term, Term)>)
    ensures
        pair_views(s).len() == s.len(),
        forall|i: int|
            0 <= i < s.len() ==> #[trigger] pair_views(s)[i] == (
                term_view(s[i].0),
                term_view(s[i].1),
            ),
    decreases s.len(),
{
    if s.len() > 0 {
        let rest = s.subrange(1, s.len() as int);
        lemma_pair_views_index(rest);
        assert forall|i: int| 0 <= i < s.len() implies #[trigger] pair_views(s)[i] == (
            term_view(s[i].0),
            term_view(s[i].1),
        ) by {
            if i > 0 {
                assert(pair_views(s)[i] == pair_views(rest)[i - 1]);
                assert(rest[i - 1] == s[i]);
            }
        }
    }
}

/// The views of a term sequence extended by one term.
pub proof fn lemma_term_views_push(s: Seq<Term>, x: Term)
    ensures
        term_views(s.push(x)) == term_views(s).push(term_view(x)),
{
    lemma_term_views_index(s);
    lemma_term_views_index(s.push(x));
    assert forall|i: int| 0 <= i < s.len() + 1 implies term_views(s.push(x))[i] == term_views(
        s,
    ).push(term_view(x))[i] by {
        if i < s.len() {
            assert(s.push(x)[i] == s[i]);
        } else {
            assert(s.push(x)[i] == x);
        }
    }
    assert(term_views(s.push(x)) =~= term_views(s).push(term_view(x)));
}

/// The views of a pair sequence extended by one pair.
pub proof fn lemma_pair_views_push(s: Seq<(Term, Term)>, x: (Term, Term))
    ensures
        pair_views(s.push(x)) == pair_views(s).push((term_view(x.0), term_view(x.1))),
{
    lemma_pair_views_index(s);
    lemma_pair_views_index(s.push(x));
    assert forall|i: int| 0 <= i < s.len() + 1 implies pair_views(s.push(x))[i] == pair_views(
        s,
    ).push((term_view(x.0), term_view(x.1)))[i] by {
        if i < s.len() {
            assert(s.push(x)[i] == s[i]);
        } else {
            assert(s.push(x)[i] == x);
        }
    }
    assert(pair_views(s.push(x)) =~= pair_views(s).push((term_view(x.0), term_view(x.1))));
}

/// The wire bytes of a sequence extended by one term.
pub proof fn lemma_elems_wire_push(vs: Seq<TermV>, v: TermV)
    ensures
        elems_wire(vs.push(v)) == elems_wire(vs) + wire(v),
    decreases vs.len(),
{
    reveal_with_fuel(elems_wire, 3);
    if vs.len() == 0 {
        assert(vs.push(v) =~= seq![v]);
        assert(vs.push(v).subrange(1, 1) =~= Seq::<TermV>::empty());
        assert(elems_wire(vs.push(v)) =~= elems_wire(vs) + wire(v));
    } else {
        let rest = vs.subrange(1, vs.len() as int);
        assert(vs.push(v).subrange(1, vs.len() as int + 1) =~= rest.push(v));
        lemma_elems_wire_push(rest, v);
        assert(vs.push(v)[0] == vs[0]);
        assert(elems_wire(vs.push(v)) == wire(vs[0]) + elems_wire(rest.push(v)));
        assert(elems_wire(vs.push(v)) =~= elems_wire(vs) + wire(v));
    }
}

/// The wire bytes of a pair sequence extended by one pair.
pub proof fn lemma_pairs_wire_push(ps: Seq<(TermV, TermV)>, p: (TermV, TermV))
    ensures
        pairs_wire(ps.push(p)) == pairs_wire(ps) + wire(p.0) + wire(p.1),
    decreases ps.len(),
{
    reveal_with_fuel(pairs_wire, 3);
    if ps.len() == 0 {
        assert(ps.push(p) =~= seq![p]);
        assert(ps.push(p).subrange(1, 1) =~= Seq::<(TermV, TermV)>::empty());
        assert(pairs_wire(ps.push(p)) =~= pairs_wire(ps) + wire(p.0) + wire(p.1));
    } else {
        let rest = ps.subrange(1, ps.len() as int);
        assert(ps.push(p).subrange(1, ps.len() as int + 1) =~= rest.push(p));
        lemma_pairs_wire_push(rest, p);
        assert(ps.push(p)[0] == ps[0]);
        assert(pairs_wire(ps.push(p)) == wire(ps[0].0) + wire(ps[0].1) + pairs_wire(rest.push(p)));
        assert(pairs_wire(ps.push(p)) =~= pairs_wire(ps) + wire(p.0) + wire(p.1));
    }
}

/// The byte-as-small-integer wire of a sequence extended by one byte.
pub proof fn lemma_byte_elems_wire_push(b: Seq<u8>, x: u8)
    ensures
        byte_elems_wire(b.push(x)) == byte_elems_wire(b) + seq![97u8, x],
    decreases b.len(),
{
    reveal_with_fuel(byte_elems_wire, 3);
    if b.len() == 0 {
        assert(b.push(x) =~= seq![x]);
        assert(b.push(x).subrange(1, 1) =~= Seq::<u8>::empty());
        assert(byte_elems_wire(b.push(x)) =~= byte_elems_wire(b) + seq![97u8, x]);
    } else {
        let rest = b.subrange(1, b.len() as int);
        assert(b.push(x).subrange(1, b.len() as int + 1) =~= rest.push(x));
        lemma_byte_elems_wire_push(rest, x);
        assert(b.push(x)[0] == b[0]);
        assert(byte_elems_wire(b.push(x)) == seq![97u8, b[0]] + byte_elems_wire(rest.push(x)));
        assert(byte_elems_wire(b.push(x)) =~= byte_elems_wire(b) + seq![97u8, x]);
    }
}

/// Appends the wire bytes of an atom.  An atom whose UTF-8 text exceeds
/// 65535 bytes has no wire form; the error carries the atom's text, and
/// nothing is written to the sink.
pub fn write_atom(a: &EAtom, out: &mut Vec<u8>) -> (r: Result<usize, Error>)
    ensures
        match r {
            Ok(n) => atom_encodable(a.0@) && final(out)@ == old(out)@ + atom_wire(a.0@) && n
                == atom_wire(a.0@).len(),
            Err(e) => !atom_encodable(a.0@) && final(out)@ == old(out)@ && match e {
                Error::Message(m) => m@ == a.0@,
                Error::Io(_) => false,
            },
        },
{
    let start = out.len();
    let bytes = a.0.as_str().as_bytes_vec();
    if bytes.len() <= 255 {
        push_byte(out, 119);
        push_byte(out, bytes.len() as u8);
        push_prefix(out, &bytes, bytes.len());
        proof {
            assert(bytes@.subrange(0, bytes@.len() as int) =~= bytes@);
            assert(out@ =~= old(out)@ + atom_wire(a.0@));
        }
        Ok(out.len() - start)
    } else if bytes.len() <= 65535 {
        push_byte(out, 118);
        push_u16_be(out, bytes.len() as u16);
        push_prefix(out, &bytes, bytes.len());
        proof {
            lemma_be_bytes_len(bytes@.len(), 2);
            assert(bytes@.subrange(0, bytes@.len() as int) =~= bytes@);
            assert(out@ =~= old(out)@ + atom_wire(a.0@));
        }
        Ok(out.len() - start)
    } else {
        Err(Error::Message(a.0.clone()))
    }
}

/// Appends the wire bytes of a float.  A bit pattern whose exponent field
/// is all ones denotes an infinity or a NaN and is rejected as not
/// encodable: nothing is written to the sink, and the value is never
/// coerced.
pub fn write_float(f: &EFloat, out: &mut Vec<u8>) -> (r: Result<usize, Error>)
    ensures
        match r {
            Ok(n) => float_finite(f.0) && final(out)@ == old(out)@ + seq![70u8] + be_bytes(
                f.0 as nat,
                8,
            ) && n == 9,
            Err(e) => !float_finite(f.0) && final(out)@ == old(out)@ && e is Message,
        },
{
    if (f.0 >> 52u64) & 0x7ff != 0x7ff {
        push_byte(out, 70);
        push_u64_be(out, f.0);
        proof {
            lemma_be_bytes_len(f.0 as nat, 8);
            assert(out@ =~= old(out)@ + seq![70u8] + be_bytes(f.0 as nat, 8));
        }
        Ok(9)
    } else {
        Err(Error::Message("the value is not finite and has no wire form".to_owned()))
    }
}

/// Appends the wire bytes of each term of a vector in order, stopping at
/// the first term that has no wire form.
pub fn write_elems(elems: &Vec<Term>, out: &mut Vec<u8>) -> (r: Result<usize, Error>)
    ensures
        match r {
            Ok(n) => elems_encodable(term_views(elems@)) && final(out)@ == old(out)@ + elems_wire(
                term_views(elems@),
            ) && n == elems_wire(term_views(elems@)).len(),
            Err(e) => !elems_encodable(term_views(elems@)) && e is Message,
        },
    decreases elems@,
{
    let start = out.len();
    proof {
        lemma_term_views_index(elems@);
    }
    let mut i: usize = 0;
    while i < elems.len()
        invariant
            i <= elems@.len(),
            start == old(out)@.len(),
            term_views(elems@).len() == elems@.len(),
            forall|j: int|
                0 <= j < elems@.len() ==> #[trigger] term_views(elems@)[j] == term_view(
                    elems@[j],
                ),
            out@ == old(out)@ + elems_wire(term_views(elems@).subrange(0, i as int)),
            forall|j: int| 0 <= j < i ==> encodable(#[trigger] term_views(elems@)[j]),
        decreases elems@.len() - i,
    {
        match write_term(&elems[i], out) {
            Ok(_) => {},
            Err(e) => {
                proof {
                    assert(!encodable(term_views(elems@)[i as int]));
                }
                return Err(e);
            },
        }
        proof {
            let vs = term_views(elems@);
            assert(vs.subrange(0, i + 1) =~= vs.subrange(0, i as int).push(vs[i as int]));
            lemma_elems_wire_push(vs.subrange(0, i as int), vs[i as int]);
            assert(out@ =~= old(out)@ + elems_wire(vs.subrange(0, i + 1)));
        }
        i = i + 1;
    }
    proof {
        assert(term_views(elems@).subrange(0, i as int) =~= term_views(elems@));
    }
    Ok(out.len() - start)
}

/// Appends the wire bytes of each key/value pair of a vector, keys and
/// values interleaved, stopping at the first term that has no wire form.
pub fn write_pairs(pairs: &Vec<(Term, Term)>, out: &mut Vec<u8>) -> (r: Result<usize, Error>)
    ensures
        match r {
            Ok(n) => pairs_encodable(pair_views(pairs@)) && final(out)@ == old(out)@ + pairs_wire(
                pair_views(pairs@),
            ) && n == pairs_wire(pair_views(pairs@)).len(),
            Err(e) => !pairs_encodable(pair_views(pairs@)) && e is Message,
        },
    decreases pairs@,
{
    let start = out.len();
    proof {
        lemma_pair_views_index(pairs@);
    }
    let mut i: usize = 0;
    while i < pairs.len()
        invariant
            i <= pairs@.len(),
            start == old(out)@.len(),
            pair_views(pairs@).len() == pairs@.len(),
            forall|j: int|
                0 <= j < pairs@.len() ==> #[trigger] pair_views(pairs@)[j] == (
                    term_view(pairs@[j].0),
                    term_view(pairs@[j].1),
                ),
            out@ == old(out)@ + pairs_wire(pair_views(pairs@).subrange(0, i as int)),
            forall|j: int|
                0 <= j < i ==> encodable(#[trigger] pair_views(pairs@)[j].0) && encodable(
                    pair_views(pairs@)[j].1,
                ),
        decreases pairs@.len() - i,
    {
        match write_term(&pairs[i].0, out) {
            Ok(_) => {},
            Err(e) => {
                proof {
                    assert(!pairs_encodable(pair_views(pairs@))) by {
                        assert(pair_views(pairs@)[i as int].0 == term_view(pairs@[i as int].0));
                        assert(!encodable(pair_views(pairs@)[i as int].0));
                    }
                }
                return Err(e);
            },
        }
        match write_term(&pairs[i].1, out) {
            Ok(_) => {},
            Err(e) => {
                proof {
                    assert(!pairs_encodable(pair_views(pairs@))) by {
                        assert(pair_views(pairs@)[i as int].1 == term_view(pairs@[i as int].1));
                        assert(!encodable(pair_views(pairs@)[i as int].1));
                    }
                }
                return Err(e);
            },
        }
        proof {
            let ps = pair_views(pairs@);
            assert(ps.subrange(0, i + 1) =~= ps.subrange(0, i as int).push(ps[i as int]));
            lemma_pairs_wire_push(ps.subrange(0, i as int), ps[i as int]);
            assert(out@ =~= old(out)@ + pairs_wire(ps.subrange(0, i + 1)));
            assert(ps[i as int] == (term_view(pairs@[i as int].0), term_view(pairs@[i as int].1)));
            assert(encodable(ps[i as int].0) && encodable(ps[i as int].1));
        }
        i = i + 1;
    }
    proof {
        assert(pair_views(pairs@).subrange(0, i as int) =~= pair_views(pairs@));
    }
    Ok(out.len() - start)
}

/// Appends the wire bytes of one term: the tag byte of the narrowest
/// applicable layout, then the layout's fields, recursing into child
/// terms.  On an error nothing is promised of the sink's contents beyond
/// what was already written: a failing walk leaves its partial bytes, as
/// the format's writers conventionally do.
#[verifier::rlimit(60)]
pub fn write_term(t: &Term, out: &mut Vec<u8>) -> (r: Result<usize, Error>)
    ensures
        match r {
            Ok(n) => encodable(t@) && final(out)@ == old(out)@ + wire(t@) && n == wire(t@).len(),
            Err(e) => !encodable(t@) && e is Message,
        },
    decreases *t,
{
    let start = out.len();
    match t {
        Term::Nil(_) => {
            push_byte(out, 106);
            proof {
                assert(out@ =~= old(out)@ + wire(t@));
            }
            Ok(1)
        },
        Term::List(l) => {
            proof {
                lemma_term_views_index(l.0@);
            }
            let len = l.0.len();
            if len == 0 {
                push_byte(out, 106);
                proof {
                    assert(term_views(l.0@) =~= Seq::<TermV>::empty());
                    assert(elems_encodable(term_views(l.0@)));
                    assert(out@ =~= old(out)@ + wire(t@));
                }
                Ok(1)
            } else if len as u64 <= 0xFFFF_FFFF {
                push_byte(out, 108);
                push_u32_be(out, len as u32);
                match write_elems(&l.0, out) {
                    Ok(_) => {
                        push_byte(out, 106);
                        proof {
                            lemma_be_bytes_len(len as nat, 4);
                            assert(out@ =~= old(out)@ + wire(t@));
                        }
                        Ok(out.len() - start)
                    },
                    Err(e) => Err(e),
                }
            } else {
                Err(Error::Message("the list is too long for the wire format".to_owned()))
            }
        },
        Term::NonProperList(l) => {
            proof {
                lemma_term_views_index(l.data@);
            }
            let len = l.data.len();
            if len as u64 <= 0xFFFF_FFFF {
                push_byte(out, 108);
                push_u32_be(out, len as u32);
                match write_elems(&l.data, out) {
                    Ok(_) => {
                        match write_term(&*l.tail, out) {
                            Ok(_) => {
                                proof {
                                    lemma_be_bytes_len(len as nat, 4);
                                    assert(out@ =~= old(out)@ + wire(t@));
                                }
                                Ok(out.len() - start)
                            },
                            Err(e) => Err(e),
                        }
                    },
                    Err(e) => Err(e),
                }
            } else {
                Err(Error::Message("the list is too long for the wire format".to_owned()))
            }
        },
        Term::Atom(a) => {
            let r = write_atom(a, out);
            proof {
                assert(wire(t@) == atom_wire(a.0@));
            }
            match r {
                Ok(n) => Ok(n),
                Err(e) => Err(e),
            }
        },
        Term::Tuple(tu) => {
            proof {
                lemma_term_views_index(tu.0@);
            }
            let len = tu.0.len();
            if len <= 255 {
                push_byte(out, 104);
                push_byte(out, len as u8);
                match write_elems(&tu.0, out) {
                    Ok(_) => {
                        proof {
                            assert(out@ =~= old(out)@ + wire(t@));
                        }
                        Ok(out.len() - start)
                    },
                    Err(e) => Err(e),
                }
            } else if len as u64 <= 0xFFFF_FFFF {
                push_byte(out, 105);
                push_u32_be(out, len as u32);
                match write_elems(&tu.0, out) {
                    Ok(_) => {
                        proof {
                            lemma_be_bytes_len(len as nat, 4);
                            assert(out@ =~= old(out)@ + wire(t@));
                        }
                        Ok(out.len() - start)
                    },
                    Err(e) => Err(e),
                }
            } else {
                Err(Error::Message("the tuple is too wide for the wire format".to_owned()))
            }
        },
        Term::Str(s) => {
            let bytes = s.0.as_str().as_bytes_vec();
            if bytes.len() <= 65535 {
                push_byte(out, 107);
                push_u16_be(out, bytes.len() as u16);
                push_prefix(out, &bytes, bytes.len());
                proof {
                    lemma_be_bytes_len(bytes@.len(), 2);
                    assert(bytes@.subrange(0, bytes@.len() as int) =~= bytes@);
                    assert(out@ =~= old(out)@ + wire(t@));
                }
                Ok(out.len() - start)
            } else if bytes.len() as u64 <= 0xFFFF_FFFF {
                push_byte(out, 108);
                push_u32_be(out, bytes.len() as u32);
                let ghost base = out@;
                let mut i: usize = 0;
                while i < bytes.len()
                    invariant
                        i <= bytes@.len(),
                        out@ == base + byte_elems_wire(bytes@.subrange(0, i as int)),
                    decreases bytes@.len() - i,
                {
                    push_byte(out, 97);
                    push_byte(out, bytes[i]);
                    proof {
                        assert(bytes@.subrange(0, i + 1) =~= bytes@.subrange(0, i as int).push(
                            bytes@[i as int],
                        ));
                        lemma_byte_elems_wire_push(bytes@.subrange(0, i as int), bytes@[i as int]);
                        assert(out@ =~= base + byte_elems_wire(bytes@.subrange(0, i + 1)));
                    }
                    i = i + 1;
                }
                push_byte(out, 106);
                proof {
                    lemma_be_bytes_len(bytes@.len(), 4);
                    assert(bytes@.subrange(0, bytes@.len() as int) =~= bytes@);
                    assert(out@ =~= old(out)@ + wire(t@));
                }
                Ok(out.len() - start)
            } else {
                Err(Error::Message("the text is too long for the wire format".to_owned()))
            }
        },
        Term::Mapping(m) => {
            proof {
                lemma_pair_views_index(m.0@);
            }
            let len = m.0.len();
            if len as u64 <= 0xFFFF_FFFF {
                push_byte(out, 116);
                push_u32_be(out, len as u32);
                match write_pairs(&m.0, out) {
                    Ok(_) => {
                        proof {
                            lemma_be_bytes_len(len as nat, 4);
                            assert(out@ =~= old(out)@ + wire(t@));
                        }
                        Ok(out.len() - start)
                    },
                    Err(e) => Err(e),
                }
            } else {
                Err(Error::Message("the map has too many pairs for the wire format".to_owned()))
            }
        },
        Term::Binary(b) => {
            let len = b.0.len();
            if len as u64 <= 0xFFFF_FFFF {
                push_byte(out, 109);
                push_u32_be(out, len as u32);
                push_prefix(out, &b.0, len);
                proof {
                    lemma_be_bytes_len(len as nat, 4);
                    assert(b.0@.subrange(0, len as int) =~= b.0@);
                    assert(out@ =~= old(out)@ + wire(t@));
                }
                Ok(out.len() - start)
            } else {
                Err(Error::Message("the binary is too long for the wire format".to_owned()))
            }
        },
        Term::Export(e) => {
            push_byte(out, 113);
            match write_atom(&e.module, out) {
                Ok(_) => {},
                Err(err) => {
                    return Err(err);
                },
            }
            match write_atom(&e.function, out) {
                Ok(_) => {},
                Err(err) => {
                    return Err(err);
                },
            }
            push_byte(out, 97);
            push_byte(out, e.arity);
            proof {
                assert(out@ =~= old(out)@ + wire(t@));
            }
            Ok(out.len() - start)
        },
        Term::Port(p) => {
            push_byte(out, 89);
            match write_atom(&p.node, out) {
                Ok(_) => {},
                Err(err) => {
                    return Err(err);
                },
            }
            push_u32_be(out, p.id);
            push_u32_be(out, p.creation);
            proof {
                lemma_be_bytes_len(p.id as nat, 4);
                lemma_be_bytes_len(p.creation as nat, 4);
                assert(out@ =~= old(out)@ + wire(t@));
            }
            Ok(out.len() - start)
        },
        Term::Pid(p) => {
            push_byte(out, 88);
            match write_atom(&p.node, out) {
                Ok(_) => {},
                Err(err) => {
                    return Err(err);
                },
            }
            push_u32_be(out, p.id);
            push_u32_be(out, p.serial);
            push_u32_be(out, p.creation);
            proof {
                lemma_be_bytes_len(p.id as nat, 4);
                lemma_be_bytes_len(p.serial as nat, 4);
                lemma_be_bytes_len(p.creation as nat, 4);
                assert(out@ =~= old(out)@ + wire(t@));
            }
            Ok(out.len() - start)
        },
        Term::Integer(i) => write_integer(i.negative, &i.magnitude, out),
        Term::Float(f) => {
            match write_float(f, out) {
                Ok(n) => {
                    proof {
                        lemma_be_bytes_len(f.0 as nat, 8);
                        assert(out@ =~= old(out)@ + wire(t@));
                    }
                    Ok(n)
                },
                Err(e) => Err(e),
            }
        },
    }
}

/// A value with a defined form in the external binary format.
///
/// `enc_ok` says whether the value has a wire form at all, and
/// `enc_bytes` gives that form; `to_writer` is verified against both.
pub trait ToExternalBinary {
    /// Whether the value has a wire form.
    spec fn enc_ok(&self) -> bool;

    /// The value's wire bytes.
    spec fn enc_bytes(&self) -> Seq<u8>;

    /// Appends the value's wire bytes to a byte sink and returns how many
    /// bytes were written.  On an error, bytes already written stay in
    /// the sink; callers wanting atomicity write to a scratch buffer.
    fn to_writer(&self, out: &mut Vec<u8>) -> (r: Result<usize, Error>)
        ensures
            match r {
                Ok(n) => self.enc_ok() && final(out)@ == old(out)@ + self.enc_bytes() && n
                    == self.enc_bytes().len(),
                Err(e) => !self.enc_ok() && e is Message,
            },
    ;
}

/// A value that can be serialised as one complete term.
pub trait ETerm: ToExternalBinary {
    /// Serialises the value to a fresh byte vector holding exactly its
    /// wire bytes.
    fn to_external_binary(&self) -> (r: Result<Vec<u8>, Error>)
        ensures
            match r {
                Ok(v) => self.enc_ok() && v@ == self.enc_bytes(),
                Err(e) => !self.enc_ok() && e is Message,
            },
    ;
}

impl<T: ToExternalBinary> ETerm for T {
    fn to_external_binary(&self) -> (r: Result<Vec<u8>, Error>) {
        let mut buf: Vec<u8> = Vec::new();
        match self.to_writer(&mut buf) {
            Ok(_) => {
                proof {
                    assert(buf@ =~= self.enc_bytes());
                }
                Ok(buf)
            },
            Err(e) => Err(e),
        }
    }
}

impl ToExternalBinary for Term {
    open spec fn enc_ok(&self) -> bool {
        encodable(self@)
    }

    open spec fn enc_bytes(&self) -> Seq<u8> {
        wire(self@)
    }

    fn to_writer(&self, out: &mut Vec<u8>) -> (r: Result<usize, Error>) {
        write_term(self, out)
    }
}

impl ToExternalBinary for u8 {
    open spec fn enc_ok(&self) -> bool {
        true
    }

    open spec fn enc_bytes(&self) -> Seq<u8> {
        int_wire(*self as int)
    }

    fn to_writer(&self, out: &mut Vec<u8>) -> (r: Result<usize, Error>) {
        Ok(write_int_u128(false, *self as u128, out))
    }
}

impl ToExternalBinary for u16 {
    open spec fn enc_ok(&self) -> bool {
        true
    }

    open spec fn enc_bytes(&self) -> Seq<u8> {
        int_wire(*self as int)
    }

    fn to_writer(&self, out: &mut Vec<u8>) -> (r: Result<usize, Error>) {
        Ok(write_int_u128(false, *self as u128, out))
    }
}

impl ToExternalBinary for u32 {
    open spec fn enc_ok(&self) -> bool {
        true
    }

    open spec fn enc_bytes(&self) -> Seq<u8> {
        int_wire(*self as int)
    }

    fn to_writer(&self, out: &mut Vec<u8>) -> (r: Result<usize, Error>) {
        Ok(write_int_u128(false, *self as u128, out))
    }
}

impl ToExternalBinary for u64 {
    open spec fn enc_ok(&self) -> bool {
        true
    }

    open spec fn enc_bytes(&self) -> Seq<u8> {
        int_wire(*self as int)
    }

    fn to_writer(&self, out: &mut Vec<u8>) -> (r: Result<usize, Error>) {
        Ok(write_int_u128(false, *self as u128, out))
    }
}

impl ToExternalBinary for u128 {
    open spec fn enc_ok(&self) -> bool {
        true
    }

    open spec fn enc_bytes(&self) -> Seq<u8> {
        int_wire(*self as int)
    }

    fn to_writer(&self, out: &mut Vec<u8>) -> (r: Result<usize, Error>) {
        Ok(write_int_u128(false, *self, out))
    }
}

impl ToExternalBinary for usize {
    open spec fn enc_ok(&self) -> bool {
        true
    }

    open spec fn enc_bytes(&self) -> Seq<u8> {
        int_wire(*self as int)
    }

    fn to_writer(&self, out: &mut Vec<u8>) -> (r: Result<usize, Error>) {
        Ok(write_int_u128(false, *self as u128, out))
    }
}

impl ToExternalBinary for i8 {
    open spec fn enc_ok(&self) -> bool {
        true
    }

    open spec fn enc_bytes(&self) -> Seq<u8> {
        int_wire(*self as int)
    }

    fn to_writer(&self, out: &mut Vec<u8>) -> (r: Result<usize, Error>) {
        let v = *self as i128;
        Ok(write_int_u128(v < 0, lossless_abs(v), out))
    }
}

impl ToExternalBinary for i16 {
    open spec fn enc_ok(&self) -> bool {
        true
    }

    open spec fn enc_bytes(&self) -> Seq<u8> {
        int_wire(*self as int)
    }

    fn to_writer(&self, out: &mut Vec<u8>) -> (r: Result<usize, Error>) {
        let v = *self as i128;
        Ok(write_int_u128(v < 0, lossless_abs(v), out))
    }
}

impl ToExternalBinary for i32 {
    open spec fn enc_ok(&self) -> bool {
        true
    }

    open spec fn enc_bytes(&self) -> Seq<u8> {
        int_wire(*self as int)
    }

    fn to_writer(&self, out: &mut Vec<u8>) -> (r: Result<usize, Error>) {
        let v = *self as i128;
        Ok(write_int_u128(v < 0, lossless_abs(v), out))
    }
}

impl ToExternalBinary for i64 {
    open spec fn enc_ok(&self) -> bool {
        true
    }

    open spec fn enc_bytes(&self) -> Seq<u8> {
        int_wire(*self as int)
    }

    fn to_writer(&self, out: &mut Vec<u8>) -> (r: Result<usize, Error>) {
        let v = *self as i128;
        Ok(write_int_u128(v < 0, lossless_abs(v), out))
    }
}

impl ToExternalBinary for i128 {
    open spec fn enc_ok(&self) -> bool {
        true
    }

    open spec fn enc_bytes(&self) -> Seq<u8> {
        int_wire(*self as int)
    }

    fn to_writer(&self, out: &mut Vec<u8>) -> (r: Result<usize, Error>) {
        let v = *self;
        Ok(write_int_u128(v < 0, lossless_abs(v), out))
    }
}

impl ToExternalBinary for isize {
    open spec fn enc_ok(&self) -> bool {
        true
    }

    open spec fn enc_bytes(&self) -> Seq<u8> {
        int_wire(*self as int)
    }

    fn to_writer(&self, out: &mut Vec<u8>) -> (r: Result<usize, Error>) {
        let v = *self as i128;
        Ok(write_int_u128(v < 0, lossless_abs(v), out))
    }
}

impl ToExternalBinary for ENil {
    open spec fn enc_ok(&self) -> bool {
        true
    }

    open spec fn enc_bytes(&self) -> Seq<u8> {
        wire(TermV::Nil)
    }

    fn to_writer(&self, out: &mut Vec<u8>) -> (r: Result<usize, Error>) {
        push_byte(out, 106);
        proof {
            assert(out@ =~= old(out)@ + self.enc_bytes());
        }
        Ok(1)
    }
}

impl ToExternalBinary for EAtom {
    open spec fn enc_ok(&self) -> bool {
        atom_encodable(self.0@)
    }

    open spec fn enc_bytes(&self) -> Seq<u8> {
        atom_wire(self.0@)
    }

    fn to_writer(&self, out: &mut Vec<u8>) -> (r: Result<usize, Error>) {
        write_atom(self, out)
    }
}

impl ToExternalBinary for EInteger {
    open spec fn enc_ok(&self) -> bool {
        int_encodable(int_v(self.negative, self.magnitude@))
    }

    open spec fn enc_bytes(&self) -> Seq<u8> {
        int_wire(int_v(self.negative, self.magnitude@))
    }

    fn to_writer(&self, out: &mut Vec<u8>) -> (r: Result<usize, Error>) {
        write_integer(self.negative, &self.magnitude, out)
    }
}

impl ToExternalBinary for EFloat {
    open spec fn enc_ok(&self) -> bool {
        float_finite(self.0)
    }

    open spec fn enc_bytes(&self) -> Seq<u8> {
        wire(TermV::Float(self.0))
    }

    fn to_writer(&self, out: &mut Vec<u8>) -> (r: Result<usize, Error>) {
        match write_float(self, out) {
            Ok(n) => {
                proof {
                    lemma_be_bytes_len(self.0 as nat, 8);
                    assert(out@ =~= old(out)@ + self.enc_bytes());
                }
                Ok(n)
            },
            Err(e) => Err(e),
        }
    }
}

impl ToExternalBinary for EList {
    open spec fn enc_ok(&self) -> bool {
        encodable(TermV::List(term_views(self.0@)))
    }

    open spec fn enc_bytes(&self) -> Seq<u8> {
        wire(TermV::List(term_views(self.0@)))
    }

    fn to_writer(&self, out: &mut Vec<u8>) -> (r: Result<usize, Error>) {
        let start = out.len();
        proof {
            lemma_term_views_index(self.0@);
        }
        let len = self.0.len();
        if len == 0 {
            push_byte(out, 106);
            proof {
                assert(term_views(self.0@) =~= Seq::<TermV>::empty());
                assert(elems_encodable(term_views(self.0@)));
                assert(out@ =~= old(out)@ + self.enc_bytes());
            }
            Ok(1)
        } else if len as u64 <= 0xFFFF_FFFF {
            push_byte(out, 108);
            push_u32_be(out, len as u32);
            match write_elems(&self.0, out) {
                Ok(_) => {
                    push_byte(out, 106);
                    proof {
                        lemma_be_bytes_len(len as nat, 4);
                        assert(out@ =~= old(out)@ + self.enc_bytes());
                    }
                    Ok(out.len() - start)
                },
                Err(e) => Err(e),
            }
        } else {
            Err(Error::Message("the list is too long for the wire format".to_owned()))
        }
    }
}

impl ToExternalBinary for ENonProperList {
    open spec fn enc_ok(&self) -> bool {
        encodable(TermV::Improper(term_views(self.data@), Box::new(term_view(*self.tail))))
    }

    open spec fn enc_bytes(&self) -> Seq<u8> {
        wire(TermV::Improper(term_views(self.data@), Box::new(term_view(*self.tail))))
    }

    fn to_writer(&self, out: &mut Vec<u8>) -> (r: Result<usize, Error>) {
        let start = out.len();
        proof {
            lemma_term_views_index(self.data@);
        }
        let len = self.data.len();
        if len as u64 <= 0xFFFF_FFFF {
            push_byte(out, 108);
            push_u32_be(out, len as u32);
            match write_elems(&self.data, out) {
                Ok(_) => {
                    match write_term(&*self.tail, out) {
                        Ok(_) => {
                            proof {
                                lemma_be_bytes_len(len as nat, 4);
                                assert(out@ =~= old(out)@ + self.enc_bytes());
                            }
                            Ok(out.len() - start)
                        },
                        Err(e) => Err(e),
                    }
                },
                Err(e) => Err(e),
            }
        } else {
            Err(Error::Message("the list is too long for the wire format".to_owned()))
        }
    }
}

impl ToExternalBinary for ETuple {
    open spec fn enc_ok(&self) -> bool {
        encodable(TermV::Tuple(term_views(self.0@)))
    }

    open spec fn enc_bytes(&self) -> Seq<u8> {
        wire(TermV::Tuple(term_views(self.0@)))
    }

    fn to_writer(&self, out: &mut Vec<u8>) -> (r: Result<usize, Error>) {
        let start = out.len();
        proof {
            lemma_term_views_index(self.0@);
        }
        let len = self.0.len();
        if len <= 255 {
            push_byte(out, 104);
            push_byte(out, len as u8);
            match write_elems(&self.0, out) {
                Ok(_) => {
                    proof {
                        assert(out@ =~= old(out)@ + self.enc_bytes());
                    }
                    Ok(out.len() - start)
                },
                Err(e) => Err(e),
            }
        } else if len as u64 <= 0xFFFF_FFFF {
            push_byte(out, 105);
            push_u32_be(out, len as u32);
            match write_elems(&self.0, out) {
                Ok(_) => {
                    proof {
                        lemma_be_bytes_len(len as nat, 4);
                        assert(out@ =~= old(out)@ + self.enc_bytes());
                    }
                    Ok(out.len() - start)
                },
                Err(e) => Err(e),
            }
        } else {
            Err(Error::Message("the tuple is too wide for the wire format".to_owned()))
        }
    }
}

impl ToExternalBinary for EString {
    open spec fn enc_ok(&self) -> bool {
        encodable(TermV::Str(self.0@))
    }

    open spec fn enc_bytes(&self) -> Seq<u8> {
        wire(TermV::Str(self.0@))
    }

    fn to_writer(&self, out: &mut Vec<u8>) -> (r: Result<usize, Error>) {
        let start = out.len();
        let bytes = self.0.as_str().as_bytes_vec();
        if bytes.len() <= 65535 {
            push_byte(out, 107);
            push_u16_be(out, bytes.len() as u16);
            push_prefix(out, &bytes, bytes.len());
            proof {
                lemma_be_bytes_len(bytes@.len(), 2);
                assert(bytes@.subrange(0, bytes@.len() as int) =~= bytes@);
                assert(out@ =~= old(out)@ + self.enc_bytes());
            }
            Ok(out.len() - start)
        } else if bytes.len() as u64 <= 0xFFFF_FFFF {
            push_byte(out, 108);
            push_u32_be(out, bytes.len() as u32);
            let ghost base = out@;
            let mut i: usize = 0;
            while i < bytes.len()
                invariant
                    i <= bytes@.len(),
                    out@ == base + byte_elems_wire(bytes@.subrange(0, i as int)),
                decreases bytes@.len() - i,
            {
                push_byte(out, 97);
                push_byte(out, bytes[i]);
                proof {
                    assert(bytes@.subrange(0, i + 1) =~= bytes@.subrange(0, i as int).push(
                        bytes@[i as int],
                    ));
                    lemma_byte_elems_wire_push(bytes@.subrange(0, i as int), bytes@[i as int]);
                    assert(out@ =~= base + byte_elems_wire(bytes@.subrange(0, i + 1)));
                }
                i = i + 1;
            }
            push_byte(out, 106);
            proof {
                lemma_be_bytes_len(bytes@.len(), 4);
                assert(bytes@.subrange(0, bytes@.len() as int) =~= bytes@);
                assert(out@ =~= old(out)@ + self.enc_bytes());
            }
            Ok(out.len() - start)
        } else {
            Err(Error::Message("the text is too long for the wire format".to_owned()))
        }
    }
}

impl ToExternalBinary for EMap {
    open spec fn enc_ok(&self) -> bool {
        encodable(TermV::Mapping(pair_views(self.0@)))
    }

    open spec fn enc_bytes(&self) -> Seq<u8> {
        wire(TermV::Mapping(pair_views(self.0@)))
    }

    fn to_writer(&self, out: &mut Vec<u8>) -> (r: Result<usize, Error>) {
        let start = out.len();
        proof {
            lemma_pair_views_index(self.0@);
        }
        let len = self.0.len();
        if len as u64 <= 0xFFFF_FFFF {
            push_byte(out, 116);
            push_u32_be(out, len as u32);
            match write_pairs(&self.0, out) {
                Ok(_) => {
                    proof {
                        lemma_be_bytes_len(len as nat, 4);
                        assert(out@ =~= old(out)@ + self.enc_bytes());
                    }
                    Ok(out.len() - start)
                },
                Err(e) => Err(e),
            }
        } else {
            Err(Error::Message("the map has too many pairs for the wire format".to_owned()))
        }
    }
}

impl ToExternalBinary for EBinary {
    open spec fn enc_ok(&self) -> bool {
        encodable(TermV::Binary(self.0@))
    }

    open spec fn enc_bytes(&self) -> Seq<u8> {
        wire(TermV::Binary(self.0@))
    }

    fn to_writer(&self, out: &mut Vec<u8>) -> (r: Result<usize, Error>) {
        let start = out.len();
        let len = self.0.len();
        if len as u64 <= 0xFFFF_FFFF {
            push_byte(out, 109);
            push_u32_be(out, len as u32);
            push_prefix(out, &self.0, len);
            proof {
                lemma_be_bytes_len(len as nat, 4);
                assert(self.0@.subrange(0, len as int) =~= self.0@);
                assert(out@ =~= old(out)@ + self.enc_bytes());
            }
            Ok(out.len() - start)
        } else {
            Err(Error::Message("the binary is too long for the wire format".to_owned()))
        }
    }
}

impl ToExternalBinary for EExport {
    open spec fn enc_ok(&self) -> bool {
        atom_encodable(self.module.0@) && atom_encodable(self.function.0@)
    }

    open spec fn enc_bytes(&self) -> Seq<u8> {
        seq![113u8] + atom_wire(self.module.0@) + atom_wire(self.function.0@) + seq![
            97u8,
            self.arity,
        ]
    }

    fn to_writer(&self, out: &mut Vec<u8>) -> (r: Result<usize, Error>) {
        let start = out.len();
        push_byte(out, 113);
        match write_atom(&self.module, out) {
            Ok(_) => {},
            Err(e) => {
                return Err(e);
            },
        }
        match write_atom(&self.function, out) {
            Ok(_) => {},
            Err(e) => {
                return Err(e);
            },
        }
        push_byte(out, 97);
        push_byte(out, self.arity);
        proof {
            assert(out@ =~= old(out)@ + self.enc_bytes());
        }
        Ok(out.len() - start)
    }
}

impl ToExternalBinary for EPort {
    open spec fn enc_ok(&self) -> bool {
        atom_encodable(self.node.0@)
    }

    open spec fn enc_bytes(&self) -> Seq<u8> {
        seq![89u8] + atom_wire(self.node.0@) + be_bytes(self.id as nat, 4) + be_bytes(
            self.creation as nat,
            4,
        )
    }

    fn to_writer(&self, out: &mut Vec<u8>) -> (r: Result<usize, Error>) {
        let start = out.len();
        push_byte(out, 89);
        match write_atom(&self.node, out) {
            Ok(_) => {},
            Err(e) => {
                return Err(e);
            },
        }
        push_u32_be(out, self.id);
        push_u32_be(out, self.creation);
        proof {
            lemma_be_bytes_len(self.id as nat, 4);
            lemma_be_bytes_len(self.creation as nat, 4);
            assert(out@ =~= old(out)@ + self.enc_bytes());
        }
        Ok(out.len() - start)
    }
}

impl ToExternalBinary for EPid {
    open spec fn enc_ok(&self) -> bool {
        atom_encodable(self.node.0@)
    }

    open spec fn enc_bytes(&self) -> Seq<u8> {
        seq![88u8] + atom_wire(self.node.0@) + be_bytes(self.id as nat, 4) + be_bytes(
            self.serial as nat,
            4,
        ) + be_bytes(self.creation as nat, 4)
    }

    fn to_writer(&self, out: &mut Vec<u8>) -> (r: Result<usize, Error>) {
        let start = out.len();
        push_byte(out, 88);
        match write_atom(&self.node, out) {
            Ok(_) => {},
            Err(e) => {
                return Err(e);
            },
        }
        push_u32_be(out, self.id);
        push_u32_be(out, self.serial);
        push_u32_be(out, self.creation);
        proof {
            lemma_be_bytes_len(self.id as nat, 4);
            lemma_be_bytes_len(self.serial as nat, 4);
            lemma_be_bytes_len(self.creation as nat, 4);
            assert(out@ =~= old(out)@ + self.enc_bytes());
        }
        Ok(out.len() - start)
    }
}

} // verus!
