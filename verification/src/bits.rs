//! Mathematical model of bit sequences.
//!
//! A bit is a `bool`; sequences are big-endian: the first bit of an
//! integer's pattern is its most significant bit.

use vstd::prelude::*;
use vstd::arithmetic::power2::pow2;

verus! {

/// The big-endian two's-complement-free bit pattern of `v`, `w` bits wide.
/// The most significant of the `w` bits comes first.
pub open spec fn u_bits(v: nat, w: nat) -> Seq<bool>
    decreases w,
{
    if w == 0 {
        Seq::empty()
    } else {
        u_bits(v / 2, (w - 1) as nat).push(v % 2 == 1)
    }
}

/// The big-endian two's-complement bit pattern of the signed value `v`,
/// `w` bits wide.
pub open spec fn i_bits(v: int, w: nat) -> Seq<bool> {
    u_bits((v % (pow2(w) as int)) as nat, w)
}

/// The bit pattern of one byte, most significant bit first.
pub open spec fn byte_bits(b: u8) -> Seq<bool> {
    u_bits(b as nat, 8)
}

/// The bits of a byte sequence, each byte most significant bit first.
pub open spec fn bytes_bits(s: Seq<u8>) -> Seq<bool>
    decreases s.len(),
{
    if s.len() == 0 {
        Seq::empty()
    } else {
        byte_bits(s[0]) + bytes_bits(s.drop_first())
    }
}

/// The unsigned value read big-endian from a bit sequence.
pub open spec fn bits_val(s: Seq<bool>) -> nat
    decreases s.len(),
{
    if s.len() == 0 {
        0
    } else {
        2 * bits_val(s.drop_last()) + (if s.last() { 1nat } else { 0nat })
    }
}

/// Concrete powers of two at the signed-range boundaries of each width.
pub proof fn lemma_pow2_widths()
    ensures
        pow2(7) == 0x80,
        pow2(8) == 0x100,
        pow2(15) == 0x8000,
        pow2(16) == 0x10000,
        pow2(31) == 0x8000_0000,
        pow2(32) == 0x1_0000_0000,
        pow2(63) == 0x8000_0000_0000_0000,
        pow2(64) == 0x1_0000_0000_0000_0000,
        pow2(127) == 0x8000_0000_0000_0000_0000_0000_0000_0000,
        pow2(128) == 0x1_0000_0000_0000_0000_0000_0000_0000_0000,
{
    vstd::arithmetic::power2::lemma2_to64();
    vstd::arithmetic::power2::lemma2_to64_rest();
    vstd::arithmetic::power2::lemma_pow2_adds(64, 63);
    vstd::arithmetic::power2::lemma_pow2_adds(64, 64);
}

pub proof fn lemma_u_bits_len(v: nat, w: nat)
    ensures
        u_bits(v, w).len() == w,
    decreases w,
{
    if w > 0 {
        lemma_u_bits_len(v / 2, (w - 1) as nat);
    }
}

pub proof fn lemma_bytes_bits_len(s: Seq<u8>)
    ensures
        bytes_bits(s).len() == 8 * s.len(),
    decreases s.len(),
{
    if s.len() > 0 {
        lemma_u_bits_len(s[0] as nat, 8);
        lemma_bytes_bits_push_front(s);
        lemma_bytes_bits_len(s.drop_first());
    }
}

proof fn lemma_bytes_bits_push_front(s: Seq<u8>)
    requires
        s.len() > 0,
    ensures
        bytes_bits(s) == byte_bits(s[0]) + bytes_bits(s.drop_first()),
{
}

/// Appending one byte at the back extends the bit sequence at the back.
pub proof fn lemma_bytes_bits_push(s: Seq<u8>, x: u8)
    ensures
        bytes_bits(s.push(x)) == bytes_bits(s) + byte_bits(x),
    decreases s.len(),
{
    if s.len() == 0 {
        let t = s.push(x);
        assert(t.len() == 1);
        assert(t[0] == x);
        assert(t.drop_first() =~= Seq::<u8>::empty());
        assert(bytes_bits(t) == byte_bits(t[0]) + bytes_bits(t.drop_first()));
        assert(bytes_bits(Seq::<u8>::empty()) == Seq::<bool>::empty());
        assert(byte_bits(x) + Seq::<bool>::empty() =~= byte_bits(x));
        assert(bytes_bits(s) + byte_bits(x) =~= byte_bits(x));
    } else {
        lemma_bytes_bits_push(s.drop_first(), x);
        assert(s.push(x).drop_first() =~= s.drop_first().push(x));
        assert(bytes_bits(s.push(x)) =~= bytes_bits(s) + byte_bits(x));
    }
}

/// A `w`-bit pattern depends only on the value modulo `pow2(w)`.
pub proof fn lemma_u_bits_mod(v: nat, w: nat)
    ensures
        u_bits(v, w) == u_bits((v % pow2(w)) as nat, w),
    decreases w,
{
    vstd::arithmetic::power2::lemma_pow2_pos(w);
    if w == 0 {
    } else {
        let m = pow2((w - 1) as nat) as int;
        vstd::arithmetic::power2::lemma_pow2_pos((w - 1) as nat);
        vstd::arithmetic::power2::lemma_pow2_unfold(w);
        vstd::arithmetic::div_mod::lemma_mod_breakdown(v as int, 2, m);
        let mp = (v as int / 2) % m;
        let b = v as int % 2;
        assert(v as int % (2 * m) == 2 * mp + b);
        assert((2 * mp + b) / 2 == mp) by (nonlinear_arith)
            requires 0 <= b < 2 && 0 <= mp,
        {}
        assert((2 * mp + b) % 2 == b) by (nonlinear_arith)
            requires 0 <= b < 2 && 0 <= mp,
        {}
        lemma_u_bits_mod(v / 2, (w - 1) as nat);
        assert((v % pow2(w)) / 2 == (v / 2) % pow2((w - 1) as nat));
        assert((v % pow2(w)) % 2 == v % 2);
    }
}

/// The bit at position `i` of a `w`-bit pattern, as a quotient parity.
pub proof fn lemma_u_bits_index(v: nat, w: nat, i: int)
    requires
        0 <= i < w,
    ensures
        u_bits(v, w)[i] == ((v / pow2((w - 1 - i) as nat)) % 2 == 1),
    decreases w,
{
    lemma_u_bits_len(v / 2, (w - 1) as nat);
    if i == w - 1 {
        assert(pow2(0) == 1) by {
            vstd::arithmetic::power2::lemma2_to64();
        }
        assert(u_bits(v, w)[i] == (v % 2 == 1));
        assert(v / 1 == v);
    } else {
        lemma_u_bits_index(v / 2, (w - 1) as nat, i);
        assert(u_bits(v, w)[i] == u_bits(v / 2, (w - 1) as nat)[i]);
        let k = (w - 2 - i) as nat;
        vstd::arithmetic::power2::lemma_pow2_pos(k);
        vstd::arithmetic::div_mod::lemma_div_denominator(v as int, 2, pow2(k) as int);
        assert(pow2(k + 1) == 2 * pow2(k)) by {
            vstd::arithmetic::power2::lemma_pow2_unfold(k + 1);
        }
        assert((v / 2) as int / (pow2(k) as int) == v as int / (pow2(k + 1) as int));
    }
}

/// A bit pattern of the right width is recovered from its value.
pub proof fn lemma_u_bits_of_val(s: Seq<bool>)
    ensures
        u_bits(bits_val(s), s.len()) == s,
    decreases s.len(),
{
    if s.len() > 0 {
        lemma_u_bits_of_val(s.drop_last());
        let v = bits_val(s);
        let b: nat = if s.last() {
            1
        } else {
            0
        };
        assert(v == 2 * bits_val(s.drop_last()) + b);
        assert(v / 2 == bits_val(s.drop_last()) && v % 2 == b) by {
            vstd::arithmetic::div_mod::lemma_fundamental_div_mod_converse(
                v as int,
                2,
                bits_val(s.drop_last()) as int,
                b as int,
            );
        }
        assert(u_bits(v, s.len()) =~= s);
    }
}

/// The value of a `w`-bit pattern is below `pow2(w)`, and the pattern of
/// a value below `pow2(w)` reads back to that value.
pub proof fn lemma_u_bits_val(v: nat, w: nat)
    requires
        v < pow2(w),
    ensures
        bits_val(u_bits(v, w)) == v,
    decreases w,
{
    if w == 0 {
        assert(pow2(0) == 1) by {
            vstd::arithmetic::power2::lemma2_to64();
        }
    } else {
        assert(pow2(w) == 2 * pow2((w - 1) as nat)) by {
            vstd::arithmetic::power2::lemma_pow2_unfold(w);
        }
        lemma_u_bits_val(v / 2, (w - 1) as nat);
        lemma_u_bits_len(v / 2, (w - 1) as nat);
        let s = u_bits(v, w);
        assert(s.drop_last() =~= u_bits(v / 2, (w - 1) as nat));
    }
}

} // verus!
