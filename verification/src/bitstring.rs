//! An append-only sequence of bits with bit-level slicing and big-endian
//! integer append helpers.

use vstd::prelude::*;
use crate::bits::{u_bits, i_bits, bytes_bits, lemma_u_bits_len, lemma_u_bits_mod, lemma_bytes_bits_push, lemma_bytes_bits_len};
use vstd::arithmetic::power2::pow2;

verus! {

/// An ordered sequence of bits.  Appends never reorder earlier bits, and
/// slicing yields bits in their original order.
pub struct Bitstring {
    bits: Vec<bool>,
}

impl View for Bitstring {
    type V = Seq<bool>;

    closed spec fn view(&self) -> Seq<bool> {
        self.bits@
    }
}

/// Appends the `w`-bit big-endian pattern of `v` to `out`.
fn append_ubits(out: &mut Vec<bool>, v: u128, w: usize)
    requires
        w <= 128,
        old(out)@.len() + w <= usize::MAX,
    ensures
        final(out)@ == old(out)@ + u_bits(v as nat, w as nat),
    decreases w,
{
    if w == 0 {
        assert(final(out)@ =~= old(out)@ + u_bits(v as nat, 0));
    } else {
        append_ubits(out, v / 2, w - 1);
        out.push(v % 2 == 1);
        assert(final(out)@ =~= old(out)@ + u_bits(v as nat, w as nat));
    }
}

impl Bitstring {
    /// An empty bit string.
    pub fn new() -> (r: Bitstring)
        ensures
            r@ == Seq::<bool>::empty(),
    {
        Bitstring { bits: Vec::new() }
    }

    /// The exact number of bits held, including non-byte-aligned tails.
    pub fn length_in_bits(&self) -> (r: usize)
        ensures
            r == self@.len(),
    {
        self.bits.len()
    }

    /// The bit at position `i`.
    pub fn get(&self, i: usize) -> (r: bool)
        requires
            i < self@.len(),
        ensures
            r == self@[i as int],
    {
        self.bits[i]
    }

    /// Appends a single bit.
    pub fn append_bit(&mut self, b: bool)
        ensures
            final(self)@ == old(self)@.push(b),
    {
        self.bits.push(b);
    }

    /// Appends all bits of `other` after the bits already held.
    pub fn append(&mut self, other: &Bitstring)
        requires
            old(self)@.len() + other@.len() <= usize::MAX,
        ensures
            final(self)@ == old(self)@ + other@,
    {
        let n = other.bits.len();
        let mut i: usize = 0;
        while i < n
            invariant
                n == other@.len(),
                i <= n,
                self@ == old(self)@ + other@.take(i as int),
                self@.len() + (n - i) <= usize::MAX,
            decreases n - i,
        {
            self.bits.push(other.bits[i]);
            assert(old(self)@ + other@.take(i as int) + seq![other@[i as int]]
                =~= old(self)@ + other@.take(i + 1));
            i = i + 1;
        }
        assert(old(self)@ + other@.take(n as int) =~= old(self)@ + other@);
    }

    /// Appends the big-endian pattern of an unsigned value, `w` bits wide.
    pub fn append_uint(&mut self, v: u128, w: usize)
        requires
            w <= 128,
            old(self)@.len() + w <= usize::MAX,
        ensures
            final(self)@ == old(self)@ + u_bits(v as nat, w as nat),
    {
        append_ubits(&mut self.bits, v, w);
    }

    /// Appends one byte, most significant bit first.
    pub fn append_u8(&mut self, v: u8)
        requires
            old(self)@.len() + 8 <= usize::MAX,
        ensures
            final(self)@ == old(self)@ + u_bits(v as nat, 8),
    {
        self.append_uint(v as u128, 8);
    }

    /// Appends a big-endian 16-bit unsigned value.
    pub fn append_u16(&mut self, v: u16)
        requires
            old(self)@.len() + 16 <= usize::MAX,
        ensures
            final(self)@ == old(self)@ + u_bits(v as nat, 16),
    {
        self.append_uint(v as u128, 16);
    }

    /// Appends a big-endian 32-bit unsigned value.
    pub fn append_u32(&mut self, v: u32)
        requires
            old(self)@.len() + 32 <= usize::MAX,
        ensures
            final(self)@ == old(self)@ + u_bits(v as nat, 32),
    {
        self.append_uint(v as u128, 32);
    }

    /// Appends a big-endian 64-bit unsigned value.
    pub fn append_u64(&mut self, v: u64)
        requires
            old(self)@.len() + 64 <= usize::MAX,
        ensures
            final(self)@ == old(self)@ + u_bits(v as nat, 64),
    {
        self.append_uint(v as u128, 64);
    }

    /// Appends a big-endian 128-bit unsigned value.
    pub fn append_u128(&mut self, v: u128)
        requires
            old(self)@.len() + 128 <= usize::MAX,
        ensures
            final(self)@ == old(self)@ + u_bits(v as nat, 128),
    {
        self.append_uint(v, 128);
    }

    /// Appends the two's-complement big-endian pattern of a signed value,
    /// `w` bits wide.  `v` must lie in the range of a `w`-bit signed
    /// integer.
    pub fn append_int(&mut self, v: i128, w: usize)
        requires
            0 < w <= 128,
            -pow2((w - 1) as nat) <= v < pow2((w - 1) as nat),
            old(self)@.len() + w <= usize::MAX,
        ensures
            final(self)@ == old(self)@ + i_bits(v as int, w as nat),
    {
        let u: u128 = if v >= 0 {
            v as u128
        } else {
            let t: i128 = -(v + 1);
            u128::MAX - (t as u128)
        };
        proof {
            let p = pow2(w as nat) as int;
            crate::bits::lemma_pow2_widths();
            vstd::arithmetic::power2::lemma_pow2_pos(w as nat);
            vstd::arithmetic::power2::lemma_pow2_pos((w - 1) as nat);
            vstd::arithmetic::power2::lemma_pow2_adds((w - 1) as nat, 1);
            vstd::arithmetic::power2::lemma2_to64();
            // u is congruent to v modulo pow2(w): they differ by 0 or by
            // pow2(128), a multiple of pow2(w).
            vstd::arithmetic::power2::lemma_pow2_adds(w as nat, (128 - w) as nat);
            assert((u as int - v as int) % p == 0) by {
                if v >= 0 {
                    vstd::arithmetic::div_mod::lemma_mod_self_0(p);
                    assert(0int % p == 0) by {
                        vstd::arithmetic::div_mod::lemma_small_mod(0, p as nat);
                    }
                } else {
                    assert(u as int - v as int == pow2(128) as int);
                    let k = pow2((128 - w) as nat) as int;
                    assert(pow2(128) as int == p * k);
                    vstd::arithmetic::div_mod::lemma_mod_multiples_vanish(k, 0, p);
                    assert(0int % p == 0) by {
                        vstd::arithmetic::div_mod::lemma_small_mod(0, p as nat);
                    }
                }
            }
            assert(u as int % p == v as int % p) by {
                let k2 = (u as int - v as int) / p;
                vstd::arithmetic::div_mod::lemma_fundamental_div_mod(u as int - v as int, p);
                assert(u as int == p * k2 + v as int);
                vstd::arithmetic::div_mod::lemma_mod_multiples_vanish(k2, v as int, p);
            }
            lemma_u_bits_mod(u as nat, w as nat);
            lemma_u_bits_mod((v as int % p) as nat, w as nat);
            vstd::arithmetic::div_mod::lemma_mod_bound(v as int, p);
            vstd::arithmetic::div_mod::lemma_mod_bound(u as int, p);
            vstd::arithmetic::div_mod::lemma_small_mod((v as int % p) as nat, p as nat);
            assert(u_bits(u as nat, w as nat) == i_bits(v as int, w as nat));
        }
        self.append_uint(u, w);
    }

    /// Appends a two's-complement 8-bit signed value.
    pub fn append_i8(&mut self, v: i8)
        requires
            old(self)@.len() + 8 <= usize::MAX,
        ensures
            final(self)@ == old(self)@ + i_bits(v as int, 8),
    {
        proof { crate::bits::lemma_pow2_widths(); }
        self.append_int(v as i128, 8);
    }

    /// Appends a two's-complement big-endian 16-bit signed value.
    pub fn append_i16(&mut self, v: i16)
        requires
            old(self)@.len() + 16 <= usize::MAX,
        ensures
            final(self)@ == old(self)@ + i_bits(v as int, 16),
    {
        proof { crate::bits::lemma_pow2_widths(); }
        self.append_int(v as i128, 16);
    }

    /// Appends a two's-complement big-endian 32-bit signed value.
    pub fn append_i32(&mut self, v: i32)
        requires
            old(self)@.len() + 32 <= usize::MAX,
        ensures
            final(self)@ == old(self)@ + i_bits(v as int, 32),
    {
        proof { crate::bits::lemma_pow2_widths(); }
        self.append_int(v as i128, 32);
    }

    /// Appends a two's-complement big-endian 64-bit signed value.
    pub fn append_i64(&mut self, v: i64)
        requires
            old(self)@.len() + 64 <= usize::MAX,
        ensures
            final(self)@ == old(self)@ + i_bits(v as int, 64),
    {
        proof { crate::bits::lemma_pow2_widths(); }
        self.append_int(v as i128, 64);
    }

    /// Appends a two's-complement big-endian 128-bit signed value.
    pub fn append_i128(&mut self, v: i128)
        requires
            old(self)@.len() + 128 <= usize::MAX,
        ensures
            final(self)@ == old(self)@ + i_bits(v as int, 128),
    {
        proof { crate::bits::lemma_pow2_widths(); }
        self.append_int(v, 128);
    }

    /// The bits of the half-open range `[a, b)`, in their original order.
    pub fn bits(&self, a: usize, b: usize) -> (r: Bitstring)
        requires
            a <= b <= self@.len(),
        ensures
            r@ == self@.subrange(a as int, b as int),
    {
        let mut out: Vec<bool> = Vec::new();
        let mut i: usize = a;
        while i < b
            invariant
                a <= i <= b <= self@.len(),
                out@ == self@.subrange(a as int, i as int),
            decreases b - i,
        {
            out.push(self.bits[i]);
            assert(self@.subrange(a as int, i as int).push(self@[i as int])
                =~= self@.subrange(a as int, i + 1));
            i = i + 1;
        }
        Bitstring { bits: out }
    }

    /// A bit string holding the first `bit_len` bits of `bytes`, each byte
    /// most significant bit first.
    pub fn create(bytes: &Vec<u8>, bit_len: usize) -> (r: Bitstring)
        requires
            bit_len <= 8 * bytes@.len(),
            8 * bytes@.len() <= usize::MAX,
        ensures
            r@ == bytes_bits(bytes@).take(bit_len as int),
    {
        let mut bs = Bitstring::new();
        let n = bytes.len();
        let mut i: usize = 0;
        proof { lemma_bytes_bits_len(bytes@); }
        while i < n
            invariant
                n == bytes@.len(),
                i <= n,
                bs@ == bytes_bits(bytes@.take(i as int)),
                bs@.len() == 8 * i,
                8 * n <= usize::MAX,
            decreases n - i,
        {
            proof {
                lemma_bytes_bits_push(bytes@.take(i as int), bytes@[i as int]);
                assert(bytes@.take(i as int).push(bytes@[i as int])
                    =~= bytes@.take(i + 1));
                lemma_u_bits_len(bytes@[i as int] as nat, 8);
            }
            bs.append_u8(bytes[i]);
            i = i + 1;
        }
        assert(bytes@.take(n as int) =~= bytes@);
        let mut out: Vec<bool> = bs.bits;
        out.truncate(bit_len);
        Bitstring { bits: out }
    }
}

} // verus!
