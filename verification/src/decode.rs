//! The type-directed decoder, the inverse traversal of the encoder.
//!
//! Composite values read their two-bit placement header: `10` continues
//! inline, `00` descends into the next child reference.  The reserved
//! headers `01` and `11` are rejected.  Reads past the end of the data
//! report exhaustion.

use vstd::prelude::*;
use vstd::arithmetic::power2::pow2;
use crate::AbiError;
use crate::bits::bits_val;
use crate::bitstring::Bitstring;
use crate::slice::{
    SliceData, SliceV, s_read_bit, s_read_bits, s_take_ref, s_size, s_inv, lemma_read_bit_size,
    lemma_read_bit_fields, lemma_read_bits_size, lemma_read_bits_fields, lemma_read_bits_len,
    lemma_bits_val_bound, pow2_spec,
};
use crate::types::{AbiType, TypeV};
use crate::value::{AbiValue, ValueV};

verus! {

broadcast use {vstd::std_specs::vec::group_vec_axioms, vstd::seq::group_seq_axioms};

/// The signed value of a two's-complement big-endian bit pattern.
pub open spec fn sbits_val(bs: Seq<bool>) -> int {
    if bs.len() > 0 && bs[0] {
        bits_val(bs) - pow2(bs.len())
    } else {
        bits_val(bs) as int
    }
}

/// Reading a placement header: `10` means inline, `00` means referenced,
/// anything else is malformed.
pub open spec fn dec_header(s: SliceV) -> Result<(bool, SliceV), AbiError> {
    match s_read_bits(s, 2) {
        Option::None => Err(AbiError::DataExhausted),
        Option::Some((bs, s1)) => if bs[0] && !bs[1] {
            Ok((true, s1))
        } else if !bs[0] && !bs[1] {
            Ok((false, s1))
        } else {
            Err(AbiError::InvalidData)
        },
    }
}

/// Reading a continuation-bit byte stream: bytes follow while their
/// high bit is set.
pub open spec fn dec_leb(s: SliceV) -> Result<(Seq<u8>, SliceV), AbiError>
    decreases s_size(s),
    when s_inv(s)
{
    match s_read_bits(s, 8) {
        Option::None => Err(AbiError::DataExhausted),
        Option::Some((bits, s1)) => {
            if !bits[0] {
                Ok((seq![bits_val(bits) as u8], s1))
            } else {
                proof {
                    lemma_read_bits_size(s, 8);
                    lemma_read_bits_fields(s, 8);
                }
                match dec_leb(s1) {
                    Err(e) => Err(e),
                    Ok((bs, s2)) => Ok((seq![bits_val(bits) as u8] + bs, s2)),
                }
            }
        },
    }
}

/// Reading every bit that remains reachable.
pub open spec fn read_rest(s: SliceV) -> (Seq<bool>, SliceV)
    decreases s_size(s),
    when s_inv(s)
{
    match s_read_bit(s) {
        Option::None => (Seq::empty(), s),
        Option::Some((b, s1)) => {
            proof {
                lemma_read_bit_size(s);
                lemma_read_bit_fields(s);
            }
            let (bs, s2) = read_rest(s1);
            (seq![b] + bs, s2)
        },
    }
}

/// Decoding one value of type `t`.
pub open spec fn dec_value(t: TypeV, s: SliceV) -> Result<(ValueV, SliceV), AbiError>
    decreases t, 0nat, 0nat,
{
    match t {
        TypeV::Uint(w) => match s_read_bits(s, w) {
            Option::None => Err(AbiError::DataExhausted),
            Option::Some((bs, s1)) => Ok((ValueV::Uint(w, bits_val(bs)), s1)),
        },
        TypeV::Int(w) => match s_read_bits(s, w) {
            Option::None => Err(AbiError::DataExhausted),
            Option::Some((bs, s1)) => Ok((ValueV::Int(w, sbits_val(bs)), s1)),
        },
        TypeV::Bool => match s_read_bit(s) {
            Option::None => Err(AbiError::DataExhausted),
            Option::Some((b, s1)) => Ok((ValueV::Bool(b), s1)),
        },
        TypeV::Dint => match dec_leb(s) {
            Err(e) => Err(e),
            Ok((bs, s1)) => Ok((ValueV::Dint(bs), s1)),
        },
        TypeV::Duint => match dec_leb(s) {
            Err(e) => Err(e),
            Ok((bs, s1)) => Ok((ValueV::Duint(bs), s1)),
        },
        TypeV::Bits(n) => match dec_header(s) {
            Err(e) => Err(e),
            Ok((true, s1)) => match s_read_bits(s1, n) {
                Option::None => Err(AbiError::DataExhausted),
                Option::Some((bs, s2)) => Ok((ValueV::Bits(bs), s2)),
            },
            Ok((false, s1)) => match s_take_ref(s1) {
                Option::None => Err(AbiError::DataExhausted),
                Option::Some((c, s2)) => match s_read_bits(
                    SliceV { cell: c, dpos: 0, rpos: 0 },
                    n,
                ) {
                    Option::None => Err(AbiError::DataExhausted),
                    Option::Some((bs, _)) => Ok((ValueV::Bits(bs), s2)),
                },
            },
        },
        TypeV::Bitstring => match dec_header(s) {
            Err(e) => Err(e),
            Ok((true, s1)) => match s_read_bits(s1, 8) {
                Option::None => Err(AbiError::DataExhausted),
                Option::Some((lb, s2)) => match s_read_bits(s2, bits_val(lb)) {
                    Option::None => Err(AbiError::DataExhausted),
                    Option::Some((bs, s3)) => Ok((ValueV::Bitstring(bs), s3)),
                },
            },
            Ok((false, s1)) => match s_take_ref(s1) {
                Option::None => Err(AbiError::DataExhausted),
                Option::Some((c, s2)) => {
                    let (bs, _) = read_rest(SliceV { cell: c, dpos: 0, rpos: 0 });
                    Ok((ValueV::Bitstring(bs), s2))
                },
            },
        },
        TypeV::FixedArray(t2, n) => match dec_header(s) {
            Err(e) => Err(e),
            Ok((true, s1)) => match dec_n_elems(*t2, n, s1) {
                Err(e) => Err(e),
                Ok((vs, s2)) => Ok((ValueV::FixedArray(*t2, vs), s2)),
            },
            Ok((false, s1)) => match s_take_ref(s1) {
                Option::None => Err(AbiError::DataExhausted),
                Option::Some((c, s2)) => match dec_n_elems(
                    *t2,
                    n,
                    SliceV { cell: c, dpos: 0, rpos: 0 },
                ) {
                    Err(e) => Err(e),
                    Ok((vs, _)) => Ok((ValueV::FixedArray(*t2, vs), s2)),
                },
            },
        },
        TypeV::DynArray(t2) => match dec_header(s) {
            Err(e) => Err(e),
            Ok((true, s1)) => match s_read_bits(s1, 8) {
                Option::None => Err(AbiError::DataExhausted),
                Option::Some((lb, s2)) => match dec_n_elems(*t2, bits_val(lb), s2) {
                    Err(e) => Err(e),
                    Ok((vs, s3)) => Ok((ValueV::DynArray(*t2, vs), s3)),
                },
            },
            Ok((false, s1)) => match s_take_ref(s1) {
                Option::None => Err(AbiError::DataExhausted),
                Option::Some((c, s2)) => match dec_until(
                    *t2,
                    255,
                    SliceV { cell: c, dpos: 0, rpos: 0 },
                ) {
                    Err(e) => Err(e),
                    Ok((vs, _)) => Ok((ValueV::DynArray(*t2, vs), s2)),
                },
            },
        },
        TypeV::Tuple(ts) => match dec_fields(ts, s) {
            Err(e) => Err(e),
            Ok((vs, s1)) => Ok((ValueV::Tuple(vs), s1)),
        },
    }
}

/// Decoding exactly `n` values of type `t`, in order.
pub open spec fn dec_n_elems(t: TypeV, n: nat, s: SliceV) -> Result<(Seq<ValueV>, SliceV), AbiError>
    decreases t, 1nat, n,
{
    if n == 0 {
        Ok((Seq::empty(), s))
    } else {
        match dec_value(t, s) {
            Err(e) => Err(e),
            Ok((v, s1)) => match dec_n_elems(t, (n - 1) as nat, s1) {
                Err(e) => Err(e),
                Ok((vs, s2)) => Ok((seq![v] + vs, s2)),
            },
        }
    }
}

/// Decoding values of type `t` until the data runs out, at most `fuel`
/// of them; more is malformed.
pub open spec fn dec_until(t: TypeV, fuel: nat, s: SliceV) -> Result<
    (Seq<ValueV>, SliceV),
    AbiError,
>
    decreases t, 1nat, fuel,
{
    if s_read_bit(s) is None {
        Ok((Seq::empty(), s))
    } else if fuel == 0 {
        Err(AbiError::InvalidData)
    } else {
        match dec_value(t, s) {
            Err(e) => Err(e),
            Ok((v, s1)) => match dec_until(t, (fuel - 1) as nat, s1) {
                Err(e) => Err(e),
                Ok((vs, s2)) => Ok((seq![v] + vs, s2)),
            },
        }
    }
}

/// Decoding one value for each type of a list, in order.
pub open spec fn dec_fields(ts: Seq<TypeV>, s: SliceV) -> Result<(Seq<ValueV>, SliceV), AbiError>
    decreases ts, 0nat, 0nat,
{
    if ts.len() == 0 {
        Ok((Seq::empty(), s))
    } else {
        match dec_value(ts[0], s) {
            Err(e) => Err(e),
            Ok((v, s1)) => match dec_fields(ts.drop_first(), s1) {
                Err(e) => Err(e),
                Ok((vs, s2)) => Ok((seq![v] + vs, s2)),
            },
        }
    }
}

/// Prefixing a partial result onto a continuation's outcome.
pub open spec fn dec_compose(prefix: Seq<ValueV>, r: Result<(Seq<ValueV>, SliceV), AbiError>)
    -> Result<(Seq<ValueV>, SliceV), AbiError> {
    match r {
        Err(e) => Err(e),
        Ok((vs, s2)) => Ok((prefix + vs, s2)),
    }
}

/// The two's-complement reading of an unsigned `w`-bit value.
fn to_signed(val: u128, w: usize) -> (r: i128)
    requires
        w == 8 || w == 16 || w == 32 || w == 64 || w == 128,
        val < pow2(w as nat),
    ensures
        r as int == (if val < pow2((w - 1) as nat) {
            val as int
        } else {
            val as int - pow2(w as nat) as int
        }),
{
    proof {
        crate::bits::lemma_pow2_widths();
    }
    if w == 8 {
        if val < 128 {
            val as i128
        } else {
            (val as i128) - 256
        }
    } else if w == 16 {
        if val < 0x8000 {
            val as i128
        } else {
            (val as i128) - 0x1_0000
        }
    } else if w == 32 {
        if val < 0x8000_0000 {
            val as i128
        } else {
            (val as i128) - 0x1_0000_0000
        }
    } else if w == 64 {
        if val < 0x8000_0000_0000_0000 {
            val as i128
        } else {
            (val as i128) - 0x1_0000_0000_0000_0000
        }
    } else {
        if val < 0x8000_0000_0000_0000_0000_0000_0000_0000 {
            val as i128
        } else {
            let mag: u128 = (u128::MAX - val) + 1;
            -((mag - 1) as i128) - 1
        }
    }
}

/// The most significant bit of a pattern tells whether the value
/// reaches half of the range.
pub proof fn lemma_bits_msb_pub(bs: Seq<bool>)
    requires
        bs.len() >= 1,
    ensures
        bs[0] <==> bits_val(bs) >= pow2((bs.len() - 1) as nat),
{
    lemma_bits_msb(bs);
}

/// The most significant bit of a pattern tells whether the value
/// reaches half of the range.
proof fn lemma_bits_msb(bs: Seq<bool>)
    requires
        bs.len() >= 1,
    ensures
        bs[0] <==> bits_val(bs) >= pow2((bs.len() - 1) as nat),
    decreases bs.len(),
{
    vstd::arithmetic::power2::lemma2_to64();
    if bs.len() == 1 {
        assert(bs.drop_last() =~= Seq::<bool>::empty());
        assert(bits_val(bs.drop_last()) == 0);
        assert(bits_val(bs) == 2 * bits_val(bs.drop_last()) + (if bs.last() { 1nat } else { 0nat }));
        assert(bs.last() == bs[0]);
    } else {
        lemma_bits_msb(bs.drop_last());
        lemma_bits_val_bound(bs.drop_last());
        vstd::arithmetic::power2::lemma_pow2_unfold((bs.len() - 1) as nat);
        assert(bs.drop_last()[0] == bs[0]);
        assert(bits_val(bs) == 2 * bits_val(bs.drop_last()) + (if bs.last() { 1nat } else { 0nat }));
        assert(bs.len() - 1 >= 1);
        assert(pow2((bs.len() - 1) as nat) == 2 * pow2((bs.len() - 2) as nat));
    }
}

/// Decodes one value of type `t` from the reader.
pub fn decode_value(t: &AbiType, s: &mut SliceData) -> (r: Result<AbiValue, AbiError>)
    requires
        s_inv(old(s)@),
        crate::types::type_wf(t@),
    ensures
        match dec_value(t@, old(s)@) {
            Ok(p) => {
                &&& r is Ok
                &&& r->Ok_0@ == p.0
                &&& final(s)@ == p.1
                &&& s_inv(p.1)
            },
            Err(e) => r == Result::<AbiValue, AbiError>::Err(e),
        },
    decreases t, 0nat,
{
    match t {
        AbiType::Uint(w) => {
            let ghost s0 = s@;
            let val = match s.get_next_uint(*w) {
                Ok(v) => v,
                Err(e) => {
                    return Err(e);
                },
            };
            proof {
                lemma_read_bits_fields(s0, *w as nat);
            }
            Ok(AbiValue::Uint(*w, val))
        },
        AbiType::Int(w) => {
            let ghost s0 = s@;
            let val = match s.get_next_uint(*w) {
                Ok(v) => v,
                Err(e) => {
                    return Err(e);
                },
            };
            proof {
                lemma_read_bits_fields(s0, *w as nat);
                lemma_read_bits_len(s0, *w as nat);
                let bs = s_read_bits(s0, *w as nat)->Some_0.0;
                lemma_bits_val_bound(bs);
                lemma_bits_msb(bs);
                crate::bits::lemma_pow2_widths();
            }
            let sv = to_signed(val, *w);
            Ok(AbiValue::Int(*w, sv))
        },
        AbiType::Bool => {
            let ghost s0 = s@;
            let b = match s.get_next_bit() {
                Ok(b) => b,
                Err(e) => {
                    return Err(e);
                },
            };
            proof {
                lemma_read_bit_fields(s0);
            }
            Ok(AbiValue::Bool(b))
        },
        AbiType::Dint => {
            let bs = match read_leb_bytes(s) {
                Ok(bs) => bs,
                Err(e) => {
                    return Err(e);
                },
            };
            Ok(AbiValue::Dint(bs))
        },
        AbiType::Duint => {
            let bs = match read_leb_bytes(s) {
                Ok(bs) => bs,
                Err(e) => {
                    return Err(e);
                },
            };
            Ok(AbiValue::Duint(bs))
        },
        AbiType::Bits(n) => decode_bits(*n, s),
        AbiType::Bitstring => decode_bitstring(s),
        AbiType::FixedArray(t2, n) => decode_fixed_array(t2, *n, s),
        AbiType::DynArray(t2) => decode_dyn_array(t2, s),
        AbiType::Tuple(ts) => {
            proof {
                crate::types::lemma_types_view(ts@);
                assert(crate::types::types_all_wf(crate::types::types_view(ts@)));
                assert forall|j: int| 0 <= j < ts@.len()
                    implies crate::types::type_wf(#[trigger] ts@[j]@) by {
                    assert(crate::types::types_view(ts@)[j] == ts@[j]@);
                    assert(crate::types::type_wf(crate::types::types_view(ts@)[j]));
                }
            }
            let vs = match decode_fields(ts, s) {
                Ok(vs) => vs,
                Err(e) => {
                    return Err(e);
                },
            };
            Ok(AbiValue::Tuple(vs))
        },
    }
}


/// Decodes a fixed-width bit array.
fn decode_bits(n: usize, s: &mut SliceData) -> (r: Result<AbiValue, AbiError>)
    requires
        s_inv(old(s)@),
    ensures
        match dec_value(TypeV::Bits(n as nat), old(s)@) {
            Ok(p) => {
                &&& r is Ok
                &&& r->Ok_0@ == p.0
                &&& final(s)@ == p.1
                &&& s_inv(p.1)
            },
            Err(e) => r == Result::<AbiValue, AbiError>::Err(e),
        },
{
    let inline = match read_header(s) {
        Ok(h) => h,
        Err(e) => {
            return Err(e);
        },
    };
    if inline {
        let ghost s1 = s@;
        let bs = match s.get_next_bits(n) {
            Ok(bs) => bs,
            Err(e) => {
                return Err(e);
            },
        };
        proof {
            lemma_read_bits_fields(s1, n as nat);
        }
        Ok(AbiValue::Bits(bs))
    } else {
        let mut child = match s.checked_drain_reference() {
            Ok(c) => c,
            Err(e) => {
                return Err(e);
            },
        };
        let bs = match child.get_next_bits(n) {
            Ok(bs) => bs,
            Err(e) => {
                return Err(e);
            },
        };
        Ok(AbiValue::Bits(bs))
    }
}

/// Decodes a dynamic bit string.
fn decode_bitstring(s: &mut SliceData) -> (r: Result<AbiValue, AbiError>)
    requires
        s_inv(old(s)@),
    ensures
        match dec_value(TypeV::Bitstring, old(s)@) {
            Ok(p) => {
                &&& r is Ok
                &&& r->Ok_0@ == p.0
                &&& final(s)@ == p.1
                &&& s_inv(p.1)
            },
            Err(e) => r == Result::<AbiValue, AbiError>::Err(e),
        },
{
    let inline = match read_header(s) {
        Ok(h) => h,
        Err(e) => {
            return Err(e);
        },
    };
    if inline {
        let ghost s1 = s@;
        let len = match s.get_next_byte() {
            Ok(v) => v,
            Err(e) => {
                return Err(e);
            },
        };
        proof {
            lemma_read_bits_fields(s1, 8);
            lemma_read_bits_len(s1, 8);
            lemma_bits_val_bound(s_read_bits(s1, 8)->Some_0.0);
            vstd::arithmetic::power2::lemma2_to64();
        }
        let ghost s2 = s@;
        let bs = match s.get_next_bits(len as usize) {
            Ok(bs) => bs,
            Err(e) => {
                return Err(e);
            },
        };
        proof {
            lemma_read_bits_fields(s2, len as nat);
        }
        Ok(AbiValue::Bitstring(bs))
    } else {
        let mut child = match s.checked_drain_reference() {
            Ok(c) => c,
            Err(e) => {
                return Err(e);
            },
        };
        let bs = read_all_bits(&mut child);
        Ok(AbiValue::Bitstring(bs))
    }
}

/// Decodes a fixed-size array of `n` values of type `t2`.
fn decode_fixed_array(t2: &AbiType, n: usize, s: &mut SliceData) -> (r: Result<AbiValue, AbiError>)
    requires
        s_inv(old(s)@),
        crate::types::type_wf(t2@),
    ensures
        match dec_value(TypeV::FixedArray(Box::new(t2@), n as nat), old(s)@) {
            Ok(p) => {
                &&& r is Ok
                &&& r->Ok_0@ == p.0
                &&& final(s)@ == p.1
                &&& s_inv(p.1)
            },
            Err(e) => r == Result::<AbiValue, AbiError>::Err(e),
        },
    decreases t2, 2nat,
{
    let inline = match read_header(s) {
        Ok(h) => h,
        Err(e) => {
            return Err(e);
        },
    };
    if inline {
        let vs = match decode_n_elems(t2, n, s) {
            Ok(vs) => vs,
            Err(e) => {
                return Err(e);
            },
        };
        Ok(AbiValue::FixedArray(t2.type_copy(), vs))
    } else {
        let mut child = match s.checked_drain_reference() {
            Ok(c) => c,
            Err(e) => {
                return Err(e);
            },
        };
        let vs = match decode_n_elems(t2, n, &mut child) {
            Ok(vs) => vs,
            Err(e) => {
                return Err(e);
            },
        };
        Ok(AbiValue::FixedArray(t2.type_copy(), vs))
    }
}

/// Decodes a dynamic array of values of type `t2`.
fn decode_dyn_array(t2: &AbiType, s: &mut SliceData) -> (r: Result<AbiValue, AbiError>)
    requires
        s_inv(old(s)@),
        crate::types::type_wf(t2@),
    ensures
        match dec_value(TypeV::DynArray(Box::new(t2@)), old(s)@) {
            Ok(p) => {
                &&& r is Ok
                &&& r->Ok_0@ == p.0
                &&& final(s)@ == p.1
                &&& s_inv(p.1)
            },
            Err(e) => r == Result::<AbiValue, AbiError>::Err(e),
        },
    decreases t2, 2nat,
{
    let inline = match read_header(s) {
        Ok(h) => h,
        Err(e) => {
            return Err(e);
        },
    };
    if inline {
        let ghost s1 = s@;
        let count = match s.get_next_byte() {
            Ok(v) => v,
            Err(e) => {
                return Err(e);
            },
        };
        proof {
            lemma_read_bits_fields(s1, 8);
            lemma_read_bits_len(s1, 8);
            lemma_bits_val_bound(s_read_bits(s1, 8)->Some_0.0);
            vstd::arithmetic::power2::lemma2_to64();
        }
        let vs = match decode_n_elems(t2, count as usize, s) {
            Ok(vs) => vs,
            Err(e) => {
                return Err(e);
            },
        };
        Ok(AbiValue::DynArray(t2.type_copy(), vs))
    } else {
        let mut child = match s.checked_drain_reference() {
            Ok(c) => c,
            Err(e) => {
                return Err(e);
            },
        };
        let vs = match decode_until(t2, &mut child) {
            Ok(vs) => vs,
            Err(e) => {
                return Err(e);
            },
        };
        Ok(AbiValue::DynArray(t2.type_copy(), vs))
    }
}

impl SliceData {
    /// Reads the next `w` bits as a big-endian two's-complement signed
    /// value, `w` one of the supported widths.
    pub fn get_next_int(&mut self, w: usize) -> (r: Result<i128, AbiError>)
        requires
            w == 8 || w == 16 || w == 32 || w == 64 || w == 128,
        ensures
            match s_read_bits(old(self)@, w as nat) {
                Option::Some((bs, s2)) => {
                    &&& r is Ok
                    &&& r->Ok_0 as int == sbits_val(bs)
                    &&& final(self)@ == s2
                },
                Option::None => r == Result::<i128, AbiError>::Err(AbiError::DataExhausted),
            },
    {
        let ghost s0 = self@;
        let val = match self.get_next_uint(w) {
            Ok(v) => v,
            Err(e) => {
                return Err(e);
            },
        };
        proof {
            lemma_read_bits_len(s0, w as nat);
            let bs = s_read_bits(s0, w as nat)->Some_0.0;
            lemma_bits_val_bound(bs);
            lemma_bits_msb(bs);
            crate::bits::lemma_pow2_widths();
        }
        Ok(to_signed(val, w))
    }
}

/// Reads a placement header.
fn read_header(s: &mut SliceData) -> (r: Result<bool, AbiError>)
    requires
        s_inv(old(s)@),
    ensures
        match dec_header(old(s)@) {
            Ok(p) => {
                &&& r == Result::<bool, AbiError>::Ok(p.0)
                &&& final(s)@ == p.1
                &&& s_inv(p.1)
            },
            Err(e) => r == Result::<bool, AbiError>::Err(e),
        },
{
    let ghost s0 = s@;
    let bs = match s.get_next_bits(2) {
        Ok(bs) => bs,
        Err(e) => {
            return Err(e);
        },
    };
    proof {
        lemma_read_bits_fields(s0, 2);
        lemma_read_bits_len(s0, 2);
    }
    let b0 = bs.get(0);
    let b1 = bs.get(1);
    if b0 && !b1 {
        Ok(true)
    } else if !b0 && !b1 {
        Ok(false)
    } else {
        Err(AbiError::InvalidData)
    }
}

/// Reads continuation-bit bytes until one with a clear high bit.
fn read_leb_bytes(s: &mut SliceData) -> (r: Result<Vec<u8>, AbiError>)
    requires
        s_inv(old(s)@),
    ensures
        match dec_leb(old(s)@) {
            Ok(p) => {
                &&& r is Ok
                &&& r->Ok_0@ == p.0
                &&& final(s)@ == p.1
                &&& s_inv(p.1)
            },
            Err(e) => r == Result::<Vec<u8>, AbiError>::Err(e),
        },
{
    let mut out: Vec<u8> = Vec::new();
    proof {
        if dec_leb(old(s)@) is Ok {
            let (bs0, t0) = dec_leb(old(s)@)->Ok_0;
            assert(Seq::<u8>::empty() + bs0 =~= bs0);
        }
    }
    loop
        invariant
            s_inv(s@),
            dec_leb(old(s)@) == (match dec_leb(s@) {
                Err(e) => Result::<(Seq<u8>, SliceV), AbiError>::Err(e),
                Ok((bs, s2)) => Ok((out@ + bs, s2)),
            }),
        decreases s_size(s@),
    {
        let ghost cur = s@;
        let bs = match s.get_next_bits(8) {
            Ok(bs) => bs,
            Err(e) => {
                return Err(e);
            },
        };
        proof {
            lemma_read_bits_fields(cur, 8);
            lemma_read_bits_len(cur, 8);
            lemma_read_bits_size(cur, 8);
            lemma_bits_val_bound(s_read_bits(cur, 8)->Some_0.0);
            vstd::arithmetic::power2::lemma2_to64();
        }
        let cont = bs.get(0);
        let mut v: u8 = 0;
        let mut j: usize = 0;
        proof {
            assert(bs@.take(0) =~= Seq::<bool>::empty());
        }
        while j < 8
            invariant
                bs@.len() == 8,
                j <= 8,
                v as nat == bits_val(bs@.take(j as int)),
                v < pow2_spec(j as nat),
            decreases 8 - j,
        {
            proof {
                vstd::arithmetic::power2::lemma2_to64();
                vstd::arithmetic::power2::lemma_pow2_unfold((j + 1) as nat);
                assert(bs@.take(j + 1).drop_last() =~= bs@.take(j as int));
            }
            let b = bs.get(j);
            v = 2 * v + (if b { 1 } else { 0 });
            j = j + 1;
        }
        proof {
            assert(bs@.take(8) =~= bs@);
        }
        let ghost out0 = out@;
        out.push(v);
        if !cont {
            proof {
                assert(dec_leb(cur) == Result::<(Seq<u8>, SliceV), AbiError>::Ok(
                    (seq![v], s@),
                ));
                assert(out@.drop_last() =~= out0);
                assert(out0 + seq![v] =~= out@);
            }
            return Ok(out);
        }
        proof {
            assert(dec_leb(cur) == (match dec_leb(s@) {
                Err(e) => Result::<(Seq<u8>, SliceV), AbiError>::Err(e),
                Ok((bs2, s2)) => Ok((seq![v] + bs2, s2)),
            }));
            assert(out@.drop_last() =~= out0);
            if dec_leb(s@) is Ok {
                let (bs2, t2) = dec_leb(s@)->Ok_0;
                assert(out0 + (seq![v] + bs2) =~= out@ + bs2);
            }
        }
    }
}

/// Reads every remaining bit of the reader.
fn read_all_bits(s: &mut SliceData) -> (r: Bitstring)
    requires
        s_inv(old(s)@),
    ensures
        r@ == read_rest(old(s)@).0,
        final(s)@ == read_rest(old(s)@).1,
{
    let mut out = Bitstring::new();
    proof {
        assert(Seq::<bool>::empty() + read_rest(old(s)@).0 =~= read_rest(old(s)@).0);
    }
    loop
        invariant
            s_inv(s@),
            read_rest(old(s)@).0 == out@ + read_rest(s@).0,
            read_rest(old(s)@).1 == read_rest(s@).1,
        decreases s_size(s@),
    {
        let ghost cur = s@;
        if !s.has_more() {
            proof {
                assert(read_rest(cur).0 =~= Seq::<bool>::empty());
                assert(out@ + Seq::<bool>::empty() =~= out@);
            }
            return out;
        }
        let b = match s.get_next_bit() {
            Ok(b) => b,
            Err(_) => {
                proof {
                    assert(false);
                }
                return out;
            },
        };
        proof {
            lemma_read_bit_size(cur);
            lemma_read_bit_fields(cur);
        }
        out.append_bit(b);
        proof {
            assert(out@.drop_last() + (seq![b] + read_rest(s@).0) =~= out@ + read_rest(s@).0);
        }
    }
}

/// Decodes exactly `n` values of type `t`.
fn decode_n_elems(t: &AbiType, n: usize, s: &mut SliceData) -> (r: Result<Vec<AbiValue>, AbiError>)
    requires
        s_inv(old(s)@),
        crate::types::type_wf(t@),
    ensures
        match dec_n_elems(t@, n as nat, old(s)@) {
            Ok(p) => {
                &&& r is Ok
                &&& crate::value::values_view(r->Ok_0@) == p.0
                &&& final(s)@ == p.1
                &&& s_inv(p.1)
            },
            Err(e) => r == Result::<Vec<AbiValue>, AbiError>::Err(e),
        },
    decreases t, 1nat,
{
    let mut out: Vec<AbiValue> = Vec::new();
    let mut i: usize = 0;
    proof {
        crate::value::lemma_values_view(out@);
        assert(crate::value::values_view(out@) =~= Seq::<ValueV>::empty());
    }
    while i < n
        invariant
            i <= n,
            s_inv(s@),
            crate::types::type_wf(t@),
            dec_n_elems(t@, n as nat, old(s)@) == dec_compose(
                crate::value::values_view(out@),
                dec_n_elems(t@, (n - i) as nat, s@),
            ),
        decreases n - i,
    {
        let ghost cur = s@;
        let ghost acc = crate::value::values_view(out@);
        let ghost out0 = out@;
        let v = match decode_value(t, s) {
            Ok(v) => v,
            Err(e) => {
                return Err(e);
            },
        };
        let ghost vspec = dec_value(t@, cur)->Ok_0.0;
        out.push(v);
        i = i + 1;
        proof {
            assert(out@.drop_last() =~= out0);
            assert(crate::value::values_view(out@) == crate::value::values_view(
                out@.drop_last(),
            ).push(out@.last()@));
            assert(crate::value::values_view(out@) == acc.push(vspec));
            if dec_n_elems(t@, (n - i) as nat, s@) is Ok {
                let (vs2, t2) = dec_n_elems(t@, (n - i) as nat, s@)->Ok_0;
                assert(acc + (seq![vspec] + vs2) =~= acc.push(vspec) + vs2);
            }
        }
    }
    proof {
        assert(dec_n_elems(t@, 0, s@) == Result::<(Seq<ValueV>, SliceV), AbiError>::Ok(
            (Seq::<ValueV>::empty(), s@),
        ));
        assert(crate::value::values_view(out@) + Seq::<ValueV>::empty() =~= crate::value::values_view(out@));
    }
    Ok(out)
}

/// Decodes values of type `t` until the data runs out; more than 255 is
/// malformed.
fn decode_until(t: &AbiType, s: &mut SliceData) -> (r: Result<Vec<AbiValue>, AbiError>)
    requires
        s_inv(old(s)@),
        crate::types::type_wf(t@),
    ensures
        match dec_until(t@, 255, old(s)@) {
            Ok(p) => {
                &&& r is Ok
                &&& crate::value::values_view(r->Ok_0@) == p.0
                &&& final(s)@ == p.1
                &&& s_inv(p.1)
            },
            Err(e) => r == Result::<Vec<AbiValue>, AbiError>::Err(e),
        },
    decreases t, 1nat,
{
    let mut out: Vec<AbiValue> = Vec::new();
    let mut fuel: usize = 255;
    proof {
        crate::value::lemma_values_view(out@);
        assert(crate::value::values_view(out@) =~= Seq::<ValueV>::empty());
    }
    loop
        invariant
            fuel <= 255,
            s_inv(s@),
            crate::types::type_wf(t@),
            dec_until(t@, 255, old(s)@) == dec_compose(
                crate::value::values_view(out@),
                dec_until(t@, fuel as nat, s@),
            ),
        decreases fuel,
    {
        let ghost cur = s@;
        let ghost acc = crate::value::values_view(out@);
        if !s.has_more() {
            proof {
                assert(dec_until(t@, fuel as nat, cur)
                    == Result::<(Seq<ValueV>, SliceV), AbiError>::Ok(
                    (Seq::<ValueV>::empty(), cur),
                ));
                assert(acc + Seq::<ValueV>::empty() =~= acc);
            }
            return Ok(out);
        }
        if fuel == 0 {
            return Err(AbiError::InvalidData);
        }
        let ghost out0 = out@;
        let v = match decode_value(t, s) {
            Ok(v) => v,
            Err(e) => {
                return Err(e);
            },
        };
        let ghost vspec = dec_value(t@, cur)->Ok_0.0;
        out.push(v);
        fuel = fuel - 1;
        proof {
            assert(out@.drop_last() =~= out0);
            assert(crate::value::values_view(out@) == crate::value::values_view(
                out@.drop_last(),
            ).push(out@.last()@));
            assert(crate::value::values_view(out@) == acc.push(vspec));
            if dec_until(t@, fuel as nat, s@) is Ok {
                let (vs2, t2) = dec_until(t@, fuel as nat, s@)->Ok_0;
                assert(acc + (seq![vspec] + vs2) =~= acc.push(vspec) + vs2);
            }
        }
    }
}

/// Decodes one value for each type of `ts`, in order.
pub fn decode_fields(ts: &Vec<AbiType>, s: &mut SliceData) -> (r: Result<Vec<AbiValue>, AbiError>)
    requires
        s_inv(old(s)@),
        forall|j: int| 0 <= j < ts@.len() ==> crate::types::type_wf(#[trigger] ts@[j]@),
    ensures
        match dec_fields(crate::types::types_view(ts@), old(s)@) {
            Ok(p) => {
                &&& r is Ok
                &&& crate::value::values_view(r->Ok_0@) == p.0
                &&& final(s)@ == p.1
                &&& s_inv(p.1)
            },
            Err(e) => r == Result::<Vec<AbiValue>, AbiError>::Err(e),
        },
    decreases ts, 0nat,
{
    let mut out: Vec<AbiValue> = Vec::new();
    let n = ts.len();
    let mut i: usize = 0;
    proof {
        crate::types::lemma_types_view(ts@);
        crate::value::lemma_values_view(out@);
        assert(crate::value::values_view(out@) =~= Seq::<ValueV>::empty());
        assert(crate::types::types_view(ts@).skip(0) =~= crate::types::types_view(ts@));
    }
    while i < n
        invariant
            i <= n == ts@.len(),
            s_inv(s@),
            forall|j: int| 0 <= j < n ==> crate::types::type_wf(#[trigger] ts@[j]@),
            crate::types::types_view(ts@).len() == n,
            forall|j: int| 0 <= j < n ==> crate::types::types_view(ts@)[j] == ts@[j]@,
            dec_fields(crate::types::types_view(ts@), old(s)@) == dec_compose(
                crate::value::values_view(out@),
                dec_fields(crate::types::types_view(ts@).skip(i as int), s@),
            ),
        decreases n - i,
    {
        let ghost cur = s@;
        let ghost acc = crate::value::values_view(out@);
        let ghost tv = crate::types::types_view(ts@);
        proof {
            assert(tv.skip(i as int)[0] == ts@[i as int]@);
            assert(tv.skip(i as int).drop_first() =~= tv.skip(i + 1));
        }
        let ghost out0 = out@;
        let v = match decode_value(&ts[i], s) {
            Ok(v) => v,
            Err(e) => {
                return Err(e);
            },
        };
        let ghost vspec = dec_value(ts@[i as int]@, cur)->Ok_0.0;
        out.push(v);
        i = i + 1;
        proof {
            assert(out@.drop_last() =~= out0);
            assert(crate::value::values_view(out@) == crate::value::values_view(
                out@.drop_last(),
            ).push(out@.last()@));
            assert(crate::value::values_view(out@) == acc.push(vspec));
            let tv2 = crate::types::types_view(ts@);
            if dec_fields(tv2.skip(i as int), s@) is Ok {
                let (vs2, t2) = dec_fields(tv2.skip(i as int), s@)->Ok_0;
                assert(acc + (seq![vspec] + vs2) =~= acc.push(vspec) + vs2);
            }
        }
    }
    proof {
        assert(crate::types::types_view(ts@).skip(n as int) =~= Seq::<TypeV>::empty());
        assert(dec_fields(Seq::<TypeV>::empty(), s@)
            == Result::<(Seq<ValueV>, SliceV), AbiError>::Ok((Seq::<ValueV>::empty(), s@)));
        assert(crate::value::values_view(out@) + Seq::<ValueV>::empty()
            =~= crate::value::values_view(out@));
    }
    Ok(out)
}

} // verus!
