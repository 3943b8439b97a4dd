//! Typed runtime values of the ABI grammar, with their well-formedness
//! and their agreement with a declared type.

use vstd::prelude::*;
use vstd::arithmetic::power2::pow2;
use crate::bits::lemma_pow2_widths;
use crate::bitstring::Bitstring;
use crate::types::{AbiType, TypeV, type_wf, type_min_bits, types_view, lemma_types_view};

verus! {

broadcast use {vstd::std_specs::vec::group_vec_axioms, vstd::seq::group_seq_axioms};

/// A typed value.  Array values carry their element type, so that empty
/// arrays still render a full signature.
pub enum AbiValue {
    /// An unsigned fixed-width integer; the width is one of 8, 16, 32,
    /// 64, 128.
    Uint(usize, u128),
    /// A signed fixed-width integer, two's complement.
    Int(usize, i128),
    /// A boolean, one bit.
    Bool(bool),
    /// A variable-length signed integer, held as its continuation-bit
    /// byte encoding.
    Dint(Vec<u8>),
    /// A variable-length unsigned integer, held as its continuation-bit
    /// byte encoding.
    Duint(Vec<u8>),
    /// A fixed-width bit array.
    Bits(Bitstring),
    /// A dynamic bit string.
    Bitstring(Bitstring),
    /// A fixed-size array of values of the carried element type.
    FixedArray(AbiType, Vec<AbiValue>),
    /// A dynamic array of values of the carried element type.
    DynArray(AbiType, Vec<AbiValue>),
    /// A tuple of values.
    Tuple(Vec<AbiValue>),
}

/// The mathematical shape of a value.
pub enum ValueV {
    Uint(nat, nat),
    Int(nat, int),
    Bool(bool),
    Dint(Seq<u8>),
    Duint(Seq<u8>),
    Bits(Seq<bool>),
    Bitstring(Seq<bool>),
    FixedArray(TypeV, Seq<ValueV>),
    DynArray(TypeV, Seq<ValueV>),
    Tuple(Seq<ValueV>),
}

impl View for AbiValue {
    type V = ValueV;

    open spec fn view(&self) -> ValueV
        decreases self,
    {
        match self {
            AbiValue::Uint(w, x) => ValueV::Uint(*w as nat, *x as nat),
            AbiValue::Int(w, x) => ValueV::Int(*w as nat, *x as int),
            AbiValue::Bool(b) => ValueV::Bool(*b),
            AbiValue::Dint(bs) => ValueV::Dint(bs@),
            AbiValue::Duint(bs) => ValueV::Duint(bs@),
            AbiValue::Bits(bs) => ValueV::Bits(bs@),
            AbiValue::Bitstring(bs) => ValueV::Bitstring(bs@),
            AbiValue::FixedArray(t, vs) => ValueV::FixedArray(t@, values_view(vs@)),
            AbiValue::DynArray(t, vs) => ValueV::DynArray(t@, values_view(vs@)),
            AbiValue::Tuple(vs) => ValueV::Tuple(values_view(vs@)),
        }
    }
}

/// The views of a sequence of values, in order.
pub open spec fn values_view(vs: Seq<AbiValue>) -> Seq<ValueV>
    decreases vs,
{
    if vs.len() == 0 {
        Seq::empty()
    } else {
        values_view(vs.drop_last()).push(vs.last()@)
    }
}

/// `values_view` maps the view over the sequence, element by element.
pub proof fn lemma_values_view(vs: Seq<AbiValue>)
    ensures
        values_view(vs).len() == vs.len(),
        forall|i: int| 0 <= i < vs.len() ==> values_view(vs)[i] == vs[i]@,
    decreases vs.len(),
{
    if vs.len() == 0 {
        assert(values_view(vs) =~= Seq::<ValueV>::empty());
    } else {
        lemma_values_view(vs.drop_last());
        assert(values_view(vs) == values_view(vs.drop_last()).push(vs.last()@));
        assert forall|i: int| 0 <= i < vs.len() implies values_view(vs)[i] == vs[i]@ by {
            if i < vs.len() - 1 {
                assert(vs.drop_last()[i] == vs[i]);
                assert(values_view(vs)[i] == values_view(vs.drop_last())[i]);
            } else {
                assert(vs.last() == vs[i]);
            }
        }
    }
}

/// The byte shape of a variable-length integer: at least one byte, a set
/// continuation bit on every byte but the last, a clear one on the last.
pub open spec fn leb_shape(bs: Seq<u8>) -> bool {
    &&& bs.len() >= 1
    &&& bs.last() < 128
    &&& forall|i: int| 0 <= i < bs.len() - 1 ==> #[trigger] bs[i] >= 128
}

/// A well-formed value: widths are supported, fixed integers lie in the
/// range of their width, variable-length integers carry a valid byte
/// shape, and arrays hold at most 255 well-formed values of their
/// element type.
pub open spec fn value_wf(v: ValueV) -> bool
    decreases v,
{
    match v {
        ValueV::Uint(w, x) => (w == 8 || w == 16 || w == 32 || w == 64 || w == 128) && x < pow2(
            w,
        ),
        ValueV::Int(w, x) => (w == 8 || w == 16 || w == 32 || w == 64 || w == 128) && -(pow2(
            (w - 1) as nat,
        ) as int) <= x < pow2((w - 1) as nat) as int,
        ValueV::Bool(_) => true,
        ValueV::Dint(bs) => leb_shape(bs) && 8 * bs.len() <= usize::MAX,
        ValueV::Duint(bs) => leb_shape(bs) && 8 * bs.len() <= usize::MAX,
        ValueV::Bits(bs) => bs.len() >= 1 && bs.len() + 16 <= usize::MAX,
        ValueV::Bitstring(bs) => bs.len() + 16 <= usize::MAX,
        ValueV::FixedArray(t, vs) => {
            &&& type_wf(t)
            &&& vals_all_wf(vs)
            &&& vals_all_of(vs, t)
        },
        ValueV::DynArray(t, vs) => {
            &&& type_wf(t)
            &&& type_min_bits(t) >= 1
            &&& vs.len() <= 255
            &&& vals_all_wf(vs)
            &&& vals_all_of(vs, t)
        },
        ValueV::Tuple(vs) => vals_all_wf(vs),
    }
}

/// Every value of the sequence is well formed.
pub open spec fn vals_all_wf(vs: Seq<ValueV>) -> bool
    decreases vs,
{
    forall|i: int| 0 <= i < vs.len() ==> value_wf(#[trigger] vs[i])
}

/// Every value of the sequence belongs to the one element type.
pub open spec fn vals_all_of(vs: Seq<ValueV>, t: TypeV) -> bool
    decreases vs,
{
    forall|i: int| 0 <= i < vs.len() ==> value_has_type(#[trigger] vs[i], t)
}

/// Each value belongs to the type at its position.
pub open spec fn vals_each_of(vs: Seq<ValueV>, ts: Seq<TypeV>) -> bool
    decreases vs,
{
    forall|i: int| 0 <= i < vs.len() ==> value_has_type(#[trigger] vs[i], ts[i])
}

/// Whether a value belongs to a declared type.
pub open spec fn value_has_type(v: ValueV, t: TypeV) -> bool
    decreases v,
{
    match v {
        ValueV::Uint(w, _) => t == TypeV::Uint(w),
        ValueV::Int(w, _) => t == TypeV::Int(w),
        ValueV::Bool(_) => t == TypeV::Bool,
        ValueV::Dint(_) => t == TypeV::Dint,
        ValueV::Duint(_) => t == TypeV::Duint,
        ValueV::Bits(bs) => t == TypeV::Bits(bs.len()),
        ValueV::Bitstring(_) => t == TypeV::Bitstring,
        ValueV::FixedArray(te, vs) => t == TypeV::FixedArray(Box::new(te), vs.len()),
        ValueV::DynArray(te, vs) => t == TypeV::DynArray(Box::new(te)),
        ValueV::Tuple(vs) => {
            match t {
                TypeV::Tuple(ts) => vs.len() == ts.len() && vals_each_of(vs, ts),
                _ => false,
            }
        },
    }
}

impl AbiValue {
    /// Whether the value is well formed and belongs to the declared
    /// type: the runtime counterpart of `value_wf` and
    /// `value_has_type`, for callers whose inputs are not known good.
    pub fn conforms_to(&self, t: &AbiType) -> (r: bool)
        ensures
            r == (value_wf(self@) && value_has_type(self@, t@)),
        decreases self,
    {
        proof {
            lemma_pow2_widths();
        }
        match (self, t) {
            (AbiValue::Uint(w, x), AbiType::Uint(w2)) => {
                let range_ok = if *w == 8 {
                    *x < 0x100
                } else if *w == 16 {
                    *x < 0x1_0000
                } else if *w == 32 {
                    *x < 0x1_0000_0000
                } else if *w == 64 {
                    *x < 0x1_0000_0000_0000_0000
                } else {
                    *w == 128
                };
                w == w2 && range_ok
            },
            (AbiValue::Int(w, x), AbiType::Int(w2)) => {
                let range_ok = if *w == 8 {
                    -0x80 <= *x && *x < 0x80
                } else if *w == 16 {
                    -0x8000 <= *x && *x < 0x8000
                } else if *w == 32 {
                    -0x8000_0000 <= *x && *x < 0x8000_0000
                } else if *w == 64 {
                    -0x8000_0000_0000_0000 <= *x && *x < 0x8000_0000_0000_0000
                } else {
                    *w == 128
                };
                w == w2 && range_ok
            },
            (AbiValue::Bool(_), AbiType::Bool) => true,
            (AbiValue::Dint(bs), AbiType::Dint) => leb_ok(bs),
            (AbiValue::Duint(bs), AbiType::Duint) => leb_ok(bs),
            (AbiValue::Bits(bs), AbiType::Bits(n)) => {
                let len = bs.length_in_bits();
                len == *n && len >= 1 && len <= usize::MAX - 16
            },
            (AbiValue::Bitstring(bs), AbiType::Bitstring) => {
                bs.length_in_bits() <= usize::MAX - 16
            },
            (AbiValue::FixedArray(te, vs), AbiType::FixedArray(t2, n)) => {
                let r = te.same_type(t2) && vs.len() == *n && te.well_formed()
                    && vals_conform(vs, te);
                proof {
                    lemma_values_view(vs@);
                    assert(*Box::new(te@) == te@);
                    assert(*Box::new(t2@) == t2@);
                }
                r
            },
            (AbiValue::DynArray(te, vs), AbiType::DynArray(t2)) => {
                let r = te.same_type(t2) && te.well_formed() && te.occupies_bits() && vs.len()
                    <= 255 && vals_conform(vs, te);
                proof {
                    lemma_values_view(vs@);
                    assert(*Box::new(te@) == te@);
                    assert(*Box::new(t2@) == t2@);
                }
                r
            },
            (AbiValue::Tuple(vs), AbiType::Tuple(ts)) => vals_conform_each(vs, ts),
            _ => false,
        }
    }
}

/// Whether every value of a vector is well formed and belongs to the
/// one element type.
fn vals_conform(vs: &Vec<AbiValue>, t: &AbiType) -> (r: bool)
    ensures
        r == (vals_all_wf(values_view(vs@)) && vals_all_of(values_view(vs@), t@)),
    decreases vs,
{
    let n = vs.len();
    let mut i: usize = 0;
    proof {
        lemma_values_view(vs@);
    }
    while i < n
        invariant
            n == vs@.len(),
            i <= n,
            values_view(vs@).len() == n,
            forall|j: int| 0 <= j < n ==> values_view(vs@)[j] == vs@[j]@,
            forall|j: int|
                0 <= j < i ==> value_wf(#[trigger] values_view(vs@)[j]) && value_has_type(
                    values_view(vs@)[j],
                    t@,
                ),
        decreases n - i,
    {
        if !vs[i].conforms_to(t) {
            proof {
                assert(!(value_wf(values_view(vs@)[i as int]) && value_has_type(
                    values_view(vs@)[i as int],
                    t@,
                )));
            }
            return false;
        }
        i = i + 1;
    }
    proof {
        let vv = values_view(vs@);
        assert forall|j: int| 0 <= j < vv.len() implies value_wf(#[trigger] vv[j]) by {}
        assert forall|j: int| 0 <= j < vv.len() implies value_has_type(
            #[trigger] vv[j],
            t@,
        ) by {}
        assert(vals_all_wf(vv));
        assert(vals_all_of(vv, t@));
    }
    true
}

/// Whether each value of a vector is well formed and belongs to the
/// type at its position.
fn vals_conform_each(vs: &Vec<AbiValue>, ts: &Vec<AbiType>) -> (r: bool)
    ensures
        r == (values_view(vs@).len() == types_view(ts@).len() && vals_all_wf(values_view(vs@))
            && vals_each_of(values_view(vs@), types_view(ts@))),
    decreases vs,
{
    proof {
        lemma_values_view(vs@);
        lemma_types_view(ts@);
    }
    if vs.len() != ts.len() {
        return false;
    }
    let n = vs.len();
    let mut i: usize = 0;
    while i < n
        invariant
            n == vs@.len() == ts@.len(),
            i <= n,
            values_view(vs@).len() == n && types_view(ts@).len() == n,
            forall|j: int| 0 <= j < n ==> values_view(vs@)[j] == vs@[j]@,
            forall|j: int| 0 <= j < n ==> types_view(ts@)[j] == ts@[j]@,
            forall|j: int|
                0 <= j < i ==> value_wf(#[trigger] values_view(vs@)[j]) && value_has_type(
                    values_view(vs@)[j],
                    types_view(ts@)[j],
                ),
        decreases n - i,
    {
        if !vs[i].conforms_to(&ts[i]) {
            proof {
                assert(!(value_wf(values_view(vs@)[i as int]) && value_has_type(
                    values_view(vs@)[i as int],
                    types_view(ts@)[i as int],
                )));
            }
            return false;
        }
        i = i + 1;
    }
    proof {
        let vv = values_view(vs@);
        let tv = types_view(ts@);
        assert forall|j: int| 0 <= j < vv.len() implies value_wf(#[trigger] vv[j]) by {}
        assert forall|j: int| 0 <= j < vv.len() implies value_has_type(
            #[trigger] vv[j],
            tv[j],
        ) by {}
        assert(vals_all_wf(vv));
        assert(vals_each_of(vv, tv));
    }
    true
}

/// Whether a byte vector has the continuation-bit shape and a length
/// the machine can hold in bits.
fn leb_ok(bs: &Vec<u8>) -> (r: bool)
    ensures
        r == (leb_shape(bs@) && 8 * bs@.len() <= usize::MAX),
{
    if bs.len() == 0 {
        return false;
    }
    proof {
        vstd::arithmetic::div_mod::lemma_fundamental_div_mod(usize::MAX as int, 8);
    }
    if bs.len() > usize::MAX / 8 {
        return false;
    }
    if bs[bs.len() - 1] >= 128 {
        return false;
    }
    let m = bs.len() - 1;
    let mut i: usize = 0;
    while i < m
        invariant
            m == bs@.len() - 1,
            bs@.len() >= 1,
            i <= m,
            forall|j: int| 0 <= j < i ==> #[trigger] bs@[j] >= 128,
        decreases m - i,
    {
        if bs[i] < 128 {
            return false;
        }
        i = i + 1;
    }
    true
}

/// The packed footprint of a value, in bits: the width its encoding
/// occupies in the cell chain it is written to, counting a referenced
/// payload as its two header bits alone.  The placement decision rests
/// on this measure.
pub open spec fn packed_bits(v: ValueV) -> nat
    decreases v,
{
    match v {
        ValueV::Uint(w, _) => w,
        ValueV::Int(w, _) => w,
        ValueV::Bool(_) => 1,
        ValueV::Dint(bs) => 8 * bs.len(),
        ValueV::Duint(bs) => 8 * bs.len(),
        ValueV::Bits(bs) => if 2 + bs.len() <= 1023 {
            (2 + bs.len()) as nat
        } else {
            2
        },
        ValueV::Bitstring(bs) => if bs.len() <= 255 && 10 + bs.len() <= 1023 {
            (10 + bs.len()) as nat
        } else {
            2
        },
        ValueV::FixedArray(_, vs) => {
            let p = packed_sum(vs);
            if 2 + p <= 1023 {
                (2 + p) as nat
            } else {
                2
            }
        },
        ValueV::DynArray(_, vs) => {
            let p = packed_sum(vs);
            if vs.len() <= 255 && 10 + p <= 1023 {
                (10 + p) as nat
            } else {
                2
            }
        },
        ValueV::Tuple(vs) => packed_sum(vs),
    }
}

/// The summed packed footprint of a value sequence.
pub open spec fn packed_sum(vs: Seq<ValueV>) -> nat
    decreases vs,
{
    if vs.len() == 0 {
        0
    } else {
        packed_bits(vs[0]) + packed_sum(vs.drop_first())
    }
}

/// `packed_sum` over the values of a vector, split at the back.
pub proof fn lemma_packed_sum_snoc(vs: Seq<ValueV>)
    requires
        vs.len() > 0,
    ensures
        packed_sum(vs) == packed_sum(vs.drop_last()) + packed_bits(vs.last()),
    decreases vs.len(),
{
    if vs.len() == 1 {
        assert(vs.drop_first() =~= Seq::<ValueV>::empty());
        assert(vs.drop_last() =~= Seq::<ValueV>::empty());
        assert(vs[0] == vs.last());
    } else {
        lemma_packed_sum_snoc(vs.drop_first());
        assert(vs.drop_first().drop_last() =~= vs.drop_last().drop_first());
        assert(vs.drop_first().last() == vs.last());
        assert(vs.drop_last()[0] == vs[0]);
    }
}

/// Caps a mathematical size at the machine word.
pub open spec fn cap_size(n: nat) -> nat {
    if n > usize::MAX as nat {
        usize::MAX as nat
    } else {
        n
    }
}

/// Saturating addition on sizes.
fn sat_add(a: usize, b: usize) -> (r: usize)
    ensures
        r as nat == cap_size(a as nat + b as nat),
{
    if a > usize::MAX - b {
        usize::MAX
    } else {
        a + b
    }
}

/// The packed footprint of a value, saturating at the machine word.
pub fn packed_bits_capped(v: &AbiValue) -> (r: usize)
    ensures
        r as nat == cap_size(packed_bits(v@)),
    decreases v,
{
    match v {
        AbiValue::Uint(w, _) => *w,
        AbiValue::Int(w, _) => *w,
        AbiValue::Bool(_) => 1,
        AbiValue::Dint(bs) => sat_mul8(bs.len()),
        AbiValue::Duint(bs) => sat_mul8(bs.len()),
        AbiValue::Bits(bs) => {
            let n = bs.length_in_bits();
            if n <= 1021 {
                2 + n
            } else {
                2
            }
        },
        AbiValue::Bitstring(bs) => {
            let n = bs.length_in_bits();
            if n <= 255 {
                10 + n
            } else {
                2
            }
        },
        AbiValue::FixedArray(_, vs) => {
            let p = packed_sum_capped(vs);
            if p <= 1021 {
                2 + p
            } else {
                2
            }
        },
        AbiValue::DynArray(_, vs) => {
            proof {
                lemma_values_view(vs@);
            }
            let p = packed_sum_capped(vs);
            if vs.len() <= 255 && p <= 1013 {
                10 + p
            } else {
                2
            }
        },
        AbiValue::Tuple(vs) => packed_sum_capped(vs),
    }
}

/// Eight bits for each byte, saturating.
fn sat_mul8(n: usize) -> (r: usize)
    ensures
        r as nat == cap_size(8 * n as nat),
{
    if n > usize::MAX / 8 {
        usize::MAX
    } else {
        8 * n
    }
}

/// The summed packed footprint of a vector of values, saturating.
pub fn packed_sum_capped(vs: &Vec<AbiValue>) -> (r: usize)
    ensures
        r as nat == cap_size(packed_sum(values_view(vs@))),
    decreases vs,
{
    let n = vs.len();
    let mut acc: usize = 0;
    let mut i: usize = 0;
    proof {
        lemma_values_view(vs@);
        assert(values_view(vs@).take(0) =~= Seq::<ValueV>::empty());
    }
    while i < n
        invariant
            n == vs@.len(),
            i <= n,
            acc as nat == cap_size(packed_sum(values_view(vs@).take(i as int))),
            values_view(vs@).len() == n,
            forall|j: int| 0 <= j < n ==> values_view(vs@)[j] == vs@[j]@,
        decreases n - i,
    {
        let p = packed_bits_capped(&vs[i]);
        acc = sat_add(acc, p);
        proof {
            let whole = values_view(vs@);
            lemma_packed_sum_snoc(whole.take(i + 1));
            assert(whole.take(i + 1).drop_last() =~= whole.take(i as int));
            assert(whole.take(i + 1).last() == vs@[i as int]@);
        }
        i = i + 1;
    }
    proof {
        assert(values_view(vs@).take(n as int) =~= values_view(vs@));
    }
    acc
}

} // verus!
