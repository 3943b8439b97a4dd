//! The type-directed encoder.
//!
//! Values are written back to front: the encoder prepends each field to
//! the builder, so that a cell that overflows sinks toward the leaves
//! and the head cell ends up holding the first bits.  Composite values
//! with a payload carry a two-bit placement header: `10` puts the
//! payload inline in the current chain, `00` spills it into a freshly
//! referenced child chain.

use vstd::prelude::*;
use crate::bits::{u_bits, i_bits, bytes_bits, lemma_bytes_bits_len};
use crate::bitstring::Bitstring;
use crate::cell::{CellBuilder, CellV, BuilderV, builder_cell, spill_prepend, prepend_data_into_chain};
use crate::value::{AbiValue, ValueV, value_wf, values_view, lemma_values_view, packed_sum, packed_bits};

verus! {

broadcast use {vstd::std_specs::vec::group_vec_axioms, vstd::seq::group_seq_axioms};

/// A builder with no data and no references.
pub open spec fn empty_builder() -> BuilderV {
    BuilderV { data: Seq::empty(), refs: Seq::empty() }
}

/// Prepending a reference: the child becomes the leftmost reference;
/// when all four slots are taken, the current cell sinks into a fresh
/// builder as its last reference and the child goes in front of it.
pub open spec fn prepend_ref_s(b: BuilderV, c: CellV) -> BuilderV {
    if b.refs.len() < 4 {
        BuilderV { data: b.data, refs: seq![c] + b.refs }
    } else {
        BuilderV { data: Seq::empty(), refs: seq![c, builder_cell(b)] }
    }
}

/// The encoding of one value, prepended to `b`.
pub open spec fn enc_value(v: ValueV, b: BuilderV) -> BuilderV
    decreases v,
{
    match v {
        ValueV::Uint(w, x) => spill_prepend(b, u_bits(x, w)),
        ValueV::Int(w, x) => spill_prepend(b, i_bits(x, w)),
        ValueV::Bool(x) => spill_prepend(b, seq![x]),
        ValueV::Dint(bs) => spill_prepend(b, bytes_bits(bs)),
        ValueV::Duint(bs) => spill_prepend(b, bytes_bits(bs)),
        ValueV::Bits(bs) => if b.data.len() + 2 + bs.len() <= 1023 {
            spill_prepend(b, seq![true, false] + bs)
        } else {
            let chain = builder_cell(spill_prepend(empty_builder(), bs));
            spill_prepend(prepend_ref_s(b, chain), seq![false, false])
        },
        ValueV::Bitstring(bs) => if bs.len() <= 255 && b.data.len() + 10 + bs.len() <= 1023 {
            spill_prepend(b, seq![true, false] + u_bits(bs.len(), 8) + bs)
        } else {
            let chain = builder_cell(spill_prepend(empty_builder(), bs));
            spill_prepend(prepend_ref_s(b, chain), seq![false, false])
        },
        ValueV::FixedArray(_, vs) => if b.data.len() + 2 + packed_sum(vs) <= 1023 {
            spill_prepend(enc_elems(vs, b), seq![true, false])
        } else {
            let chain = builder_cell(enc_elems(vs, empty_builder()));
            spill_prepend(prepend_ref_s(b, chain), seq![false, false])
        },
        ValueV::DynArray(_, vs) => if vs.len() <= 255 && b.data.len() + 10 + packed_sum(vs)
            <= 1023 {
            spill_prepend(
                spill_prepend(enc_elems(vs, b), u_bits(vs.len(), 8)),
                seq![true, false],
            )
        } else {
            let chain = builder_cell(enc_elems(vs, empty_builder()));
            spill_prepend(prepend_ref_s(b, chain), seq![false, false])
        },
        ValueV::Tuple(vs) => enc_elems(vs, b),
    }
}

/// The encoding of a value sequence: the last element is prepended
/// first, so the first element ends up in front.
pub open spec fn enc_elems(vs: Seq<ValueV>, b: BuilderV) -> BuilderV
    decreases vs,
{
    if vs.len() == 0 {
        b
    } else {
        enc_value(vs[0], enc_elems(vs.drop_first(), b))
    }
}

/// The spill discipline keeps every cell within the capacity bounds.
pub proof fn lemma_spill_prepend_wf(b: BuilderV, bits: Seq<bool>)
    requires
        crate::cell::builder_wf(b),
    ensures
        crate::cell::builder_wf(spill_prepend(b, bits)),
    decreases bits.len(), b.data.len() + 1,
{
    if bits.len() == 0 {
    } else if b.data.len() >= 1023 {
        let w = BuilderV { data: Seq::empty(), refs: seq![builder_cell(b)] };
        assert(crate::cell::cell_wf(builder_cell(b)));
        assert(crate::cell::builder_wf(w));
        lemma_spill_prepend_wf(w, bits);
    } else {
        let take = if 1023 - b.data.len() < bits.len() {
            1023 - b.data.len()
        } else {
            bits.len() as int
        };
        let b2 = BuilderV {
            data: bits.subrange(bits.len() - take, bits.len() as int) + b.data,
            refs: b.refs,
        };
        lemma_spill_prepend_wf(b2, bits.take(bits.len() - take));
    }
}

/// Prepending a reference keeps the builder within bounds.
pub proof fn lemma_prepend_ref_wf(b: BuilderV, c: CellV)
    requires
        crate::cell::builder_wf(b),
        crate::cell::cell_wf(c),
    ensures
        crate::cell::builder_wf(prepend_ref_s(b, c)),
{
    if b.refs.len() < 4 {
        let r = prepend_ref_s(b, c);
        assert forall|i: int| 0 <= i < r.refs.len() implies crate::cell::cell_wf(
            #[trigger] r.refs[i],
        ) by {
            if i > 0 {
                assert(r.refs[i] == b.refs[i - 1]);
            }
        }
    } else {
        assert(crate::cell::cell_wf(builder_cell(b)));
    }
}

/// Capacity invariant: every cell the encoder emits keeps within 1023
/// data bits and 4 references.
pub proof fn lemma_enc_value_wf(v: ValueV, b: BuilderV)
    requires
        value_wf(v),
        crate::cell::builder_wf(b),
    ensures
        crate::cell::builder_wf(enc_value(v, b)),
    decreases v,
{
    assert(crate::cell::builder_wf(empty_builder()));
    match v {
        ValueV::Uint(w, x) => {
            lemma_spill_prepend_wf(b, crate::bits::u_bits(x, w));
        },
        ValueV::Int(w, x) => {
            lemma_spill_prepend_wf(b, crate::bits::i_bits(x, w));
        },
        ValueV::Bool(x) => {
            lemma_spill_prepend_wf(b, seq![x]);
        },
        ValueV::Dint(bs) => {
            lemma_spill_prepend_wf(b, crate::bits::bytes_bits(bs));
        },
        ValueV::Duint(bs) => {
            lemma_spill_prepend_wf(b, crate::bits::bytes_bits(bs));
        },
        ValueV::Bits(bs) => {
            if b.data.len() + 2 + bs.len() <= 1023 {
                lemma_spill_prepend_wf(b, seq![true, false] + bs);
            } else {
                lemma_spill_prepend_wf(empty_builder(), bs);
                let chain = builder_cell(spill_prepend(empty_builder(), bs));
                lemma_prepend_ref_wf(b, chain);
                lemma_spill_prepend_wf(prepend_ref_s(b, chain), seq![false, false]);
            }
        },
        ValueV::Bitstring(bs) => {
            if bs.len() <= 255 && b.data.len() + 10 + bs.len() <= 1023 {
                lemma_spill_prepend_wf(
                    b,
                    seq![true, false] + crate::bits::u_bits(bs.len(), 8) + bs,
                );
            } else {
                lemma_spill_prepend_wf(empty_builder(), bs);
                let chain = builder_cell(spill_prepend(empty_builder(), bs));
                lemma_prepend_ref_wf(b, chain);
                lemma_spill_prepend_wf(prepend_ref_s(b, chain), seq![false, false]);
            }
        },
        ValueV::FixedArray(_, vs) => {
            if b.data.len() + 2 + packed_sum(vs) <= 1023 {
                lemma_enc_elems_wf(vs, b);
                lemma_spill_prepend_wf(enc_elems(vs, b), seq![true, false]);
            } else {
                lemma_enc_elems_wf(vs, empty_builder());
                let chain = builder_cell(enc_elems(vs, empty_builder()));
                lemma_prepend_ref_wf(b, chain);
                lemma_spill_prepend_wf(prepend_ref_s(b, chain), seq![false, false]);
            }
        },
        ValueV::DynArray(_, vs) => {
            if vs.len() <= 255 && b.data.len() + 10 + packed_sum(vs) <= 1023 {
                lemma_enc_elems_wf(vs, b);
                lemma_spill_prepend_wf(enc_elems(vs, b), crate::bits::u_bits(vs.len(), 8));
                lemma_spill_prepend_wf(
                    spill_prepend(enc_elems(vs, b), crate::bits::u_bits(vs.len(), 8)),
                    seq![true, false],
                );
            } else {
                lemma_enc_elems_wf(vs, empty_builder());
                let chain = builder_cell(enc_elems(vs, empty_builder()));
                lemma_prepend_ref_wf(b, chain);
                lemma_spill_prepend_wf(prepend_ref_s(b, chain), seq![false, false]);
            }
        },
        ValueV::Tuple(vs) => {
            lemma_enc_elems_wf(vs, b);
        },
    }
}

/// Capacity invariant over a value sequence.
pub proof fn lemma_enc_elems_wf(vs: Seq<ValueV>, b: BuilderV)
    requires
        forall|i: int| 0 <= i < vs.len() ==> value_wf(#[trigger] vs[i]),
        crate::cell::builder_wf(b),
    ensures
        crate::cell::builder_wf(enc_elems(vs, b)),
    decreases vs,
{
    if vs.len() > 0 {
        lemma_enc_elems_wf(vs.drop_first(), b);
        lemma_enc_value_wf(vs[0], enc_elems(vs.drop_first(), b));
    }
}

/// Element well-formedness carries from the viewed sequence to the
/// vector's elements.
proof fn lemma_elems_wf(vs: Seq<AbiValue>)
    requires
        forall|i: int| 0 <= i < values_view(vs).len() ==> value_wf(#[trigger] values_view(vs)[i]),
    ensures
        forall|i: int| 0 <= i < vs.len() ==> value_wf(#[trigger] vs[i]@),
{
    lemma_values_view(vs);
    assert forall|i: int| 0 <= i < vs.len() implies value_wf(#[trigger] vs[i]@) by {
        assert(values_view(vs)[i] == vs[i]@);
        assert(value_wf(values_view(vs)[i]));
    }
}

/// Prepends `child` as the leftmost reference, sinking the current cell
/// when its reference slots are full.
pub fn prepend_reference_spilled(b: CellBuilder, child: crate::cell::Cell) -> (r: CellBuilder)
    ensures
        r@ == prepend_ref_s(b@, child@),
{
    let mut b = b;
    if b.references_used() < 4 {
        let res = b.prepend_reference(child);
        proof {
            assert(res is Ok);
        }
        b
    } else {
        let mut fresh = CellBuilder::new();
        let sunk = b.into_cell();
        let r1 = fresh.append_reference(sunk);
        let r2 = fresh.prepend_reference(child);
        proof {
            assert(r1 is Ok && r2 is Ok);
            assert(fresh@.refs =~= seq![child@, builder_cell(b@)]);
            assert(fresh@ =~= prepend_ref_s(b@, child@));
        }
        fresh
    }
}

/// Encodes one well-formed value in front of the builder's contents.
pub fn encode_value(v: &AbiValue, b: CellBuilder) -> (r: CellBuilder)
    requires
        value_wf(v@),
    ensures
        r@ == enc_value(v@, b@),
    decreases v,
{
    match v {
        AbiValue::Uint(w, x) => {
            let mut bs = Bitstring::new();
            bs.append_uint(*x, *w);
            proof {
                assert(Seq::<bool>::empty() + u_bits(*x as nat, *w as nat)
                    =~= u_bits(*x as nat, *w as nat));
            }
            prepend_data_into_chain(b, &bs)
        },
        AbiValue::Int(w, x) => {
            let mut bs = Bitstring::new();
            proof {
                crate::bits::lemma_pow2_widths();
            }
            bs.append_int(*x, *w);
            proof {
                assert(Seq::<bool>::empty() + i_bits(*x as int, *w as nat)
                    =~= i_bits(*x as int, *w as nat));
            }
            prepend_data_into_chain(b, &bs)
        },
        AbiValue::Bool(x) => {
            let mut bs = Bitstring::new();
            bs.append_bit(*x);
            proof {
                assert(Seq::<bool>::empty().push(*x) =~= seq![*x]);
            }
            prepend_data_into_chain(b, &bs)
        },
        AbiValue::Dint(bytes) => {
            let bs = Bitstring::create(bytes, 8 * bytes.len());
            proof {
                lemma_bytes_bits_len(bytes@);
                assert(bytes_bits(bytes@).take(8 * bytes@.len() as int) =~= bytes_bits(bytes@));
            }
            prepend_data_into_chain(b, &bs)
        },
        AbiValue::Duint(bytes) => {
            let bs = Bitstring::create(bytes, 8 * bytes.len());
            proof {
                lemma_bytes_bits_len(bytes@);
                assert(bytes_bits(bytes@).take(8 * bytes@.len() as int) =~= bytes_bits(bytes@));
            }
            prepend_data_into_chain(b, &bs)
        },
        AbiValue::Bits(payload) => {
            let p = payload.length_in_bits();
            let inline = p <= 1021 && b.bits_used() <= 1023 - (2 + p);
            if inline {
                let mut bs = Bitstring::new();
                bs.append_bit(true);
                bs.append_bit(false);
                bs.append(payload);
                proof {
                    assert(bs@ =~= seq![true, false] + payload@);
                }
                prepend_data_into_chain(b, &bs)
            } else {
                let chain = prepend_data_into_chain(CellBuilder::new(), payload);
                proof {
                    assert(chain@ == spill_prepend(empty_builder(), payload@));
                }
                let cell = chain.into_cell();
                let b1 = prepend_reference_spilled(b, cell);
                let mut hdr = Bitstring::new();
                hdr.append_bit(false);
                hdr.append_bit(false);
                proof {
                    assert(hdr@ =~= seq![false, false]);
                }
                prepend_data_into_chain(b1, &hdr)
            }
        },
        AbiValue::Bitstring(payload) => {
            let p = payload.length_in_bits();
            let inline = p <= 255 && b.bits_used() <= 1023 - (10 + p);
            if inline {
                let mut bs = Bitstring::new();
                bs.append_bit(true);
                bs.append_bit(false);
                bs.append_u8(p as u8);
                proof {
                    crate::bits::lemma_u_bits_len((p as u8) as nat, 8);
                }
                bs.append(payload);
                proof {
                    assert(bs@ =~= seq![true, false] + u_bits(payload@.len(), 8) + payload@);
                }
                prepend_data_into_chain(b, &bs)
            } else {
                let chain = prepend_data_into_chain(CellBuilder::new(), payload);
                proof {
                    assert(chain@ == spill_prepend(empty_builder(), payload@));
                }
                let cell = chain.into_cell();
                let b1 = prepend_reference_spilled(b, cell);
                let mut hdr = Bitstring::new();
                hdr.append_bit(false);
                hdr.append_bit(false);
                proof {
                    assert(hdr@ =~= seq![false, false]);
                }
                prepend_data_into_chain(b1, &hdr)
            }
        },
        AbiValue::FixedArray(_, vs) => {
            proof {
                lemma_values_view(vs@);
                let vv = values_view(vs@);
                assert(value_wf(v@));
                assert(v@ is FixedArray);
                assert(v@->FixedArray_1 == vv);
                assert(forall|i: int| 0 <= i < vv.len() ==> value_wf(#[trigger] vv[i]));
                lemma_elems_wf(vs@);
            }
            let p = crate::value::packed_sum_capped(vs);
            let inline = p <= 1021 && b.bits_used() <= 1023 - (2 + p);
            if inline {
                let b1 = encode_elements(vs, b);
                let mut hdr = Bitstring::new();
                hdr.append_bit(true);
                hdr.append_bit(false);
                proof {
                    assert(hdr@ =~= seq![true, false]);
                }
                prepend_data_into_chain(b1, &hdr)
            } else {
                let chain = encode_elements(vs, CellBuilder::new());
                let cell = chain.into_cell();
                let b1 = prepend_reference_spilled(b, cell);
                let mut hdr = Bitstring::new();
                hdr.append_bit(false);
                hdr.append_bit(false);
                proof {
                    assert(hdr@ =~= seq![false, false]);
                }
                prepend_data_into_chain(b1, &hdr)
            }
        },
        AbiValue::DynArray(_, vs) => {
            proof {
                lemma_values_view(vs@);
                lemma_elems_wf(vs@);
            }
            let p = crate::value::packed_sum_capped(vs);
            let inline = vs.len() <= 255 && p <= 1013 && b.bits_used() <= 1023 - (10 + p);
            if inline {
                let b1 = encode_elements(vs, b);
                let mut mid = Bitstring::new();
                mid.append_u8(vs.len() as u8);
                proof {
                    assert(mid@ =~= u_bits(values_view(vs@).len(), 8));
                }
                let b2 = prepend_data_into_chain(b1, &mid);
                let mut hdr = Bitstring::new();
                hdr.append_bit(true);
                hdr.append_bit(false);
                proof {
                    assert(hdr@ =~= seq![true, false]);
                }
                prepend_data_into_chain(b2, &hdr)
            } else {
                let chain = encode_elements(vs, CellBuilder::new());
                let cell = chain.into_cell();
                let b1 = prepend_reference_spilled(b, cell);
                let mut hdr = Bitstring::new();
                hdr.append_bit(false);
                hdr.append_bit(false);
                proof {
                    assert(hdr@ =~= seq![false, false]);
                }
                prepend_data_into_chain(b1, &hdr)
            }
        },
        AbiValue::Tuple(vs) => {
            proof {
                lemma_values_view(vs@);
                let vv = values_view(vs@);
                assert(value_wf(v@));
                assert(v@ is Tuple);
                assert(v@->Tuple_0 == vv);
                assert(forall|i: int| 0 <= i < vv.len() ==> value_wf(#[trigger] vv[i]));
                lemma_elems_wf(vs@);
            }
            encode_elements(vs, b)
        },
    }
}

/// Encodes a vector of well-formed values, last element first, so that
/// the first element comes out in front.
pub fn encode_elements(vs: &Vec<AbiValue>, b: CellBuilder) -> (r: CellBuilder)
    requires
        forall|i: int| 0 <= i < vs@.len() ==> value_wf(#[trigger] vs@[i]@),
    ensures
        r@ == enc_elems(values_view(vs@), b@),
    decreases vs,
{
    let ghost b0 = b@;
    let mut b = b;
    let mut i: usize = vs.len();
    proof {
        lemma_values_view(vs@);
        assert(values_view(vs@).skip(vs@.len() as int) =~= Seq::<ValueV>::empty());
    }
    while i > 0
        invariant
            i <= vs@.len(),
            values_view(vs@).len() == vs@.len(),
            forall|j: int| 0 <= j < vs@.len() ==> values_view(vs@)[j] == vs@[j]@,
            forall|j: int| 0 <= j < vs@.len() ==> value_wf(#[trigger] vs@[j]@),
            b@ == enc_elems(values_view(vs@).skip(i as int), b0),
        decreases i,
    {
        i = i - 1;
        b = encode_value(&vs[i], b);
        proof {
            let whole = values_view(vs@);
            assert(whole.skip(i as int)[0] == vs@[i as int]@);
            assert(whole.skip(i as int).drop_first() =~= whole.skip(i + 1));
            assert(enc_elems(whole.skip(i as int), b0)
                == enc_value(whole.skip(i as int)[0], enc_elems(whole.skip(i + 1), b0)));
        }
    }
    proof {
        assert(values_view(vs@).skip(0) =~= values_view(vs@));
    }
    b
}

} // verus!
