//! Laws relating the public operations of the codec.

use vstd::prelude::*;
use vstd::arithmetic::power2::pow2;
use crate::bits::{u_bits, i_bits, byte_bits, bytes_bits, bits_val, lemma_u_bits_len, lemma_u_bits_val, lemma_bytes_bits_len, lemma_pow2_widths};
use crate::boc::{ser_cell, pack_bits};
use crate::call::{call_cell, signed_cell, strip_signature, verify_outcome, fid_of};
use crate::cell::{CellV, BuilderV, builder_cell, spill_prepend, spill_append};
use crate::crypto::{ed25519_pk_of, ed25519_sig_of, ed25519_valid, sha512_of};
use crate::decode::{dec_value, dec_leb, dec_fields, read_rest, sbits_val};
use crate::encode::{enc_elems, empty_builder};
use crate::slice::{SliceV, s_read_bit, s_read_bits, lemma_read_bits_flat, rstream, lemma_rstream_read};
use crate::types::TypeV;
use crate::value::{ValueV, value_wf, value_has_type, leb_shape};

verus! {

broadcast use {vstd::std_specs::vec::group_vec_axioms, vstd::seq::group_seq_axioms};

/// Two-encoder equivalence: the byte encoding of a call is the
/// serialization of the very cell tree the cell encoder builds, so the
/// two public encoders agree bit for bit.
pub proof fn lemma_two_encoder_equivalence(
    fid: nat,
    ins: Seq<ValueV>,
    bytes: Seq<u8>,
    cell: CellV,
)
    requires
        bytes == ser_cell(call_cell(fid, ins)),
        cell == call_cell(fid, ins),
    ensures
        bytes == ser_cell(cell),
{
}

/// Packing the bits of a byte string gives the bytes back.
pub proof fn lemma_pack_bytes_roundtrip(bytes: Seq<u8>)
    ensures
        pack_bits(bytes_bits(bytes)) == bytes,
    decreases bytes.len(),
{
    lemma_bytes_bits_len(bytes);
    if bytes.len() == 0 {
        assert(pack_bits(bytes_bits(bytes)) =~= bytes);
    } else {
        let bits = bytes_bits(bytes);
        lemma_u_bits_len(bytes[0] as nat, 8);
        assert(bits == byte_bits(bytes[0]) + bytes_bits(bytes.drop_first()));
        assert(bits.take(8) =~= byte_bits(bytes[0]));
        assert(bits.skip(8) =~= bytes_bits(bytes.drop_first()));
        assert(bits_val(byte_bits(bytes[0])) == bytes[0] as nat) by {
            vstd::arithmetic::power2::lemma2_to64();
            lemma_u_bits_val(bytes[0] as nat, 8);
        }
        lemma_pack_bytes_roundtrip(bytes.drop_first());
        assert(pack_bits(bits) =~= bytes);
    }
}

/// Splitting a byte string at a byte boundary splits its bits at the
/// corresponding bit boundary.
pub proof fn lemma_bytes_bits_split(a: Seq<u8>, b: Seq<u8>)
    ensures
        bytes_bits(a + b) == bytes_bits(a) + bytes_bits(b),
    decreases a.len(),
{
    if a.len() == 0 {
        assert(a + b =~= b);
        assert(bytes_bits(a) + bytes_bits(b) =~= bytes_bits(b));
    } else {
        lemma_bytes_bits_split(a.drop_first(), b);
        assert((a + b).drop_first() =~= a.drop_first() + b);
        assert((a + b)[0] == a[0]);
        assert(byte_bits(a[0]) + (bytes_bits(a.drop_first()) + bytes_bits(b))
            =~= (byte_bits(a[0]) + bytes_bits(a.drop_first())) + bytes_bits(b));
    }
}

/// Signature round trip: a call signed by the library's signer
/// verifies.  The hypothesis is exactly the fact the signer's contract
/// establishes: the signature over the recomputed digest is valid under
/// the derived public key.
pub proof fn lemma_signature_roundtrip(root: CellV, secret: Seq<u8>)
    requires
        root.refs.len() < 4,
        ed25519_sig_of(secret, sha512_of(ser_cell(root))).len() == 64,
        ed25519_pk_of(secret).len() == 32,
        ed25519_valid(
            ed25519_pk_of(secret),
            sha512_of(ser_cell(root)),
            ed25519_sig_of(secret, sha512_of(ser_cell(root))),
        ),
    ensures
        verify_outcome(
            signed_cell(
                root,
                bytes_bits(
                    ed25519_sig_of(secret, sha512_of(ser_cell(root))) + ed25519_pk_of(secret),
                ),
            ),
        ) == Some(true),
{
    let digest = sha512_of(ser_cell(root));
    let sig = ed25519_sig_of(secret, digest);
    let pk = ed25519_pk_of(secret);
    let bits = bytes_bits(sig + pk);
    let c = signed_cell(root, bits);
    lemma_bytes_bits_len(sig + pk);
    assert(bits.len() == 768);
    assert(c.refs[0].data == bits);
    assert(c.refs.drop_first() =~= root.refs);
    let stripped = strip_signature(c)->Some_0.0;
    assert(stripped =~= root);
    lemma_bytes_bits_split(sig, pk);
    lemma_bytes_bits_len(sig);
    lemma_bytes_bits_len(pk);
    assert(bits.take(512) =~= bytes_bits(sig));
    assert(bits.skip(512) =~= bytes_bits(pk));
    lemma_pack_bytes_roundtrip(sig);
    lemma_pack_bytes_roundtrip(pk);
}

/// The function identifier is a pure function of the signature bytes:
/// two calls on equal bytes agree.
pub proof fn lemma_function_id_deterministic(a: Seq<u8>, b: Seq<u8>)
    requires
        a == b,
    ensures
        fid_of(a) == fid_of(b),
{
}

/// Prepending bits that fit the free room of the current cell spills
/// nothing: they simply go in front of the data.
pub proof fn lemma_spill_prepend_fits(b: BuilderV, bits: Seq<bool>)
    requires
        b.data.len() + bits.len() <= 1023,
    ensures
        spill_prepend(b, bits) == (BuilderV { data: bits + b.data, refs: b.refs }),
{
    if bits.len() == 0 {
        assert(Seq::<bool>::empty() + b.data =~= b.data);
        assert(spill_prepend(b, bits) =~= (BuilderV { data: bits + b.data, refs: b.refs }));
    } else {
        let take = bits.len() as int;
        assert(bits.subrange(bits.len() - take, bits.len() as int) =~= bits);
        assert(bits.take(bits.len() - take) =~= Seq::<bool>::empty());
        let b2 = BuilderV { data: bits + b.data, refs: b.refs };
        assert(spill_prepend(b, bits) == spill_prepend(b2, Seq::<bool>::empty()));
    }
}

/// The spill discipline prepends its payload to the reader's stream:
/// whatever the builder held, the chained result streams the new bits
/// first, then what the builder's cell streamed before.
pub proof fn lemma_spill_rstream(b: BuilderV, bits: Seq<bool>)
    ensures
        rstream(builder_cell(spill_prepend(b, bits))) == bits + rstream(builder_cell(b)),
    decreases bits.len(), b.data.len() + 1,
{
    if bits.len() == 0 {
        assert(Seq::<bool>::empty() + rstream(builder_cell(b)) =~= rstream(builder_cell(b)));
        assert(bits + rstream(builder_cell(b)) =~= rstream(builder_cell(b)));
    } else if b.data.len() >= 1023 {
        let w = BuilderV { data: Seq::empty(), refs: seq![builder_cell(b)] };
        lemma_spill_rstream(w, bits);
        assert(rstream(builder_cell(w)) =~= rstream(builder_cell(b)));
    } else {
        let take = if 1023 - b.data.len() < bits.len() {
            1023 - b.data.len()
        } else {
            bits.len() as int
        };
        let chunk = bits.subrange(bits.len() - take, bits.len() as int);
        let b2 = BuilderV { data: chunk + b.data, refs: b.refs };
        let rest = bits.take(bits.len() - take);
        lemma_spill_rstream(b2, rest);
        assert(rstream(builder_cell(b2)) =~= chunk + rstream(builder_cell(b)));
        assert(rest + (chunk + rstream(builder_cell(b)))
            =~= bits + rstream(builder_cell(b)));
    }
}

/// The canonical chaining discipline round-trips: the bits spilled into
/// a chain over an empty builder are exactly the bits a reader takes
/// back from its head cell, in order.
pub proof fn lemma_chain_roundtrip(bits: Seq<bool>, n: nat)
    requires
        n <= bits.len(),
    ensures
        ({
            let c = builder_cell(spill_prepend(empty_builder(), bits));
            &&& s_read_bits(SliceV { cell: c, dpos: 0, rpos: 0 }, n) is Some
            &&& s_read_bits(SliceV { cell: c, dpos: 0, rpos: 0 }, n)->Some_0.0 == bits.take(
                n as int,
            )
        }),
{
    lemma_spill_rstream(empty_builder(), bits);
    let c = builder_cell(spill_prepend(empty_builder(), bits));
    assert(rstream(builder_cell(empty_builder())) =~= Seq::<bool>::empty());
    assert(rstream(c) =~= bits);
    lemma_rstream_read(c, n);
}

/// Filling a chain by appending and by prepending agree wherever the
/// builder's cell is empty or full, and in particular on a fresh one:
/// each chunk lands in a cell of its own either way.
pub proof fn lemma_spill_append_eq(b: BuilderV, bits: Seq<bool>)
    requires
        b.data.len() == 0 || b.data.len() >= 1023,
    ensures
        spill_append(b, bits) == spill_prepend(b, bits),
    decreases bits.len(), b.data.len() + 1,
{
    if bits.len() == 0 {
    } else if b.data.len() >= 1023 {
        let w = BuilderV { data: Seq::empty(), refs: seq![builder_cell(b)] };
        lemma_spill_append_eq(w, bits);
    } else {
        let take = if 1023 - b.data.len() < bits.len() {
            1023 - b.data.len()
        } else {
            bits.len() as int
        };
        let chunk = bits.subrange(bits.len() - take, bits.len() as int);
        let b2a = BuilderV { data: b.data + chunk, refs: b.refs };
        let b2p = BuilderV { data: chunk + b.data, refs: b.refs };
        assert(b2a =~= b2p);
        let rest = bits.take(bits.len() - take);
        assert(spill_append(b, bits) == spill_append(b2a, rest));
        assert(spill_prepend(b, bits) == spill_prepend(b2p, rest));
        if rest.len() > 0 {
            assert(b2p.data.len() >= 1023);
            lemma_spill_append_eq(b2p, rest);
        }
    }
}

/// Canonical prefix: the first 40 bits a reader takes from any encoded
/// call are the ABI version byte followed by the big-endian function
/// identifier, wherever the cell boundaries fall.
pub proof fn lemma_canonical_prefix(fid: nat, ins: Seq<ValueV>)
    ensures
        ({
            let c = call_cell(fid, ins);
            let r = s_read_bits(SliceV { cell: c, dpos: 0, rpos: 0 }, 40);
            &&& r is Some
            &&& r->Some_0.0 == u_bits(crate::ABI_VERSION as nat, 8) + u_bits(fid, 32)
        }),
{
    let b1 = enc_elems(ins, empty_builder());
    let fb = u_bits(fid, 32);
    let vb = u_bits(crate::ABI_VERSION as nat, 8);
    lemma_u_bits_len(fid, 32);
    lemma_u_bits_len(crate::ABI_VERSION as nat, 8);
    let b2 = spill_prepend(b1, fb);
    let b3 = spill_prepend(b2, vb);
    let c = builder_cell(b3);
    lemma_spill_rstream(b2, vb);
    lemma_spill_rstream(b1, fb);
    assert(rstream(c) == vb + (fb + rstream(builder_cell(b1))));
    lemma_rstream_read(c, 40);
    assert(rstream(c).take(40) =~= vb + fb);
}

/// Round trip of an unsigned fixed-width integer: its bit pattern,
/// wherever it stands in a cell's data, decodes back to the value.
pub proof fn lemma_roundtrip_uint(w: nat, x: nat, c: CellV, d: nat, rp: nat)
    requires
        value_wf(ValueV::Uint(w, x)),
        d + w <= c.data.len(),
        c.data.subrange(d as int, (d + w) as int) == u_bits(x, w),
    ensures
        dec_value(TypeV::Uint(w), SliceV { cell: c, dpos: d, rpos: rp }) == Result::<(ValueV, SliceV), crate::AbiError>::Ok((
            ValueV::Uint(w, x),
            SliceV { cell: c, dpos: d + w, rpos: rp },
        )),
{
    lemma_read_bits_flat(c, d, rp, w);
    lemma_u_bits_val(x, w);
}

/// Round trip of a signed fixed-width integer: its two's-complement
/// pattern decodes back to the signed value.
pub proof fn lemma_roundtrip_int(w: nat, x: int, c: CellV, d: nat, rp: nat)
    requires
        value_wf(ValueV::Int(w, x)),
        d + w <= c.data.len(),
        c.data.subrange(d as int, (d + w) as int) == i_bits(x, w),
    ensures
        dec_value(TypeV::Int(w), SliceV { cell: c, dpos: d, rpos: rp }) == Result::<(ValueV, SliceV), crate::AbiError>::Ok((
            ValueV::Int(w, x),
            SliceV { cell: c, dpos: d + w, rpos: rp },
        )),
{
    lemma_read_bits_flat(c, d, rp, w);
    let p = pow2(w) as int;
    let h = pow2((w - 1) as nat) as int;
    vstd::arithmetic::power2::lemma_pow2_unfold(w);
    vstd::arithmetic::power2::lemma_pow2_pos((w - 1) as nat);
    let u = x % p;
    assert(u == (if x >= 0 {
        x
    } else {
        x + p
    })) by {
        if x >= 0 {
            vstd::arithmetic::div_mod::lemma_small_mod(x as nat, p as nat);
        } else {
            vstd::arithmetic::div_mod::lemma_mod_add_multiples_vanish(x, p);
            vstd::arithmetic::div_mod::lemma_small_mod((x + p) as nat, p as nat);
        }
    }
    let bs = u_bits(u as nat, w);
    lemma_u_bits_len(u as nat, w);
    lemma_u_bits_val(u as nat, w);
    crate::decode::lemma_bits_msb_pub(bs);
    assert(sbits_val(bs) == x);
}

/// Round trip of a boolean: its single bit decodes back.
pub proof fn lemma_roundtrip_bool(b: bool, c: CellV, d: nat, rp: nat)
    requires
        d < c.data.len(),
        c.data[d as int] == b,
    ensures
        dec_value(TypeV::Bool, SliceV { cell: c, dpos: d, rpos: rp }) == Result::<(ValueV, SliceV), crate::AbiError>::Ok((
            ValueV::Bool(b),
            SliceV { cell: c, dpos: d + 1, rpos: rp },
        )),
{
}

/// Round trip of a variable-length integer: a well-shaped byte stream
/// written into a cell's data reads back byte for byte.
pub proof fn lemma_roundtrip_leb(bs: Seq<u8>, c: CellV, d: nat, rp: nat)
    requires
        leb_shape(bs),
        rp <= c.refs.len(),
        d + 8 * bs.len() <= c.data.len(),
        c.data.subrange(d as int, (d + 8 * bs.len()) as int) == bytes_bits(bs),
    ensures
        dec_leb(SliceV { cell: c, dpos: d, rpos: rp }) == Result::<(Seq<u8>, SliceV), crate::AbiError>::Ok((
            bs,
            SliceV { cell: c, dpos: d + 8 * bs.len(), rpos: rp },
        )),
    decreases bs.len(),
{
    lemma_bytes_bits_len(bs);
    let s = SliceV { cell: c, dpos: d, rpos: rp };
    lemma_read_bits_flat(c, d, rp, 8);
    let first = c.data.subrange(d as int, (d + 8) as int);
    lemma_u_bits_len(bs[0] as nat, 8);
    assert(first =~= byte_bits(bs[0])) by {
        assert(bytes_bits(bs) == byte_bits(bs[0]) + bytes_bits(bs.drop_first()));
        assert(c.data.subrange(d as int, (d + 8 * bs.len()) as int).subrange(0, 8)
            =~= first);
        assert((byte_bits(bs[0]) + bytes_bits(bs.drop_first())).subrange(0, 8)
            =~= byte_bits(bs[0]));
    }
    lemma_pow2_widths();
    lemma_u_bits_val(bs[0] as nat, 8);
    crate::decode::lemma_bits_msb_pub(byte_bits(bs[0]));
    lemma_pow2_widths();
    assert(first[0] <==> bs[0] >= 128);
    if bs[0] < 128 {
        assert(bs.len() == 1) by {
            if bs.len() > 1 {
                assert(bs[0] >= 128);
            }
        }
        assert(bs =~= seq![bs[0]]);
    } else {
        let bs2 = bs.drop_first();
        assert(leb_shape(bs2)) by {
            assert(bs2.last() == bs.last());
            assert(forall|i: int| 0 <= i < bs2.len() - 1 ==> #[trigger] bs2[i] == bs[i + 1]);
        }
        assert(c.data.subrange((d + 8) as int, (d + 8 + 8 * bs2.len()) as int)
            =~= bytes_bits(bs2)) by {
            lemma_bytes_bits_len(bs2);
            assert(bytes_bits(bs) == byte_bits(bs[0]) + bytes_bits(bs2));
            assert forall|k: int| 0 <= k < 8 * bs2.len() implies c.data.subrange(
                (d + 8) as int,
                (d + 8 + 8 * bs2.len()) as int,
            )[k] == bytes_bits(bs2)[k] by {
                assert(c.data[d + 8 + k] == bytes_bits(bs)[8 + k]);
            }
        }
        lemma_roundtrip_leb(bs2, c, d + 8, rp);
        assert(seq![bs[0]] + bs2 =~= bs);
    }
}

/// Reading a placement header from a cell's data: two literal bits.
proof fn lemma_dec_header_flat(c: CellV, d: nat, rp: nat, inline: bool)
    requires
        d + 2 <= c.data.len(),
        c.data[d as int] == inline,
        c.data[(d + 1) as int] == false,
    ensures
        crate::decode::dec_header(SliceV { cell: c, dpos: d, rpos: rp }) == Result::<
            (bool, SliceV),
            crate::AbiError,
        >::Ok((inline, SliceV { cell: c, dpos: d + 2, rpos: rp })),
{
    lemma_read_bits_flat(c, d, rp, 2);
    let bs = c.data.subrange(d as int, (d + 2) as int);
    assert(bs[0] == inline && bs[1] == false);
}

/// Round trip of an inline fixed-width bit array: the `10` header and
/// the payload bits decode back to the same bits.
pub proof fn lemma_roundtrip_bits_inline(bits: Seq<bool>, c: CellV, d: nat, rp: nat)
    requires
        d + 2 + bits.len() <= c.data.len(),
        c.data[d as int] == true,
        c.data[(d + 1) as int] == false,
        c.data.subrange((d + 2) as int, (d + 2 + bits.len()) as int) == bits,
    ensures
        dec_value(TypeV::Bits(bits.len()), SliceV { cell: c, dpos: d, rpos: rp }) == Result::<
            (ValueV, SliceV),
            crate::AbiError,
        >::Ok((ValueV::Bits(bits), SliceV { cell: c, dpos: d + 2 + bits.len(), rpos: rp })),
{
    lemma_dec_header_flat(c, d, rp, true);
    lemma_read_bits_flat(c, d + 2, rp, bits.len());
}

/// Round trip of an inline dynamic bit string: the `10` header, the
/// length byte and the payload bits decode back to the same bits.
pub proof fn lemma_roundtrip_bitstring_inline(bits: Seq<bool>, c: CellV, d: nat, rp: nat)
    requires
        bits.len() <= 255,
        d + 10 + bits.len() <= c.data.len(),
        c.data[d as int] == true,
        c.data[(d + 1) as int] == false,
        c.data.subrange((d + 2) as int, (d + 10) as int) == u_bits(bits.len(), 8),
        c.data.subrange((d + 10) as int, (d + 10 + bits.len()) as int) == bits,
    ensures
        dec_value(TypeV::Bitstring, SliceV { cell: c, dpos: d, rpos: rp }) == Result::<
            (ValueV, SliceV),
            crate::AbiError,
        >::Ok((ValueV::Bitstring(bits), SliceV { cell: c, dpos: d + 10 + bits.len(), rpos: rp })),
{
    lemma_dec_header_flat(c, d, rp, true);
    lemma_read_bits_flat(c, d + 2, rp, 8);
    lemma_pow2_widths();
    lemma_u_bits_val(bits.len(), 8);
    lemma_read_bits_flat(c, d + 10, rp, bits.len());
}

/// The flat fragment: values whose encoding is their bit pattern alone,
/// with no placement header and no reference.
pub open spec fn flat_value(v: ValueV) -> bool {
    match v {
        ValueV::Uint(_, _) => true,
        ValueV::Int(_, _) => true,
        ValueV::Bool(_) => true,
        ValueV::Dint(_) => true,
        ValueV::Duint(_) => true,
        _ => false,
    }
}

/// The bit pattern of a flat value.
pub open spec fn flat_bits(v: ValueV) -> Seq<bool> {
    match v {
        ValueV::Uint(w, x) => u_bits(x, w),
        ValueV::Int(w, x) => i_bits(x, w),
        ValueV::Bool(b) => seq![b],
        ValueV::Dint(bs) => bytes_bits(bs),
        ValueV::Duint(bs) => bytes_bits(bs),
        _ => Seq::empty(),
    }
}

/// The concatenated bit patterns of a flat value sequence.
pub open spec fn flat_seq(vs: Seq<ValueV>) -> Seq<bool>
    decreases vs,
{
    if vs.len() == 0 {
        Seq::empty()
    } else {
        flat_bits(vs[0]) + flat_seq(vs.drop_first())
    }
}

/// Encoding flat values that fit the current cell concatenates their
/// bit patterns in front of the builder's data.
pub proof fn lemma_enc_flat(vs: Seq<ValueV>, b: BuilderV)
    requires
        forall|i: int| 0 <= i < vs.len() ==> flat_value(#[trigger] vs[i]),
        forall|i: int| 0 <= i < vs.len() ==> value_wf(#[trigger] vs[i]),
        b.data.len() + flat_seq(vs).len() <= 1023,
    ensures
        enc_elems(vs, b) == (BuilderV { data: flat_seq(vs) + b.data, refs: b.refs }),
    decreases vs,
{
    if vs.len() == 0 {
        assert(Seq::<bool>::empty() + b.data =~= b.data);
        assert(enc_elems(vs, b) =~= (BuilderV { data: flat_seq(vs) + b.data, refs: b.refs }));
    } else {
        let rest = vs.drop_first();
        let v0 = vs[0];
        lemma_enc_flat(rest, b);
        let inner = enc_elems(rest, b);
        assert(inner.data == flat_seq(rest) + b.data);
        assert(crate::encode::enc_value(v0, inner) == spill_prepend(inner, flat_bits(v0)));
        lemma_spill_prepend_fits(inner, flat_bits(v0));
        assert(flat_bits(v0) + (flat_seq(rest) + b.data) =~= flat_seq(vs) + b.data);
        assert(enc_elems(vs, b) =~= (BuilderV { data: flat_seq(vs) + b.data, refs: b.refs }));
    }
}

/// Flat values written into a cell's data decode back in order.
pub proof fn lemma_dec_flat_seq(ts: Seq<TypeV>, vs: Seq<ValueV>, c: CellV, d: nat, rp: nat)
    requires
        vs.len() == ts.len(),
        forall|i: int| 0 <= i < vs.len() ==> flat_value(#[trigger] vs[i]),
        forall|i: int| 0 <= i < vs.len() ==> value_wf(#[trigger] vs[i]),
        forall|i: int| 0 <= i < vs.len() ==> value_has_type(#[trigger] vs[i], ts[i]),
        rp <= c.refs.len(),
        d + flat_seq(vs).len() <= c.data.len(),
        c.data.subrange(d as int, (d + flat_seq(vs).len()) as int) == flat_seq(vs),
    ensures
        dec_fields(ts, SliceV { cell: c, dpos: d, rpos: rp }) == Result::<
            (Seq<ValueV>, SliceV),
            crate::AbiError,
        >::Ok((vs, SliceV { cell: c, dpos: d + flat_seq(vs).len(), rpos: rp })),
    decreases vs.len(),
{
    if vs.len() == 0 {
        assert(ts.len() == 0);
        assert(vs =~= Seq::<ValueV>::empty());
        assert(ts =~= Seq::<TypeV>::empty());
        assert(flat_seq(vs).len() == 0);
    } else {
        let v0 = vs[0];
        let rest = vs.drop_first();
        let w0 = flat_bits(v0).len();
        let whole = flat_seq(vs);
        assert(whole == flat_bits(v0) + flat_seq(rest));
        assert(c.data.subrange(d as int, (d + w0) as int) =~= flat_bits(v0)) by {
            assert forall|k: int| 0 <= k < w0 implies c.data[d + k] == flat_bits(v0)[k] by {
                assert(c.data[d + k] == whole[k]);
            }
        }
        assert(c.data.subrange((d + w0) as int, (d + w0 + flat_seq(rest).len()) as int)
            =~= flat_seq(rest)) by {
            assert forall|k: int| 0 <= k < flat_seq(rest).len() implies c.data[d + w0 + k]
                == flat_seq(rest)[k] by {
                assert(c.data[d + w0 + k] == whole[w0 + k]);
            }
        }
        let s0 = SliceV { cell: c, dpos: d, rpos: rp };
        let s1 = SliceV { cell: c, dpos: d + w0, rpos: rp };
        match v0 {
            ValueV::Uint(w, x) => {
                lemma_u_bits_len(x, w);
                lemma_roundtrip_uint(w, x, c, d, rp);
            },
            ValueV::Int(w, x) => {
                lemma_u_bits_len((x % (pow2(w) as int)) as nat, w);
                lemma_roundtrip_int(w, x, c, d, rp);
            },
            ValueV::Bool(x) => {
                assert(c.data[d as int] == flat_bits(v0)[0]);
                lemma_roundtrip_bool(x, c, d, rp);
            },
            ValueV::Dint(bs) => {
                lemma_bytes_bits_len(bs);
                lemma_roundtrip_leb(bs, c, d, rp);
            },
            ValueV::Duint(bs) => {
                lemma_bytes_bits_len(bs);
                lemma_roundtrip_leb(bs, c, d, rp);
            },
            _ => {
                assert(false);
            },
        }
        assert(dec_value(ts[0], s0) == Result::<(ValueV, SliceV), crate::AbiError>::Ok((
            v0,
            s1,
        )));
        lemma_dec_flat_seq(ts.drop_first(), rest, c, d + w0, rp);
        assert(seq![v0] + rest =~= vs);
        let s2 = SliceV { cell: c, dpos: d + w0 + flat_seq(rest).len(), rpos: rp };
        assert(dec_fields(ts.drop_first(), s1) == Result::<
            (Seq<ValueV>, SliceV),
            crate::AbiError,
        >::Ok((rest, s2)));
        assert(dec_fields(ts, s0) == Result::<(Seq<ValueV>, SliceV), crate::AbiError>::Ok((
            seq![v0] + rest,
            s2,
        )));
        assert(s2 == SliceV { cell: c, dpos: d + flat_seq(vs).len(), rpos: rp });
    }
}

/// Flat values of one element type written into a cell's data decode
/// back in order as array elements.
pub proof fn lemma_dec_flat_n(t: TypeV, vs: Seq<ValueV>, c: CellV, d: nat, rp: nat)
    requires
        forall|i: int| 0 <= i < vs.len() ==> flat_value(#[trigger] vs[i]),
        forall|i: int| 0 <= i < vs.len() ==> value_wf(#[trigger] vs[i]),
        forall|i: int| 0 <= i < vs.len() ==> value_has_type(#[trigger] vs[i], t),
        rp <= c.refs.len(),
        d + flat_seq(vs).len() <= c.data.len(),
        c.data.subrange(d as int, (d + flat_seq(vs).len()) as int) == flat_seq(vs),
    ensures
        crate::decode::dec_n_elems(t, vs.len(), SliceV { cell: c, dpos: d, rpos: rp })
            == Result::<(Seq<ValueV>, SliceV), crate::AbiError>::Ok((
            vs,
            SliceV { cell: c, dpos: d + flat_seq(vs).len(), rpos: rp },
        )),
    decreases vs.len(),
{
    if vs.len() == 0 {
        assert(vs =~= Seq::<ValueV>::empty());
        assert(flat_seq(vs).len() == 0);
    } else {
        let v0 = vs[0];
        let rest = vs.drop_first();
        let w0 = flat_bits(v0).len();
        let whole = flat_seq(vs);
        assert(whole == flat_bits(v0) + flat_seq(rest));
        assert(c.data.subrange(d as int, (d + w0) as int) =~= flat_bits(v0)) by {
            assert forall|k: int| 0 <= k < w0 implies c.data[d + k] == flat_bits(v0)[k] by {
                assert(c.data[d + k] == whole[k]);
            }
        }
        assert(c.data.subrange((d + w0) as int, (d + w0 + flat_seq(rest).len()) as int)
            =~= flat_seq(rest)) by {
            assert forall|k: int| 0 <= k < flat_seq(rest).len() implies c.data[d + w0 + k]
                == flat_seq(rest)[k] by {
                assert(c.data[d + w0 + k] == whole[w0 + k]);
            }
        }
        let s0 = SliceV { cell: c, dpos: d, rpos: rp };
        let s1 = SliceV { cell: c, dpos: d + w0, rpos: rp };
        match v0 {
            ValueV::Uint(w, x) => {
                lemma_u_bits_len(x, w);
                lemma_roundtrip_uint(w, x, c, d, rp);
            },
            ValueV::Int(w, x) => {
                lemma_u_bits_len((x % (pow2(w) as int)) as nat, w);
                lemma_roundtrip_int(w, x, c, d, rp);
            },
            ValueV::Bool(x) => {
                assert(c.data[d as int] == flat_bits(v0)[0]);
                lemma_roundtrip_bool(x, c, d, rp);
            },
            ValueV::Dint(bs) => {
                lemma_bytes_bits_len(bs);
                lemma_roundtrip_leb(bs, c, d, rp);
            },
            ValueV::Duint(bs) => {
                lemma_bytes_bits_len(bs);
                lemma_roundtrip_leb(bs, c, d, rp);
            },
            _ => {
                assert(false);
            },
        }
        assert(dec_value(t, s0) == Result::<(ValueV, SliceV), crate::AbiError>::Ok((v0, s1)));
        lemma_dec_flat_n(t, rest, c, d + w0, rp);
        assert(seq![v0] + rest =~= vs);
        let s2 = SliceV { cell: c, dpos: d + w0 + flat_seq(rest).len(), rpos: rp };
        assert(crate::decode::dec_n_elems(t, rest.len(), s1) == Result::<
            (Seq<ValueV>, SliceV),
            crate::AbiError,
        >::Ok((rest, s2)));
        assert(s2 == SliceV { cell: c, dpos: d + flat_seq(vs).len(), rpos: rp });
    }
}

/// Round trip of an inline fixed-size array of flat elements.
pub proof fn lemma_roundtrip_fixed_array_inline(
    t: TypeV,
    vs: Seq<ValueV>,
    c: CellV,
    d: nat,
    rp: nat,
)
    requires
        forall|i: int| 0 <= i < vs.len() ==> flat_value(#[trigger] vs[i]),
        forall|i: int| 0 <= i < vs.len() ==> value_wf(#[trigger] vs[i]),
        forall|i: int| 0 <= i < vs.len() ==> value_has_type(#[trigger] vs[i], t),
        rp <= c.refs.len(),
        d + 2 + flat_seq(vs).len() <= c.data.len(),
        c.data[d as int] == true,
        c.data[(d + 1) as int] == false,
        c.data.subrange((d + 2) as int, (d + 2 + flat_seq(vs).len()) as int) == flat_seq(vs),
    ensures
        dec_value(
            TypeV::FixedArray(Box::new(t), vs.len()),
            SliceV { cell: c, dpos: d, rpos: rp },
        ) == Result::<(ValueV, SliceV), crate::AbiError>::Ok((
            ValueV::FixedArray(t, vs),
            SliceV { cell: c, dpos: d + 2 + flat_seq(vs).len(), rpos: rp },
        )),
{
    lemma_dec_header_flat(c, d, rp, true);
    lemma_dec_flat_n(t, vs, c, d + 2, rp);
}

/// Round trip of an inline dynamic array of flat elements: header,
/// count byte, elements.
pub proof fn lemma_roundtrip_dyn_array_inline(t: TypeV, vs: Seq<ValueV>, c: CellV, d: nat, rp: nat)
    requires
        vs.len() <= 255,
        forall|i: int| 0 <= i < vs.len() ==> flat_value(#[trigger] vs[i]),
        forall|i: int| 0 <= i < vs.len() ==> value_wf(#[trigger] vs[i]),
        forall|i: int| 0 <= i < vs.len() ==> value_has_type(#[trigger] vs[i], t),
        rp <= c.refs.len(),
        d + 10 + flat_seq(vs).len() <= c.data.len(),
        c.data[d as int] == true,
        c.data[(d + 1) as int] == false,
        c.data.subrange((d + 2) as int, (d + 10) as int) == u_bits(vs.len(), 8),
        c.data.subrange((d + 10) as int, (d + 10 + flat_seq(vs).len()) as int) == flat_seq(vs),
    ensures
        dec_value(TypeV::DynArray(Box::new(t)), SliceV { cell: c, dpos: d, rpos: rp })
            == Result::<(ValueV, SliceV), crate::AbiError>::Ok((
            ValueV::DynArray(t, vs),
            SliceV { cell: c, dpos: d + 10 + flat_seq(vs).len(), rpos: rp },
        )),
{
    lemma_dec_header_flat(c, d, rp, true);
    lemma_read_bits_flat(c, d + 2, rp, 8);
    lemma_pow2_widths();
    lemma_u_bits_val(vs.len(), 8);
    lemma_dec_flat_n(t, vs, c, d + 10, rp);
}

/// Round trip of a referenced fixed-width bit array whose payload
/// chain is a single cell: the `00` header consumes the next reference
/// and the payload reads from the child.
pub proof fn lemma_roundtrip_bits_referenced(bits: Seq<bool>, c: CellV, d: nat, rp: nat)
    requires
        d + 2 <= c.data.len(),
        c.data[d as int] == false,
        c.data[(d + 1) as int] == false,
        rp < c.refs.len(),
        c.refs[rp as int] == (CellV { data: bits, refs: Seq::<CellV>::empty() }),
    ensures
        dec_value(TypeV::Bits(bits.len()), SliceV { cell: c, dpos: d, rpos: rp }) == Result::<
            (ValueV, SliceV),
            crate::AbiError,
        >::Ok((ValueV::Bits(bits), SliceV { cell: c, dpos: d + 2, rpos: rp + 1 })),
{
    lemma_dec_header_flat(c, d, rp, false);
    let child = c.refs[rp as int];
    lemma_read_bits_flat(child, 0, 0, bits.len());
    assert(child.data.subrange(0, bits.len() as int) =~= bits);
}

/// Round trip of a referenced fixed-size array of flat elements whose
/// payload chain is a single cell.
pub proof fn lemma_roundtrip_fixed_array_referenced(
    t: TypeV,
    vs: Seq<ValueV>,
    c: CellV,
    d: nat,
    rp: nat,
)
    requires
        forall|i: int| 0 <= i < vs.len() ==> flat_value(#[trigger] vs[i]),
        forall|i: int| 0 <= i < vs.len() ==> value_wf(#[trigger] vs[i]),
        forall|i: int| 0 <= i < vs.len() ==> value_has_type(#[trigger] vs[i], t),
        d + 2 <= c.data.len(),
        c.data[d as int] == false,
        c.data[(d + 1) as int] == false,
        rp < c.refs.len(),
        c.refs[rp as int] == (CellV { data: flat_seq(vs), refs: Seq::<CellV>::empty() }),
    ensures
        dec_value(
            TypeV::FixedArray(Box::new(t), vs.len()),
            SliceV { cell: c, dpos: d, rpos: rp },
        ) == Result::<(ValueV, SliceV), crate::AbiError>::Ok((
            ValueV::FixedArray(t, vs),
            SliceV { cell: c, dpos: d + 2, rpos: rp + 1 },
        )),
{
    lemma_dec_header_flat(c, d, rp, false);
    let child = c.refs[rp as int];
    assert(child.data.subrange(0, flat_seq(vs).len() as int) =~= flat_seq(vs));
    lemma_dec_flat_n(t, vs, child, 0, 0);
}

/// A pure chain: every cell carries at most one reference, its
/// continuation.
pub open spec fn pure_chain(c: CellV) -> bool
    decreases c,
{
    c.refs.len() <= 1 && (c.refs.len() == 1 ==> pure_chain(c.refs[0]))
}

/// The spill discipline keeps a pure chain pure.
pub proof fn lemma_spill_pure(b: BuilderV, bits: Seq<bool>)
    requires
        pure_chain(builder_cell(b)),
    ensures
        pure_chain(builder_cell(spill_prepend(b, bits))),
    decreases bits.len(), b.data.len() + 1,
{
    if bits.len() == 0 {
    } else if b.data.len() >= 1023 {
        let w = BuilderV { data: Seq::empty(), refs: seq![builder_cell(b)] };
        assert(pure_chain(builder_cell(w)));
        lemma_spill_pure(w, bits);
    } else {
        let take = if 1023 - b.data.len() < bits.len() {
            1023 - b.data.len()
        } else {
            bits.len() as int
        };
        let chunk = bits.subrange(bits.len() - take, bits.len() as int);
        let b2 = BuilderV { data: chunk + b.data, refs: b.refs };
        assert(pure_chain(builder_cell(b2)));
        lemma_spill_pure(b2, bits.take(bits.len() - take));
    }
}

/// Reading a pure chain to exhaustion from any data position yields the
/// rest of its stream.
pub proof fn lemma_read_rest_chain(c: CellV, d: nat)
    requires
        pure_chain(c),
        d <= c.data.len(),
    ensures
        read_rest(SliceV { cell: c, dpos: d, rpos: 0 }).0 == rstream(c).skip(d as int),
    decreases c, c.data.len() - d,
{
    let s = SliceV { cell: c, dpos: d, rpos: 0 };
    if d < c.data.len() {
        lemma_read_rest_chain(c, d + 1);
        assert(seq![c.data[d as int]] + rstream(c).skip((d + 1) as int) =~= rstream(c).skip(
            d as int,
        ));
    } else if c.refs.len() == 0 {
        assert(rstream(c).skip(d as int) =~= Seq::<bool>::empty());
    } else {
        let child = c.refs[0];
        let cs = SliceV { cell: child, dpos: 0, rpos: 0 };
        assert(crate::slice::s_inv(s));
        assert(crate::slice::s_inv(cs));
        assert(s_read_bit(s) == s_read_bit(cs));
        lemma_read_rest_chain(child, 0);
        assert(read_rest(s).0 == read_rest(cs).0);
        assert(rstream(child).skip(0) =~= rstream(child));
        assert(rstream(c).skip(d as int) =~= rstream(child));
    }
}

/// Round trip of a referenced dynamic bit string: the `00` header
/// consumes the next reference, and reading its chain to exhaustion
/// returns exactly the bits that were spilled into it.
pub proof fn lemma_roundtrip_bitstring_referenced(bits: Seq<bool>, c: CellV, d: nat, rp: nat)
    requires
        d + 2 <= c.data.len(),
        c.data[d as int] == false,
        c.data[(d + 1) as int] == false,
        rp < c.refs.len(),
        c.refs[rp as int] == builder_cell(spill_prepend(empty_builder(), bits)),
    ensures
        dec_value(TypeV::Bitstring, SliceV { cell: c, dpos: d, rpos: rp }) == Result::<
            (ValueV, SliceV),
            crate::AbiError,
        >::Ok((ValueV::Bitstring(bits), SliceV { cell: c, dpos: d + 2, rpos: rp + 1 })),
{
    lemma_dec_header_flat(c, d, rp, false);
    let chain = c.refs[rp as int];
    assert(pure_chain(builder_cell(empty_builder()))) by {
        assert(builder_cell(empty_builder()).refs.len() == 0);
    }
    lemma_spill_pure(empty_builder(), bits);
    lemma_spill_rstream(empty_builder(), bits);
    assert(rstream(builder_cell(empty_builder())) =~= Seq::<bool>::empty());
    assert(rstream(chain) =~= bits);
    lemma_read_rest_chain(chain, 0);
    assert(rstream(chain).skip(0) =~= rstream(chain));
}

/// Round-trip law for the flat fragment: a tuple of fixed-width
/// integers, booleans and variable-length integers that fits one cell
/// decodes, from the encoder's own output, back to the values that
/// were encoded.
pub proof fn lemma_roundtrip_flat(ts: Seq<TypeV>, vs: Seq<ValueV>)
    requires
        vs.len() == ts.len(),
        forall|i: int| 0 <= i < vs.len() ==> flat_value(#[trigger] vs[i]),
        forall|i: int| 0 <= i < vs.len() ==> value_wf(#[trigger] vs[i]),
        forall|i: int| 0 <= i < vs.len() ==> value_has_type(#[trigger] vs[i], ts[i]),
        flat_seq(vs).len() <= 1023,
    ensures
        ({
            let c = builder_cell(enc_elems(vs, empty_builder()));
            dec_fields(ts, SliceV { cell: c, dpos: 0, rpos: 0 }) == Result::<
                (Seq<ValueV>, SliceV),
                crate::AbiError,
            >::Ok((vs, SliceV { cell: c, dpos: flat_seq(vs).len(), rpos: 0 }))
        }),
{
    lemma_enc_flat(vs, empty_builder());
    let c = builder_cell(enc_elems(vs, empty_builder()));
    assert(c.data =~= flat_seq(vs));
    assert(c.data.subrange(0, flat_seq(vs).len() as int) =~= flat_seq(vs));
    lemma_dec_flat_seq(ts, vs, c, 0, 0);
}

} // verus!
