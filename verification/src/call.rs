//! Function-call framing and signing.
//!
//! An outgoing call is the ABI version byte, the 32-bit function
//! identifier derived from the SHA-256 hash of the canonical signature,
//! and the positionally packed arguments, all built into one cell tree.
//! A signed call prepends a reference to a cell holding an Ed25519
//! signature over the SHA-512 digest of the serialized unsigned call,
//! followed by the public key.

use vstd::prelude::*;
use vstd::string::StringSliceAdditionalSpecFns;
use crate::AbiError;
use crate::bits::{u_bits, bytes_bits, lemma_bytes_bits_len};
use crate::bitstring::Bitstring;
use crate::boc::{ser_cell, serialize_cells, deserialize_cells, pack_bits};
use crate::cell::{Cell, CellV, CellBuilder, builder_cell, cell_wf, spill_prepend};
use crate::crypto::{
    sha256_of, sha512_of, ed25519_pk_of, ed25519_sig_of, ed25519_valid, sha256_digest,
    sha512_digest, ed25519_public_key, ed25519_sign, ed25519_verify,
};
use crate::encode::{enc_elems, empty_builder, encode_elements, lemma_enc_elems_wf, lemma_spill_prepend_wf};
use crate::slice::{SliceData, SliceV, s_inv};
use crate::decode::{dec_fields, decode_fields};
use crate::types::{AbiType, types_view, type_wf, signature_bytes, push_sig_list};
use crate::value::{AbiValue, ValueV, values_view, value_wf, value_has_type, lemma_values_view};

verus! {

broadcast use {vstd::std_specs::vec::group_vec_axioms, vstd::seq::group_seq_axioms};

/// The function identifier: the first four bytes of the SHA-256 digest
/// of the signature, read big-endian.
pub open spec fn fid_of(sig: Seq<u8>) -> nat {
    (sha256_of(sig)[0] as nat) * 0x100_0000 + (sha256_of(sig)[1] as nat) * 0x1_0000 + (sha256_of(
        sig,
    )[2] as nat) * 0x100 + (sha256_of(sig)[3] as nat)
}

/// The cell tree of an unsigned call: version byte, function identifier,
/// then the arguments, encoded back to front.
pub open spec fn call_cell(fid: nat, ins: Seq<ValueV>) -> CellV {
    builder_cell(
        spill_prepend(
            spill_prepend(enc_elems(ins, empty_builder()), u_bits(fid, 32)),
            u_bits(crate::ABI_VERSION as nat, 8),
        ),
    )
}

/// The signed call tree: the data of the unsigned root, with the
/// signature cell prepended to its references.
pub open spec fn signed_cell(root: CellV, sig_bits: Seq<bool>) -> CellV {
    CellV {
        data: root.data,
        refs: seq![CellV { data: sig_bits, refs: Seq::empty() }] + root.refs,
    }
}

/// Splits a signed call tree into the unsigned tree and the 768 bits of
/// its signature cell.
pub open spec fn strip_signature(c: CellV) -> Option<(CellV, Seq<bool>)> {
    if c.refs.len() >= 1 && c.refs[0].data.len() == 768 && c.refs[0].refs.len() == 0 {
        Some((CellV { data: c.data, refs: c.refs.drop_first() }, c.refs[0].data))
    } else {
        None
    }
}

/// What verification decides on a signed call tree: the signature cell
/// is split off, the digest is recomputed over the re-serialized
/// remainder, and the Ed25519 check runs against the embedded key.
pub open spec fn verify_outcome(c: CellV) -> Option<bool> {
    match strip_signature(c) {
        Option::None => None,
        Option::Some((rest, bits)) => Some(
            ed25519_valid(
                pack_bits(bits.skip(512)),
                sha512_of(ser_cell(rest)),
                pack_bits(bits.take(512)),
            ),
        ),
    }
}

/// Computes a function identifier from the bytes of a canonical
/// signature.
pub fn get_function_id(signature: &Vec<u8>) -> (r: u32)
    ensures
        r as nat == fid_of(signature@),
{
    let d = sha256_digest(signature);
    (d[0] as u32) * 0x100_0000 + (d[1] as u32) * 0x1_0000 + (d[2] as u32) * 0x100 + (d[3] as u32)
}

/// Renders the canonical signature `name(inTypes)(outTypes)`.
pub fn signature_string(name: &str, ins: &Vec<AbiType>, outs: &Vec<AbiType>) -> (r: Vec<u8>)
    ensures
        r@ == signature_bytes(name.spec_bytes(), types_view(ins@), types_view(outs@)),
{
    let mut out: Vec<u8> = Vec::new();
    let nb = name.as_bytes();
    let mut i: usize = 0;
    while i < nb.len()
        invariant
            i <= nb@.len(),
            nb@ == name.spec_bytes(),
            out@ == nb@.take(i as int),
        decreases nb@.len() - i,
    {
        out.push(nb[i]);
        proof {
            assert(nb@.take(i as int).push(nb@[i as int]) =~= nb@.take(i + 1));
        }
        i = i + 1;
    }
    proof {
        assert(nb@.take(nb@.len() as int) =~= nb@);
    }
    out.push(40);
    push_sig_list(&mut out, ins);
    out.push(41);
    out.push(40);
    push_sig_list(&mut out, outs);
    out.push(41);
    proof {
        assert(out@ =~= signature_bytes(name.spec_bytes(), types_view(ins@), types_view(outs@)));
    }
    out
}

/// Encodes an unsigned call into its cell tree.
pub fn encode_function_call_into_cell(
    name: &str,
    inputs: &Vec<AbiValue>,
    ins: &Vec<AbiType>,
    outs: &Vec<AbiType>,
) -> (r: Cell)
    requires
        inputs@.len() == ins@.len(),
        forall|i: int| 0 <= i < inputs@.len() ==> value_wf(#[trigger] inputs@[i]@),
        forall|i: int|
            0 <= i < inputs@.len() ==> value_has_type(#[trigger] inputs@[i]@, ins@[i]@),
    ensures
        r@ == call_cell(
            fid_of(signature_bytes(name.spec_bytes(), types_view(ins@), types_view(outs@))),
            values_view(inputs@),
        ),
        cell_wf(r@),
{
    let sig = signature_string(name, ins, outs);
    let fid = get_function_id(&sig);
    let b0 = CellBuilder::new();
    proof {
        assert(b0@ =~= empty_builder());
        lemma_values_view(inputs@);
    }
    let b1 = encode_elements(inputs, b0);
    let mut fid_bits = Bitstring::new();
    fid_bits.append_u32(fid);
    proof {
        assert(Seq::<bool>::empty() + u_bits(fid as nat, 32) =~= u_bits(fid as nat, 32));
    }
    let b2 = crate::cell::prepend_data_into_chain(b1, &fid_bits);
    let mut ver_bits = Bitstring::new();
    ver_bits.append_u8(crate::ABI_VERSION);
    proof {
        assert(Seq::<bool>::empty() + u_bits(crate::ABI_VERSION as nat, 8) =~= u_bits(
            crate::ABI_VERSION as nat,
            8,
        ));
    }
    let b3 = crate::cell::prepend_data_into_chain(b2, &ver_bits);
    let r = b3.into_cell();
    proof {
        lemma_enc_elems_wf(values_view(inputs@), empty_builder());
        lemma_spill_prepend_wf(b1@, u_bits(fid as nat, 32));
        lemma_spill_prepend_wf(b2@, u_bits(crate::ABI_VERSION as nat, 8));
    }
    r
}

/// Encodes an unsigned call and serializes it to bytes.
pub fn encode_function_call(
    name: &str,
    inputs: &Vec<AbiValue>,
    ins: &Vec<AbiType>,
    outs: &Vec<AbiType>,
) -> (r: Vec<u8>)
    requires
        inputs@.len() == ins@.len(),
        forall|i: int| 0 <= i < inputs@.len() ==> value_wf(#[trigger] inputs@[i]@),
        forall|i: int|
            0 <= i < inputs@.len() ==> value_has_type(#[trigger] inputs@[i]@, ins@[i]@),
    ensures
        r@ == ser_cell(
            call_cell(
                fid_of(signature_bytes(name.spec_bytes(), types_view(ins@), types_view(outs@))),
                values_view(inputs@),
            ),
        ),
{
    let cell = encode_function_call_into_cell(name, inputs, ins, outs);
    serialize_cells(&cell)
}

/// Encodes an unsigned call and returns the serialized message together
/// with the digest a signer is expected to sign.
pub fn encode_unsigned_call(
    name: &str,
    inputs: &Vec<AbiValue>,
    ins: &Vec<AbiType>,
    outs: &Vec<AbiType>,
) -> (r: (Vec<u8>, Vec<u8>))
    requires
        inputs@.len() == ins@.len(),
        forall|i: int| 0 <= i < inputs@.len() ==> value_wf(#[trigger] inputs@[i]@),
        forall|i: int|
            0 <= i < inputs@.len() ==> value_has_type(#[trigger] inputs@[i]@, ins@[i]@),
    ensures
        r.0@ == ser_cell(
            call_cell(
                fid_of(signature_bytes(name.spec_bytes(), types_view(ins@), types_view(outs@))),
                values_view(inputs@),
            ),
        ),
        r.1@ == sha512_of(r.0@),
{
    let bytes = encode_function_call(name, inputs, ins, outs);
    let digest = sha512_digest(&bytes);
    (bytes, digest)
}

/// Encodes a signed call: the unsigned tree gains a first reference to a
/// cell of 768 raw bits holding the Ed25519 signature of the SHA-512
/// digest of the serialized unsigned call, followed by the public key.
/// Fails if the unsigned root already uses all four reference slots.
pub fn encode_signed_function_call(
    name: &str,
    inputs: &Vec<AbiValue>,
    ins: &Vec<AbiType>,
    outs: &Vec<AbiType>,
    secret: &Vec<u8>,
) -> (r: Result<Vec<u8>, AbiError>)
    requires
        secret@.len() == 32,
        inputs@.len() == ins@.len(),
        forall|i: int| 0 <= i < inputs@.len() ==> value_wf(#[trigger] inputs@[i]@),
        forall|i: int|
            0 <= i < inputs@.len() ==> value_has_type(#[trigger] inputs@[i]@, ins@[i]@),
    ensures
        ({
            let root = call_cell(
                fid_of(signature_bytes(name.spec_bytes(), types_view(ins@), types_view(outs@))),
                values_view(inputs@),
            );
            let digest = sha512_of(ser_cell(root));
            let sig_bits = bytes_bits(ed25519_sig_of(secret@, digest) + ed25519_pk_of(secret@));
            if root.refs.len() < 4 {
                r is Ok && r->Ok_0@ == ser_cell(signed_cell(root, sig_bits))
            } else {
                r == Result::<Vec<u8>, AbiError>::Err(AbiError::InvalidOperation)
            }
        }),
{
    let cell = encode_function_call_into_cell(name, inputs, ins, outs);
    if cell.ref_count() >= 4 {
        return Err(AbiError::InvalidOperation);
    }
    let ser = serialize_cells(&cell);
    let digest = sha512_digest(&ser);
    let mut sig = ed25519_sign(secret, &digest);
    let mut pk = ed25519_public_key(secret);
    let ghost sig_v = sig@;
    let ghost pk_v = pk@;
    sig.append(&mut pk);
    proof {
        assert(sig@ == sig_v + pk_v);
    }
    let sig_bits = Bitstring::create(&sig, 768);
    proof {
        lemma_bytes_bits_len(sig@);
        assert(bytes_bits(sig@).take(768) =~= bytes_bits(sig@));
    }
    let mut sbuilder = CellBuilder::new();
    let res = sbuilder.append_data(&sig_bits);
    proof {
        assert(res is Ok);
    }
    let sig_cell = sbuilder.into_cell();
    let mut root_builder = CellBuilder::new();
    let data_copy = cell.data_bits().bits(0, cell.data_bits().length_in_bits());
    let res2 = root_builder.append_data(&data_copy);
    proof {
        assert(cell@.data.subrange(0, cell@.data.len() as int) =~= cell@.data);
        assert(res2 is Ok);
    }
    let res3 = root_builder.append_reference(sig_cell);
    proof {
        assert(res3 is Ok);
    }
    let n = cell.ref_count();
    let mut i: usize = 0;
    while i < n
        invariant
            n == cell@.refs.len() < 4,
            i <= n,
            cell_wf(cell@),
            root_builder@.data == cell@.data,
            root_builder@.refs.len() == i + 1,
            root_builder@.refs[0] == (CellV { data: bytes_bits(sig_v + pk_v), refs: Seq::<CellV>::empty() }),
            forall|j: int| 0 <= j < i ==> root_builder@.refs[j + 1] == cell@.refs[j],
        decreases n - i,
    {
        let child = cell.reference(i).deep_copy();
        let res4 = root_builder.append_reference(child);
        proof {
            assert(res4 is Ok);
        }
        i = i + 1;
    }
    let signed = root_builder.into_cell();
    proof {
        let root = cell@;
        let sig_bits_s = bytes_bits(sig_v + pk_v);
        assert(signed@.refs =~= seq![CellV { data: sig_bits_s, refs: Seq::<CellV>::empty() }]
            + root.refs);
        assert(signed@ =~= signed_cell(root, sig_bits_s));
        assert(cell_wf(signed@)) by {
            assert forall|j: int| 0 <= j < signed@.refs.len() implies cell_wf(
                #[trigger] signed@.refs[j],
            ) by {
                if j > 0 {
                    assert(signed@.refs[j] == root.refs[j - 1]);
                }
            }
        }
    }
    Ok(serialize_cells(&signed))
}

/// Checks the Ed25519 signature carried by a serialized signed call:
/// the first reference must be the 768-bit signature cell; the digest is
/// recomputed from the re-serialized unsigned remainder and verified
/// against the embedded public key.
pub fn verify_signed_call(bytes: &Vec<u8>) -> (r: Result<bool, AbiError>)
    ensures
        (forall|c: CellV| cell_wf(c) ==> #[trigger] ser_cell(c) != bytes@) ==> r == Result::<
            bool,
            AbiError,
        >::Err(AbiError::InvalidData),
        forall|c: CellV|
            cell_wf(c) && #[trigger] ser_cell(c) == bytes@ ==> r == (match verify_outcome(c) {
                Option::Some(b) => Result::<bool, AbiError>::Ok(b),
                Option::None => Err(AbiError::SignatureError),
            }),
{
    let cell = match deserialize_cells(bytes) {
        Ok(c) => c,
        Err(_) => {
            return Err(AbiError::InvalidData);
        },
    };
    if cell.ref_count() < 1 {
        return Err(AbiError::SignatureError);
    }
    let sig_cell = cell.reference(0);
    if sig_cell.data_bits().length_in_bits() != 768 || sig_cell.ref_count() != 0 {
        return Err(AbiError::SignatureError);
    }
    let sig_bits = sig_cell.data_bits().bits(0, 512);
    let pk_bits = sig_cell.data_bits().bits(512, 768);
    let sig_bytes = crate::boc::pack_bits_vec(&sig_bits);
    let pk_bytes = crate::boc::pack_bits_vec(&pk_bits);
    let mut rest = CellBuilder::new();
    let data_copy = cell.data_bits().bits(0, cell.data_bits().length_in_bits());
    let res = rest.append_data(&data_copy);
    proof {
        assert(cell@.data.subrange(0, cell@.data.len() as int) =~= cell@.data);
        assert(res is Ok);
    }
    let n = cell.ref_count();
    let mut i: usize = 1;
    while i < n
        invariant
            1 <= i <= n == cell@.refs.len() <= 4,
            cell_wf(cell@),
            rest@.data == cell@.data,
            rest@.refs.len() == i - 1,
            forall|j: int| 0 <= j < i - 1 ==> rest@.refs[j] == cell@.refs[j + 1],
        decreases n - i,
    {
        let child = cell.reference(i).deep_copy();
        let res2 = rest.append_reference(child);
        proof {
            assert(res2 is Ok);
        }
        i = i + 1;
    }
    let stripped = rest.into_cell();
    proof {
        assert(stripped@.refs =~= cell@.refs.drop_first());
        assert(stripped@ =~= strip_signature(cell@)->Some_0.0);
        assert(cell_wf(stripped@)) by {
            assert forall|j: int| 0 <= j < stripped@.refs.len() implies cell_wf(
                #[trigger] stripped@.refs[j],
            ) by {
                assert(stripped@.refs[j] == cell@.refs[j + 1]);
            }
        }
        crate::slice::lemma_bits_val_bound(cell@.refs[0].data);
    }
    let ser = serialize_cells(&stripped);
    let digest = sha512_digest(&ser);
    proof {
        crate::boc::lemma_pack_len(sig_bits@);
        crate::boc::lemma_pack_len(pk_bits@);
    }
    if pk_bytes.len() != 32 || sig_bytes.len() != 64 {
        return Err(AbiError::SignatureError);
    }
    let ok = ed25519_verify(&pk_bytes, &digest, &sig_bytes);
    proof {
        let c = cell@;
        assert(strip_signature(c)->Some_0.1 == c.refs[0].data);
        assert(sig_bits@ =~= c.refs[0].data.take(512));
        assert(pk_bits@ =~= c.refs[0].data.skip(512));
    }
    Ok(ok)
}

/// Decodes a response: the typed values read in order from a reader
/// over the deserialized cell tree.
pub fn decode_response(bytes: &Vec<u8>, types: &Vec<AbiType>) -> (r: Result<
    Vec<AbiValue>,
    AbiError,
>)
    requires
        forall|j: int| 0 <= j < types@.len() ==> type_wf(#[trigger] types@[j]@),
    ensures
        (forall|c: CellV| cell_wf(c) ==> #[trigger] ser_cell(c) != bytes@) ==> r == Result::<
            Vec<AbiValue>,
            AbiError,
        >::Err(AbiError::InvalidData),
        forall|c: CellV|
            cell_wf(c) && #[trigger] ser_cell(c) == bytes@ ==> (match dec_fields(
                types_view(types@),
                (SliceV { cell: c, dpos: 0, rpos: 0 }),
            ) {
                Ok(p) => r is Ok && values_view(r->Ok_0@) == p.0,
                Err(e) => r == Result::<Vec<AbiValue>, AbiError>::Err(e),
            }),
{
    let cell = match deserialize_cells(bytes) {
        Ok(c) => c,
        Err(_) => {
            return Err(AbiError::InvalidData);
        },
    };
    let ghost cv = cell@;
    let mut slice = SliceData::from_cell(cell);
    let res = decode_response_from_slice(&mut slice, types);
    proof {
        assert forall|c: CellV| cell_wf(c) && #[trigger] ser_cell(c) == bytes@
            implies c == cv by {}
    }
    res
}

/// Decodes a response from an existing reader.
pub fn decode_response_from_slice(slice: &mut SliceData, types: &Vec<AbiType>) -> (r: Result<
    Vec<AbiValue>,
    AbiError,
>)
    requires
        s_inv(old(slice)@),
        forall|j: int| 0 <= j < types@.len() ==> type_wf(#[trigger] types@[j]@),
    ensures
        match dec_fields(types_view(types@), old(slice)@) {
            Ok(p) => {
                &&& r is Ok
                &&& values_view(r->Ok_0@) == p.0
                &&& final(slice)@ == p.1
            },
            Err(e) => r == Result::<Vec<AbiValue>, AbiError>::Err(e),
        },
{
    decode_fields(types, slice)
}

} // verus!
