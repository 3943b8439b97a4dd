use tvm_abi::bitstring::Bitstring;
use tvm_abi::boc::{deserialize_cells, serialize_cells};
use tvm_abi::call::{decode_response, encode_signed_function_call, verify_signed_call};
use tvm_abi::cell::{CellBuilder, put_data_into_chain};
use tvm_abi::decode::decode_value;
use tvm_abi::dint::dint_from_i128;
use tvm_abi::encode::encode_value;
use tvm_abi::slice::SliceData;
use tvm_abi::types::AbiType;
use tvm_abi::value::AbiValue;
use tvm_abi::AbiError;

fn roundtrip(input: AbiValue, t: AbiType) -> AbiValue {
    let b = encode_value(&input, CellBuilder::new());
    let cell = b.into_cell();
    let mut slice = SliceData::from_cell(cell);
    decode_value(&t, &mut slice).unwrap()
}

#[test]
fn dynamic_array_of_maximum_length() {
    let values: Vec<AbiValue> = (0..255).map(|i| AbiValue::Uint(8, i as u128)).collect();
    let decoded = roundtrip(
        AbiValue::DynArray(AbiType::Uint(8), values),
        AbiType::DynArray(Box::new(AbiType::Uint(8))),
    );
    match decoded {
        AbiValue::DynArray(_, vs) => {
            assert_eq!(vs.len(), 255);
            for (i, v) in vs.iter().enumerate() {
                match v {
                    AbiValue::Uint(8, x) => assert_eq!(*x, i as u128),
                    _ => panic!("unexpected element"),
                }
            }
        }
        _ => panic!("expected a dynamic array"),
    }
}

#[test]
fn payload_of_exactly_one_cell_stays_inline() {
    let mut bits = Bitstring::new();
    for i in 0..1023 {
        bits.append_bit(i % 3 == 0);
    }
    let chain = put_data_into_chain(CellBuilder::new(), &bits);
    let cell = chain.into_cell();
    assert_eq!(cell.data_bits().length_in_bits(), 1023);
    assert_eq!(cell.ref_count(), 0);
}

#[test]
fn payload_of_one_extra_bit_spills_into_a_child() {
    let mut bits = Bitstring::new();
    for i in 0..1024 {
        bits.append_bit(i % 3 == 0);
    }
    let chain = put_data_into_chain(CellBuilder::new(), &bits);
    let cell = chain.into_cell();
    // the head keeps the first bit; the child holds the remaining 1023
    assert_eq!(cell.data_bits().length_in_bits(), 1);
    assert_eq!(cell.data_bits().get(0), bits.get(0));
    assert_eq!(cell.ref_count(), 1);
    let child = cell.reference(0);
    assert_eq!(child.data_bits().length_in_bits(), 1023);
    for i in 0..1023 {
        assert_eq!(child.data_bits().get(i), bits.get(i + 1));
    }
}

#[test]
fn dint_at_the_signed_boundaries() {
    for v in [0i128, 1, -1, (1i128 << 63) - 1, -(1i128 << 63)] {
        let value = dint_from_i128(v);
        let expected = match &value {
            AbiValue::Dint(bs) => bs.clone(),
            _ => panic!("expected a dint"),
        };
        match roundtrip(value, AbiType::Dint) {
            AbiValue::Dint(bs) => assert_eq!(bs, expected),
            _ => panic!("expected a dint"),
        }
    }
}

#[test]
fn dint_known_encodings() {
    // one byte per seven bits, least significant group first
    for (v, expected) in [
        (0i128, vec![0x00u8]),
        (1, vec![0x01]),
        (-1, vec![0x7F]),
        (64, vec![0xC0, 0x00]),
        (-128, vec![0x80, 0x7F]),
        (0x1234567890, vec![0x90, 0xF1, 0xD9, 0xA2, 0xA3, 0x02]),
    ] {
        match dint_from_i128(v) {
            AbiValue::Dint(bs) => assert_eq!(bs, expected),
            _ => panic!("expected a dint"),
        }
    }
}

#[test]
fn reserved_header_bits_are_rejected() {
    // a cell whose data opens with the reserved header `01`
    let mut builder = CellBuilder::new();
    builder.append_bit(false).unwrap();
    builder.append_bit(true).unwrap();
    let mut slice = SliceData::from_cell(builder.into_cell());
    match decode_value(&AbiType::Bits(1), &mut slice) {
        Err(e) => assert_eq!(e, AbiError::InvalidData),
        Ok(_) => panic!("a reserved header must be rejected"),
    }
}

#[test]
fn reading_past_the_end_reports_exhaustion() {
    let mut builder = CellBuilder::new();
    builder.append_bit(true).unwrap();
    let mut slice = SliceData::from_cell(builder.into_cell());
    match decode_value(&AbiType::Uint(8), &mut slice) {
        Err(e) => assert_eq!(e, AbiError::DataExhausted),
        Ok(_) => panic!("a short read must be reported"),
    }
}

#[test]
fn overfilling_a_cell_is_an_invalid_operation() {
    let mut bits = Bitstring::new();
    for _ in 0..1024 {
        bits.append_bit(true);
    }
    let mut builder = CellBuilder::new();
    assert_eq!(
        builder.append_data(&bits).unwrap_err(),
        AbiError::InvalidOperation
    );
    // a fifth reference is refused as well
    let mut full = CellBuilder::new();
    for _ in 0..4 {
        full.append_reference(CellBuilder::new().into_cell()).unwrap();
    }
    assert_eq!(
        full.append_reference(CellBuilder::new().into_cell())
            .unwrap_err(),
        AbiError::InvalidOperation
    );
}

#[test]
fn malformed_bytes_are_rejected() {
    // not a serialized cell tree at all
    match decode_response(&vec![0xFFu8, 0xFF, 0xFF], &vec![]) {
        Err(e) => assert_eq!(e, AbiError::InvalidData),
        Ok(_) => panic!("garbage must be rejected"),
    }
    // trailing garbage after a canonical serialization
    let cell = CellBuilder::new().into_cell();
    let mut bytes = serialize_cells(&cell);
    bytes.push(0);
    assert!(deserialize_cells(&bytes).is_err());
    // non-canonical padding inside the final data byte
    let mut builder = CellBuilder::new();
    builder.append_bit(true).unwrap();
    let mut bytes = serialize_cells(&builder.into_cell());
    let last = bytes.len() - 2;
    bytes[last] |= 0x01;
    assert!(deserialize_cells(&bytes).is_err());
}

#[test]
fn unsigned_message_carries_no_signature_cell() {
    let message = tvm_abi::call::encode_function_call(
        "test_empty_params",
        &vec![],
        &vec![],
        &vec![],
    );
    assert_eq!(
        verify_signed_call(&message).unwrap_err(),
        AbiError::SignatureError
    );
}

#[test]
fn conformance_is_checked_at_runtime() {
    // well-typed, well-formed values pass
    assert!(AbiValue::Uint(32, 7).conforms_to(&AbiType::Uint(32)));
    assert!(AbiValue::Int(8, -128).conforms_to(&AbiType::Int(8)));
    // out of range, unsupported width, or the wrong type fail
    assert!(!AbiValue::Uint(8, 256).conforms_to(&AbiType::Uint(8)));
    assert!(!AbiValue::Int(8, 128).conforms_to(&AbiType::Int(8)));
    assert!(!AbiValue::Uint(24, 0).conforms_to(&AbiType::Uint(24)));
    assert!(!AbiValue::Uint(32, 7).conforms_to(&AbiType::Uint(64)));
    assert!(!AbiValue::Bool(true).conforms_to(&AbiType::Uint(8)));
    // arrays check their element type, every element, and the count cap
    let good = AbiValue::DynArray(
        AbiType::Uint(8),
        vec![AbiValue::Uint(8, 1), AbiValue::Uint(8, 2)],
    );
    assert!(good.conforms_to(&AbiType::DynArray(Box::new(AbiType::Uint(8)))));
    let mixed = AbiValue::DynArray(
        AbiType::Uint(8),
        vec![AbiValue::Uint(8, 1), AbiValue::Uint(16, 2)],
    );
    assert!(!mixed.conforms_to(&AbiType::DynArray(Box::new(AbiType::Uint(8)))));
    let oversized = AbiValue::DynArray(
        AbiType::Uint(8),
        (0..256).map(|i| AbiValue::Uint(8, (i % 256) as u128)).collect(),
    );
    assert!(!oversized.conforms_to(&AbiType::DynArray(Box::new(AbiType::Uint(8)))));
    // a variable-length integer must carry the continuation-bit shape
    assert!(AbiValue::Dint(vec![0x90, 0x01]).conforms_to(&AbiType::Dint));
    assert!(!AbiValue::Dint(vec![0x01, 0x90]).conforms_to(&AbiType::Dint));
    assert!(!AbiValue::Dint(vec![]).conforms_to(&AbiType::Dint));
}

#[test]
fn type_validity_is_checked_at_runtime() {
    assert!(AbiType::Uint(128).well_formed());
    assert!(!AbiType::Uint(12).well_formed());
    assert!(!AbiType::Bits(0).well_formed());
    assert!(AbiType::Tuple(vec![AbiType::Bool, AbiType::Int(16)]).well_formed());
    assert!(!AbiType::Tuple(vec![AbiType::Bool, AbiType::Int(17)]).well_formed());
    // a dynamic array needs elements that occupy at least one bit
    assert!(AbiType::DynArray(Box::new(AbiType::Bool)).well_formed());
    assert!(!AbiType::DynArray(Box::new(AbiType::Tuple(vec![]))).well_formed());
}

#[test]
fn signing_needs_a_free_reference_slot() {
    // four referenced payloads fill the root's reference slots
    let big: Vec<AbiValue> = (0..4)
        .map(|_| {
            let mut bits = Bitstring::new();
            for i in 0..1024 {
                bits.append_bit(i % 2 == 0);
            }
            AbiValue::Bits(bits)
        })
        .collect();
    let ins: Vec<AbiType> = (0..4).map(|_| AbiType::Bits(1024)).collect();
    let secret = vec![7u8; 32];
    let r = encode_signed_function_call("crowded", &big, &ins, &vec![], &secret);
    assert_eq!(r.unwrap_err(), AbiError::InvalidOperation);
}
