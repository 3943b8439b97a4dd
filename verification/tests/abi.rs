use tvm_abi::ABI_VERSION;
use tvm_abi::bitstring::Bitstring;
use tvm_abi::boc::{deserialize_cells, serialize_cells};
use tvm_abi::call::{
    decode_response, encode_function_call, encode_function_call_into_cell,
    encode_signed_function_call, get_function_id, signature_string, verify_signed_call,
};
use tvm_abi::cell::{Cell, CellBuilder, put_data_into_chain};
use tvm_abi::decode::decode_value;
use tvm_abi::dint::{dint_from_i128, duint_from_u128};
use tvm_abi::encode::encode_value;
use tvm_abi::slice::SliceData;
use tvm_abi::types::AbiType;
use tvm_abi::value::AbiValue;

fn tree_from_bitstring(bs: &Bitstring) -> Cell {
    let mut b = CellBuilder::new();
    b.append_data(bs).unwrap();
    b.into_cell()
}

fn deserialize(message: Vec<u8>) -> Cell {
    deserialize_cells(&message).unwrap()
}

// A byte image whose final set bit marks the end of the data.
fn tree_from_tagged_bytes(bytes: Vec<u8>) -> Cell {
    let mut bit_len = bytes.len() * 8;
    'outer: for byte in bytes.iter().rev() {
        for k in 0..8 {
            bit_len -= 1;
            if (byte >> k) & 1 == 1 {
                break 'outer;
            }
        }
    }
    let bs = Bitstring::create(&bytes, bit_len);
    tree_from_bitstring(&bs)
}

fn bitstring_eq(a: &Bitstring, b: &Bitstring) -> bool {
    if a.length_in_bits() != b.length_in_bits() {
        return false;
    }
    for i in 0..a.length_in_bits() {
        if a.get(i) != b.get(i) {
            return false;
        }
    }
    true
}

fn value_eq(a: &AbiValue, b: &AbiValue) -> bool {
    match (a, b) {
        (AbiValue::Uint(w1, v1), AbiValue::Uint(w2, v2)) => w1 == w2 && v1 == v2,
        (AbiValue::Int(w1, v1), AbiValue::Int(w2, v2)) => w1 == w2 && v1 == v2,
        (AbiValue::Bool(x), AbiValue::Bool(y)) => x == y,
        (AbiValue::Dint(x), AbiValue::Dint(y)) => x == y,
        (AbiValue::Duint(x), AbiValue::Duint(y)) => x == y,
        (AbiValue::Bits(x), AbiValue::Bits(y)) => bitstring_eq(x, y),
        (AbiValue::Bitstring(x), AbiValue::Bitstring(y)) => bitstring_eq(x, y),
        (AbiValue::FixedArray(_, xs), AbiValue::FixedArray(_, ys)) => values_eq(xs, ys),
        (AbiValue::DynArray(_, xs), AbiValue::DynArray(_, ys)) => values_eq(xs, ys),
        (AbiValue::Tuple(xs), AbiValue::Tuple(ys)) => values_eq(xs, ys),
        _ => false,
    }
}

fn values_eq(xs: &Vec<AbiValue>, ys: &Vec<AbiValue>) -> bool {
    xs.len() == ys.len() && xs.iter().zip(ys.iter()).all(|(x, y)| value_eq(x, y))
}

fn clone_value(v: &AbiValue) -> AbiValue {
    match v {
        AbiValue::Uint(w, x) => AbiValue::Uint(*w, *x),
        AbiValue::Int(w, x) => AbiValue::Int(*w, *x),
        AbiValue::Bool(b) => AbiValue::Bool(*b),
        AbiValue::Dint(bs) => AbiValue::Dint(bs.clone()),
        AbiValue::Duint(bs) => AbiValue::Duint(bs.clone()),
        AbiValue::Bits(bs) => AbiValue::Bits(bs.bits(0, bs.length_in_bits())),
        AbiValue::Bitstring(bs) => AbiValue::Bitstring(bs.bits(0, bs.length_in_bits())),
        AbiValue::FixedArray(t, vs) => {
            AbiValue::FixedArray(t.type_copy(), vs.iter().map(clone_value).collect())
        }
        AbiValue::DynArray(t, vs) => {
            AbiValue::DynArray(t.type_copy(), vs.iter().map(clone_value).collect())
        }
        AbiValue::Tuple(vs) => AbiValue::Tuple(vs.iter().map(clone_value).collect()),
    }
}

fn clone_types(ts: &Vec<AbiType>) -> Vec<AbiType> {
    ts.iter().map(|t| t.type_copy()).collect()
}

fn test_parameters_set(
    func_name: &str,
    input: Vec<AbiValue>,
    ins: Vec<AbiType>,
    outs: Vec<AbiType>,
    expected_tree: &Cell,
) {
    let message = encode_function_call(func_name, &input, &ins, &outs);
    let test_tree = deserialize(message.clone());
    assert!(test_tree.equals(expected_tree));

    let message_tree = encode_function_call_into_cell(func_name, &input, &ins, &outs);
    assert!(message_tree.equals(expected_tree));

    // decode the whole message, version and function id included
    let expected_id = get_function_id(&signature_string(func_name, &ins, &outs));
    let mut full_types = vec![AbiType::Uint(8), AbiType::Uint(32)];
    full_types.extend(clone_types(&ins));
    let decoded = decode_response(&message, &full_types).unwrap();
    assert_eq!(decoded.len(), input.len() + 2);
    assert!(value_eq(&decoded[0], &AbiValue::Uint(8, ABI_VERSION as u128)));
    assert!(value_eq(&decoded[1], &AbiValue::Uint(32, expected_id as u128)));
    for (i, v) in input.iter().enumerate() {
        assert!(value_eq(&decoded[i + 2], v));
    }
}

fn validate(input: AbiValue, t: AbiType) {
    let b = encode_value(&input, CellBuilder::new());
    let cell = b.into_cell();
    let mut slice = SliceData::from_cell(cell);
    let output = decode_value(&t, &mut slice).unwrap();
    assert!(value_eq(&output, &input));
}

#[test]
fn test_one_input_and_output() {
    let mut bitstring = Bitstring::new();
    bitstring.append_u8(ABI_VERSION);
    bitstring.append_u32(get_function_id(
        &b"test_one_input_and_output(uint128)(bool)".to_vec(),
    ));
    bitstring.append_u128(1123);
    let expected_tree = tree_from_bitstring(&bitstring);

    test_parameters_set(
        "test_one_input_and_output",
        vec![AbiValue::Uint(128, 1123)],
        vec![AbiType::Uint(128)],
        vec![AbiType::Bool],
        &expected_tree,
    );
}

#[test]
fn test_one_input_and_output_by_data() {
    let expected_tree = tree_from_tagged_bytes(vec![
        0x00, 0x87, 0x98, 0x73, 0xe1, 0xFF, 0xFF, 0xFF, 0x75, 0x0C, 0xE4, 0x7B, 0xAC, 0x80,
    ]);

    test_parameters_set(
        "test_one_input_and_output_by_data",
        vec![AbiValue::Int(64, -596784153684)],
        vec![AbiType::Int(64)],
        vec![AbiType::Uint(8)],
        &expected_tree,
    );
}

#[test]
fn test_empty_params() {
    let message = encode_function_call("test_empty_params", &vec![], &vec![], &vec![]);
    let test_tree = deserialize(message);

    let mut bitstring = Bitstring::new();
    bitstring.append_u8(ABI_VERSION);
    bitstring.append_u32(get_function_id(&b"test_empty_params()()".to_vec()));
    let expected_tree = tree_from_bitstring(&bitstring);
    assert!(test_tree.equals(&expected_tree));

    let builder = CellBuilder::new();
    let expected_tree = builder.into_cell();
    let data = serialize_cells(&expected_tree);
    let test_decode = decode_response(&data, &vec![]).unwrap();
    assert_eq!(test_decode.len(), 0);
}

#[test]
fn test_two_params() {
    let mut bitstring = Bitstring::new();
    bitstring.append_u8(ABI_VERSION);
    bitstring.append_u32(get_function_id(
        &b"test_two_params(bool,int32)(uint8,uint64)".to_vec(),
    ));
    bitstring.append_bit(true);
    bitstring.append_i32(9434567);
    let expected_tree = tree_from_bitstring(&bitstring);

    test_parameters_set(
        "test_two_params",
        vec![AbiValue::Bool(true), AbiValue::Int(32, 9434567)],
        vec![AbiType::Bool, AbiType::Int(32)],
        vec![AbiType::Uint(8), AbiType::Uint(64)],
        &expected_tree,
    );
}

#[test]
fn test_nested_tuples_with_all_simples() {
    let mut bitstring = Bitstring::new();
    bitstring.append_u8(ABI_VERSION);
    bitstring.append_u32(get_function_id(
        &b"test_nested_tuples_with_all_simples(bool,(int8,int16,(int32,int64,int128)),(uint8,uint16,(uint32,uint64,uint128)))()"
            .to_vec(),
    ));
    bitstring.append_bit(false);
    bitstring.append_i8(-15);
    bitstring.append_i16(9845);
    bitstring.append_i32(-1);
    bitstring.append_i64(12345678);
    bitstring.append_i128(-12345678);
    bitstring.append_u8(255);
    bitstring.append_u16(0);
    bitstring.append_u32(256);
    bitstring.append_u64(123);
    bitstring.append_u128(1234567890);
    let expected_tree = tree_from_bitstring(&bitstring);

    let input_data = vec![
        AbiValue::Bool(false),
        AbiValue::Tuple(vec![
            AbiValue::Int(8, -15),
            AbiValue::Int(16, 9845),
            AbiValue::Tuple(vec![
                AbiValue::Int(32, -1),
                AbiValue::Int(64, 12345678),
                AbiValue::Int(128, -12345678),
            ]),
        ]),
        AbiValue::Tuple(vec![
            AbiValue::Uint(8, 255),
            AbiValue::Uint(16, 0),
            AbiValue::Tuple(vec![
                AbiValue::Uint(32, 256),
                AbiValue::Uint(64, 123),
                AbiValue::Uint(128, 1234567890),
            ]),
        ]),
    ];
    let ins = vec![
        AbiType::Bool,
        AbiType::Tuple(vec![
            AbiType::Int(8),
            AbiType::Int(16),
            AbiType::Tuple(vec![AbiType::Int(32), AbiType::Int(64), AbiType::Int(128)]),
        ]),
        AbiType::Tuple(vec![
            AbiType::Uint(8),
            AbiType::Uint(16),
            AbiType::Tuple(vec![AbiType::Uint(32), AbiType::Uint(64), AbiType::Uint(128)]),
        ]),
    ];

    test_parameters_set(
        "test_nested_tuples_with_all_simples",
        input_data,
        ins,
        vec![],
        &expected_tree,
    );
}

#[test]
fn test_small_static_array() {
    let input_array: [u32; 8] = [1, 2, 3, 4, 5, 6, 7, 8];

    let mut bitstring = Bitstring::new();
    bitstring.append_u8(ABI_VERSION);
    bitstring.append_u32(get_function_id(
        &b"test_small_static_array(uint32[8])()".to_vec(),
    ));
    bitstring.append_bit(true);
    bitstring.append_bit(false);
    for &i in &input_array {
        bitstring.append_u32(i);
    }
    let expected_tree = tree_from_bitstring(&bitstring);

    let values = input_array
        .iter()
        .map(|&x| AbiValue::Uint(32, x as u128))
        .collect();
    test_parameters_set(
        "test_small_static_array",
        vec![AbiValue::FixedArray(AbiType::Uint(32), values)],
        vec![AbiType::FixedArray(Box::new(AbiType::Uint(32)), 8)],
        vec![],
        &expected_tree,
    );
}

#[test]
fn test_small_static_array_by_data() {
    let input_array: [u16; 5] = [5, 4, 3, 2, 1];

    let expected_tree = tree_from_tagged_bytes(vec![
        0x00, 0xd5, 0x7a, 0x4d, 0xac, 0x80, 0x01, 0x40, 0x01, 0x00, 0x00, 0xc0, 0x00, 0x80, 0x00,
        0x60,
    ]);

    let values = input_array
        .iter()
        .map(|&x| AbiValue::Uint(16, x as u128))
        .collect();
    test_parameters_set(
        "test_small_static_array_by_data",
        vec![AbiValue::FixedArray(AbiType::Uint(16), values)],
        vec![AbiType::FixedArray(Box::new(AbiType::Uint(16)), 5)],
        vec![],
        &expected_tree,
    );
}

#[test]
fn test_empty_dynamic_array() {
    let input_array: Vec<u16> = Vec::new();

    let mut bitstring = Bitstring::new();
    bitstring.append_u8(ABI_VERSION);
    bitstring.append_u32(get_function_id(
        &b"test_small_dynamic_array(uint16[])()".to_vec(),
    ));
    bitstring.append_bit(true);
    bitstring.append_bit(false);
    bitstring.append_u8(input_array.len() as u8);
    for &i in &input_array {
        bitstring.append_u16(i);
    }
    let expected_tree = tree_from_bitstring(&bitstring);

    let values = input_array
        .iter()
        .map(|&x| AbiValue::Uint(16, x as u128))
        .collect();
    test_parameters_set(
        "test_small_dynamic_array",
        vec![AbiValue::DynArray(AbiType::Uint(16), values)],
        vec![AbiType::DynArray(Box::new(AbiType::Uint(16)))],
        vec![],
        &expected_tree,
    );
}

#[test]
fn test_small_dynamic_array() {
    let input_array: Vec<u16> = vec![1, 2, 3, 4, 5, 6, 7, 8];

    let mut bitstring = Bitstring::new();
    bitstring.append_u8(ABI_VERSION);
    bitstring.append_u32(get_function_id(
        &b"test_small_dynamic_array(uint16[])()".to_vec(),
    ));
    bitstring.append_bit(true);
    bitstring.append_bit(false);
    bitstring.append_u8(input_array.len() as u8);
    for &i in &input_array {
        bitstring.append_u16(i);
    }
    let expected_tree = tree_from_bitstring(&bitstring);

    let values = input_array
        .iter()
        .map(|&x| AbiValue::Uint(16, x as u128))
        .collect();
    test_parameters_set(
        "test_small_dynamic_array",
        vec![AbiValue::DynArray(AbiType::Uint(16), values)],
        vec![AbiType::DynArray(Box::new(AbiType::Uint(16)))],
        vec![],
        &expected_tree,
    );
}

#[test]
fn test_big_static_array() {
    let mut input_array: [u128; 32] = [0; 32];
    for i in 0..32 {
        input_array[i] = i as u128;
    }

    let mut data = Bitstring::new();
    data.append_u8(ABI_VERSION);
    data.append_u32(get_function_id(
        &b"test_big_static_array(uint128[32])()".to_vec(),
    ));
    data.append_bit(false);
    data.append_bit(false);

    let mut array_data = Bitstring::new();
    for &i in &input_array {
        array_data.append_u128(i);
    }
    let array_builder = put_data_into_chain(CellBuilder::new(), &array_data);

    let mut root_builder = CellBuilder::new();
    root_builder.append_data(&data).unwrap();
    root_builder
        .append_reference(array_builder.into_cell())
        .unwrap();
    let expected_tree = root_builder.into_cell();

    let values = input_array
        .iter()
        .map(|&x| AbiValue::Uint(128, x))
        .collect();
    test_parameters_set(
        "test_big_static_array",
        vec![AbiValue::FixedArray(AbiType::Uint(128), values)],
        vec![AbiType::FixedArray(Box::new(AbiType::Uint(128)), 32)],
        vec![],
        &expected_tree,
    );
}

#[test]
fn test_huge_static_array() {
    let mut input_array: [i32; 512] = [0; 512];
    for i in 0..input_array.len() {
        input_array[i] = i as i32;
    }

    let values: Vec<AbiValue> = input_array
        .iter()
        .map(|&x| AbiValue::Int(32, x as i128))
        .collect();
    let input = vec![AbiValue::FixedArray(AbiType::Int(32), values)];
    let ins = vec![AbiType::FixedArray(Box::new(AbiType::Int(32)), 512)];
    let message = encode_function_call("test_huge_static_array", &input, &ins, &vec![]);
    let test_tree = deserialize(message);

    let mut data = Bitstring::new();
    data.append_u8(ABI_VERSION);
    data.append_u32(get_function_id(
        &b"test_huge_static_array(int32[512])()".to_vec(),
    ));
    data.append_bit(false);
    data.append_bit(false);

    let mut array_data = Bitstring::new();
    for i in 0..input_array.len() {
        array_data.append_i32(input_array[i]);
    }
    let array_builder = put_data_into_chain(CellBuilder::new(), &array_data);
    let array_cell = array_builder.into_cell();

    let mut root_builder = CellBuilder::new();
    root_builder.append_data(&data).unwrap();
    root_builder.append_reference(array_cell.deep_copy()).unwrap();
    let expected_tree = root_builder.into_cell();

    assert!(test_tree.equals(&expected_tree));

    let mut root_builder = CellBuilder::new();
    root_builder.append_bit(false).unwrap();
    root_builder.append_bit(false).unwrap();
    root_builder.append_reference(array_cell).unwrap();
    let expected_tree = root_builder.into_cell();

    let data = serialize_cells(&expected_tree);
    let decoded = decode_response(&data, &ins).unwrap();
    assert_eq!(decoded.len(), 1);
    match &decoded[0] {
        AbiValue::FixedArray(_, vs) => {
            assert_eq!(input_array.len(), vs.len());
            for i in 0..input_array.len() {
                assert!(value_eq(&vs[i], &AbiValue::Int(32, input_array[i] as i128)));
            }
        }
        _ => panic!("expected a fixed array"),
    }
}

#[test]
fn test_big_dynamic_array() {
    let mut input_array: Vec<i64> = Vec::new();
    for i in 0..73i64 {
        input_array.push(i * i);
    }

    let mut data = Bitstring::new();
    data.append_u8(ABI_VERSION);
    data.append_u32(get_function_id(
        &b"test_big_dynamic_array(int64[])()".to_vec(),
    ));
    data.append_bit(false);
    data.append_bit(false);

    let mut array_data = Bitstring::new();
    for &i in &input_array {
        array_data.append_i64(i);
    }
    let array_builder = put_data_into_chain(CellBuilder::new(), &array_data);

    let mut root_builder = CellBuilder::new();
    root_builder.append_data(&data).unwrap();
    root_builder
        .append_reference(array_builder.into_cell())
        .unwrap();
    let expected_tree = root_builder.into_cell();

    let values = input_array
        .iter()
        .map(|&x| AbiValue::Int(64, x as i128))
        .collect();
    test_parameters_set(
        "test_big_dynamic_array",
        vec![AbiValue::DynArray(AbiType::Int(64), values)],
        vec![AbiType::DynArray(Box::new(AbiType::Int(64)))],
        vec![],
        &expected_tree,
    );
}

#[test]
fn test_dynamic_array_of_tuples() {
    let input_array: Vec<(u32, bool)> =
        vec![(1, true), (2, false), (3, true), (4, false), (5, true)];

    let mut bitstring = Bitstring::new();
    bitstring.append_u8(ABI_VERSION);
    bitstring.append_u32(get_function_id(
        &b"test_dynamic_array_of_tuples((uint32,bool)[])()".to_vec(),
    ));
    bitstring.append_bit(true);
    bitstring.append_bit(false);
    bitstring.append_u8(input_array.len() as u8);
    for i in &input_array {
        bitstring.append_u32(i.0);
        bitstring.append_bit(i.1);
    }
    let expected_tree = tree_from_bitstring(&bitstring);

    let elem_type = AbiType::Tuple(vec![AbiType::Uint(32), AbiType::Bool]);
    let values = input_array
        .iter()
        .map(|&(x, b)| AbiValue::Tuple(vec![AbiValue::Uint(32, x as u128), AbiValue::Bool(b)]))
        .collect();
    test_parameters_set(
        "test_dynamic_array_of_tuples",
        vec![AbiValue::DynArray(elem_type.type_copy(), values)],
        vec![AbiType::DynArray(Box::new(elem_type))],
        vec![],
        &expected_tree,
    );
}

#[test]
fn test_tuples_with_combined_types() {
    let input_array1: Vec<(u32, bool)> = vec![(1, true), (2, false), (3, true), (4, false)];

    let mut input_array2: Vec<i64> = Vec::new();
    for i in 0..73i64 {
        input_array2.push(i * i);
    }

    let mut bitstring = Bitstring::new();
    bitstring.append_u8(ABI_VERSION);
    bitstring.append_u32(get_function_id(
        &b"test_tuples_with_combined_types(uint8,((uint32,bool)[],int16),(int64[],int64[][5]))()"
            .to_vec(),
    ));
    // u8
    bitstring.append_u8(18);
    // (u32, bool)[]
    bitstring.append_bit(true);
    bitstring.append_bit(false);
    bitstring.append_u8(input_array1.len() as u8);
    for i in &input_array1 {
        bitstring.append_u32(i.0);
        bitstring.append_bit(i.1);
    }
    // i16
    bitstring.append_i16(-290);

    // data of the second array is used several times
    let mut array2_data = Bitstring::new();
    for &i in &input_array2 {
        array2_data.append_i64(i);
    }

    // int64[] - in a separate chain
    bitstring.append_bit(false);
    bitstring.append_bit(false);
    // int64[][5] - inline
    bitstring.append_bit(true);
    bitstring.append_bit(false);

    let mut chain_builder = CellBuilder::new();
    let mut cell_data = Bitstring::new();
    for _i in 0..5 {
        let array_builder = put_data_into_chain(CellBuilder::new(), &array2_data);

        if chain_builder.references_capacity() == chain_builder.references_used() {
            chain_builder.append_data(&cell_data).unwrap();
            cell_data = Bitstring::new();

            let mut temp_builder = CellBuilder::new();
            temp_builder
                .append_reference(chain_builder.into_cell())
                .unwrap();
            chain_builder = temp_builder;
        }

        cell_data.append_bit(false);
        cell_data.append_bit(false);

        chain_builder
            .prepend_reference(array_builder.into_cell())
            .unwrap();
    }

    bitstring.append(&cell_data);
    chain_builder.append_data(&bitstring).unwrap();

    let array_builder = put_data_into_chain(CellBuilder::new(), &array2_data);
    chain_builder
        .prepend_reference(array_builder.into_cell())
        .unwrap();

    let expected_tree = chain_builder.into_cell();

    let tuple_elem = AbiType::Tuple(vec![AbiType::Uint(32), AbiType::Bool]);
    let arr1_values: Vec<AbiValue> = input_array1
        .iter()
        .map(|&(x, b)| AbiValue::Tuple(vec![AbiValue::Uint(32, x as u128), AbiValue::Bool(b)]))
        .collect();
    let arr2_values: Vec<AbiValue> = input_array2
        .iter()
        .map(|&x| AbiValue::Int(64, x as i128))
        .collect();
    let arr3_values: Vec<AbiValue> = (0..5)
        .map(|_| {
            AbiValue::DynArray(
                AbiType::Int(64),
                arr2_values.iter().map(clone_value).collect(),
            )
        })
        .collect();

    let input = vec![
        AbiValue::Uint(8, 18),
        AbiValue::Tuple(vec![
            AbiValue::DynArray(tuple_elem.type_copy(), arr1_values),
            AbiValue::Int(16, -290),
        ]),
        AbiValue::Tuple(vec![
            AbiValue::DynArray(AbiType::Int(64), arr2_values),
            AbiValue::FixedArray(AbiType::DynArray(Box::new(AbiType::Int(64))), arr3_values),
        ]),
    ];
    let ins = vec![
        AbiType::Uint(8),
        AbiType::Tuple(vec![
            AbiType::DynArray(Box::new(tuple_elem)),
            AbiType::Int(16),
        ]),
        AbiType::Tuple(vec![
            AbiType::DynArray(Box::new(AbiType::Int(64))),
            AbiType::FixedArray(Box::new(AbiType::DynArray(Box::new(AbiType::Int(64)))), 5),
        ]),
    ];

    test_parameters_set(
        "test_tuples_with_combined_types",
        input,
        ins,
        vec![],
        &expected_tree,
    );
}

#[test]
fn test_arrays_of_dint_and_duint() {
    let input_array_int: Vec<AbiValue> = vec![
        dint_from_i128(0),
        dint_from_i128(1),
        dint_from_i128(-1),
        dint_from_i128(0x1234567890i64 as i128),
        dint_from_i128(-0x1234567890i64 as i128),
    ];

    let byte_array_int: Vec<u8> = vec![
        0x00, 0x01, 0x7F, 0x90, 0xF1, 0xD9, 0xA2, 0xA3, 0x02, 0xF0, 0x8E, 0xA6, 0xDD, 0xDC, 0x7D,
    ];

    let input_array_uint: Vec<AbiValue> = vec![
        duint_from_u128(0),
        duint_from_u128(1),
        duint_from_u128(0x1234567890u64 as u128),
    ];

    let byte_array_uint: Vec<u8> = vec![0x00, 0x01, 0x90, 0xF1, 0xD9, 0xA2, 0xA3, 0x02];

    let mut bitstring = Bitstring::new();
    bitstring.append_u8(ABI_VERSION);
    bitstring.append_u32(get_function_id(
        &b"test_arrays_of_dint_and_duint(dint[],duint[])()".to_vec(),
    ));
    bitstring.append_bit(true);
    bitstring.append_bit(false);
    bitstring.append_u8(input_array_int.len() as u8);
    for i in &byte_array_int {
        bitstring.append_u8(*i);
    }
    bitstring.append_bit(true);
    bitstring.append_bit(false);
    bitstring.append_u8(input_array_uint.len() as u8);
    for i in &byte_array_uint {
        bitstring.append_u8(*i);
    }
    let expected_tree = tree_from_bitstring(&bitstring);

    test_parameters_set(
        "test_arrays_of_dint_and_duint",
        vec![
            AbiValue::DynArray(AbiType::Dint, input_array_int),
            AbiValue::DynArray(AbiType::Duint, input_array_uint),
        ],
        vec![
            AbiType::DynArray(Box::new(AbiType::Dint)),
            AbiType::DynArray(Box::new(AbiType::Duint)),
        ],
        vec![],
        &expected_tree,
    );
}

#[test]
fn test_small_bitstring() {
    let byte_array: Vec<u8> = vec![0x01, 0x23, 0x45, 0x67, 0x89, 0xAB, 0xCD, 0xEF];

    let input_bitstring = Bitstring::create(&byte_array, byte_array.len() * 8);

    let mut bitstring = Bitstring::new();
    bitstring.append_u8(ABI_VERSION);
    bitstring.append_u32(get_function_id(&b"test_small_bitstring(bitstring)()".to_vec()));
    bitstring.append_bit(true);
    bitstring.append_bit(false);
    bitstring.append_u8(input_bitstring.length_in_bits() as u8);
    bitstring.append(&input_bitstring);
    let expected_tree = tree_from_bitstring(&bitstring);

    test_parameters_set(
        "test_small_bitstring",
        vec![AbiValue::Bitstring(input_bitstring)],
        vec![AbiType::Bitstring],
        vec![],
        &expected_tree,
    );
}

#[test]
fn test_big_bitstring() {
    let mut byte_array: Vec<u8> = Vec::new();
    for i in 0..33 {
        byte_array.push(i as u8);
    }

    let input_bitstring = Bitstring::create(&byte_array, byte_array.len() * 8);

    let mut bitstring = Bitstring::new();
    bitstring.append_u8(ABI_VERSION);
    bitstring.append_u32(get_function_id(&b"test_big_bitstring(bitstring)()".to_vec()));
    bitstring.append_bit(false);
    bitstring.append_bit(false);

    let array_builder = put_data_into_chain(CellBuilder::new(), &input_bitstring);

    let mut builder = CellBuilder::new();
    builder.append_data(&bitstring).unwrap();
    builder.append_reference(array_builder.into_cell()).unwrap();
    let expected_tree = builder.into_cell();

    test_parameters_set(
        "test_big_bitstring",
        vec![AbiValue::Bitstring(input_bitstring)],
        vec![AbiType::Bitstring],
        vec![],
        &expected_tree,
    );
}

#[test]
fn test_small_bits() {
    let mut bits = Bitstring::new();
    for i in 0..982 {
        bits.append_bit(i % 2 != 0);
    }

    let input = vec![AbiValue::Bits(bits.bits(0, 982))];
    let ins = vec![AbiType::Bits(982)];
    let message = encode_function_call("test_small_bits", &input, &ins, &vec![]);
    let test_tree = deserialize(message);

    let mut data = Bitstring::new();
    data.append_u8(ABI_VERSION);
    data.append_u32(get_function_id(&b"test_small_bits(bits982)()".to_vec()));
    data.append_bit(true);
    data.append_bit(false);
    data.append(&bits);

    let root_builder = put_data_into_chain(CellBuilder::new(), &data);
    let expected_tree = root_builder.into_cell();

    assert!(test_tree.equals(&expected_tree));

    let mut root_builder = CellBuilder::new();
    root_builder.append_bit(true).unwrap();
    root_builder.append_bit(false).unwrap();
    root_builder.append_data(&bits).unwrap();
    let expected_tree = root_builder.into_cell();

    let payload = serialize_cells(&expected_tree);
    let decoded = decode_response(&payload, &ins).unwrap();
    assert_eq!(decoded.len(), 1);
    match &decoded[0] {
        AbiValue::Bits(decoded_bits) => {
            assert_eq!(decoded_bits.length_in_bits(), 982);
            assert!(bitstring_eq(decoded_bits, &bits));
        }
        _ => panic!("expected a bits value"),
    }
}

#[test]
fn test_big_bits() {
    let mut bits = Bitstring::new();
    for i in 0..1024 {
        bits.append_bit(i % 2 != 0);
    }

    let input = vec![AbiValue::Bits(bits.bits(0, 1024))];
    let ins = vec![AbiType::Bits(1024)];
    let message = encode_function_call("test_big_bits", &input, &ins, &vec![]);
    let test_tree = deserialize(message);

    let mut data = Bitstring::new();
    data.append_u8(ABI_VERSION);
    data.append_u32(get_function_id(&b"test_big_bits(bits1024)()".to_vec()));
    data.append_bit(false);
    data.append_bit(false);

    let array_builder = put_data_into_chain(CellBuilder::new(), &bits);
    let array_cell = array_builder.into_cell();

    let mut root_builder = CellBuilder::new();
    root_builder.append_data(&data).unwrap();
    root_builder.append_reference(array_cell.deep_copy()).unwrap();
    let expected_tree = root_builder.into_cell();

    assert!(test_tree.equals(&expected_tree));

    let mut root_builder = CellBuilder::new();
    root_builder.append_bit(false).unwrap();
    root_builder.append_bit(false).unwrap();
    root_builder.append_reference(array_cell).unwrap();
    let expected_tree = root_builder.into_cell();

    let payload = serialize_cells(&expected_tree);
    let decoded = decode_response(&payload, &ins).unwrap();
    assert_eq!(decoded.len(), 1);
    match &decoded[0] {
        AbiValue::Bits(decoded_bits) => {
            assert_eq!(decoded_bits.length_in_bits(), 1024);
            assert!(bitstring_eq(decoded_bits, &bits));
        }
        _ => panic!("expected a bits value"),
    }
}

#[test]
fn boolean() {
    validate(AbiValue::Bool(true), AbiType::Bool);
    validate(AbiValue::Bool(false), AbiType::Bool);
}

#[test]
fn tuples_with_booleans() {
    validate(
        AbiValue::Tuple(vec![AbiValue::Bool(true), AbiValue::Bool(false)]),
        AbiType::Tuple(vec![AbiType::Bool, AbiType::Bool]),
    );
    validate(
        AbiValue::Tuple(vec![
            AbiValue::Bool(false),
            AbiValue::Tuple(vec![AbiValue::Bool(true), AbiValue::Bool(true)]),
        ]),
        AbiType::Tuple(vec![
            AbiType::Bool,
            AbiType::Tuple(vec![AbiType::Bool, AbiType::Bool]),
        ]),
    );
}

#[test]
fn tuples_with_ints() {
    validate(
        AbiValue::Tuple(vec![AbiValue::Int(128, -1), AbiValue::Uint(32, 687)]),
        AbiType::Tuple(vec![AbiType::Int(128), AbiType::Uint(32)]),
    );
    validate(
        AbiValue::Tuple(vec![
            AbiValue::Uint(16, 8),
            AbiValue::Tuple(vec![AbiValue::Int(8, 97), AbiValue::Uint(64, 328)]),
        ]),
        AbiType::Tuple(vec![
            AbiType::Uint(16),
            AbiType::Tuple(vec![AbiType::Int(8), AbiType::Uint(64)]),
        ]),
    );
}

// The continuation-bit bytes of the positive number written in hex.
fn dint_bytes_from_hex(hex: &str) -> Vec<u8> {
    let mut bits: Vec<bool> = Vec::new();
    for c in hex.bytes() {
        let d = match c {
            b'0'..=b'9' => c - b'0',
            b'a'..=b'f' => c - b'a' + 10,
            b'A'..=b'F' => c - b'A' + 10,
            _ => panic!("not a hex digit"),
        };
        for k in (0..4).rev() {
            bits.push((d >> k) & 1 == 1);
        }
    }
    // seven-bit groups from the least significant end
    let mut groups: Vec<u8> = Vec::new();
    let mut i = bits.len();
    while i > 0 {
        let take = if i >= 7 { 7 } else { i };
        let mut v: u8 = 0;
        for b in &bits[i - take..i] {
            v = v * 2 + (*b as u8);
        }
        groups.push(v);
        i -= take;
    }
    // a positive value must not end in a group with its sign bit set
    if groups.last().map_or(true, |g| g & 0x40 != 0) {
        groups.push(0);
    }
    let n = groups.len();
    groups
        .iter()
        .enumerate()
        .map(|(k, &g)| if k + 1 < n { g | 0x80 } else { g })
        .collect()
}

#[test]
fn dynamic_int() {
    let bytes = dint_bytes_from_hex(
        "b884d718567fd5fb9b0b54f2de27b5dad7c769f0024091230b7ca90c63af27035039d22b47dfc90e7e6661f435eb9e503c73ef62b803df9070af4e13366b55a795b9d862902703a9da29b71d391f93223b39fcd938a5860bfae17b7a56ccdb4ea0cd55da7c6b44d54dcc34b716455b073bf731c5547728b6a9abf7fd7d468ee7bd668f109a05625342dc67f0d295f90b6e7732b19eda0b920ea5ef51cbca25d8c8596706d93938dd4861652a53a68bca2e5082700df032272e46c471c22522d7257a8fa620f9a9e15ab72c5df0d8cd8db731064ebeadce25f04bb6ed42fb4d1b5c8e40c684eaa03ba1a2a0733e7fb9247edd20e16deab2ee095078dad3d50444",
    );
    validate(AbiValue::Dint(bytes), AbiType::Dint);
}

#[test]
fn dynamic_array() {
    validate(
        AbiValue::DynArray(
            AbiType::Uint(8),
            vec![0u8, 1, 2, 3, 4]
                .into_iter()
                .map(|x| AbiValue::Uint(8, x as u128))
                .collect(),
        ),
        AbiType::DynArray(Box::new(AbiType::Uint(8))),
    );

    let mut vec_vals: Vec<AbiValue> = Vec::new();
    for i in 0..100u64 {
        vec_vals.push(AbiValue::Uint(64, i as u128));
    }
    validate(
        AbiValue::DynArray(AbiType::Uint(64), vec_vals),
        AbiType::DynArray(Box::new(AbiType::Uint(64))),
    );
}

#[test]
fn test_signed_one_input_and_output() {
    let secret: Vec<u8> = (0..32).map(|_| rand::random::<u8>()).collect();

    let func_name = "test_one_input_and_output";
    let input = vec![AbiValue::Uint(128, 1979)];
    let ins = vec![AbiType::Uint(128)];
    let outs = vec![AbiType::Bool];

    let message =
        encode_signed_function_call(func_name, &input, &ins, &outs, &secret).unwrap();
    let test_tree = deserialize(message.clone());

    // the first reference is the signature cell of exactly 768 raw bits
    assert!(test_tree.ref_count() >= 1);
    let sig_cell = test_tree.reference(0);
    assert_eq!(sig_cell.data_bits().length_in_bits(), 768);
    assert_eq!(sig_cell.ref_count(), 0);

    // the body still opens with the version and the function id
    let mut slice = SliceData::from_cell(test_tree.deep_copy());
    let version = slice.get_next_byte().unwrap();
    let function_id = slice.get_next_u32().unwrap();
    assert_eq!(version, ABI_VERSION);
    let expected_id = get_function_id(&format!("{}(uint128)(bool)", func_name).into_bytes());
    assert_eq!(function_id, expected_id);

    // the signature verifies against the embedded public key
    assert_eq!(verify_signed_call(&message).unwrap(), true);

    // flipping any body bit makes verification fail
    let mut tampered = message.clone();
    tampered[4] ^= 0x01;
    match verify_signed_call(&tampered) {
        Ok(ok) => assert!(!ok),
        Err(_) => {}
    }
}
