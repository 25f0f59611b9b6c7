use clarity_wasm::ptr::Ptr;
use clarity_wasm::serialization::{
    deserialize_clarity_seq_to_ptrs, deserialize_clarity_value, serialize_clarity_value, SerializationError,
};
use clarity_wasm::value::{ContractIdentifier, StandardPrincipal, TraitIdentifier, Value};

fn roundtrip(value: &Value) -> Value {
    let serialized = serialize_clarity_value(value).expect("Failed to serialize value");
    assert!(
        serialized.len() > 0,
        "Expected serialized bytes to be longer than 0"
    );
    deserialize_clarity_value(&serialized).expect("Failed to deserialize value")
}

#[test]
fn test_serialize_uint() {
    let value = Value::UInt(u128::MAX);
    let deserialized = roundtrip(&value);
    assert_eq!(Value::UInt(u128::MAX), deserialized);
}

#[test]
fn test_serialize_int() {
    let value = Value::Int(i128::MAX);
    let deserialized = roundtrip(&value);
    assert_eq!(Value::Int(i128::MAX), deserialized);
}

#[test]
fn test_serialize_bool() {
    let value = Value::Bool(true);
    let deserialized = roundtrip(&value);
    assert_eq!(Value::Bool(true), deserialized);
}

#[test]
fn test_serialize_optional_none() {
    let value = Value::Optional(None);
    let deserialized = roundtrip(&value);
    assert_eq!(Value::Optional(None), deserialized);
}

#[test]
fn test_serialize_optional_some() {
    let value = Value::Optional(Some(Box::new(Value::Int(5))));
    let deserialized = roundtrip(&value);
    match deserialized {
        Value::Optional(Some(inner)) => assert_eq!(Value::Int(5), *inner),
        other => panic!("expected an optional with a value, got {:?}", other),
    }
}

#[test]
fn test_serialize_response_ok() {
    let value = Value::Response(true, Box::new(Value::Int(5)));
    let deserialized = roundtrip(&value);
    match deserialized {
        Value::Response(true, data) => assert_eq!(Value::Int(5), *data),
        other => panic!("expected an ok response, got {:?}", other),
    }
}

#[test]
fn test_serialize_response_err() {
    let value = Value::Response(false, Box::new(Value::Int(5)));
    let deserialized = roundtrip(&value);
    match deserialized {
        Value::Response(false, data) => assert_eq!(Value::Int(5), *data),
        other => panic!("expected an err response, got {:?}", other),
    }
}

#[test]
fn test_serialize_buffer() {
    let data: Vec<u8> = vec![1, 2, 3, 4, 5, 6, 7, 8, 9, 10, 11, 12, 13, 14, 15, 16];
    let value = Value::Buffer(data.clone());
    let deserialized = roundtrip(&value);
    match deserialized {
        Value::Buffer(val) => assert_eq!(&data, &val),
        other => panic!("expected a buffer, got {:?}", other),
    }
}

#[test]
fn test_serialize_ascii_string() {
    let data = "hello world!";
    let value = Value::AsciiString(data.as_bytes().to_vec());
    let deserialized = roundtrip(&value);
    match deserialized {
        Value::AsciiString(val) => assert_eq!(data.as_bytes(), &val[..]),
        other => panic!("expected an ascii string, got {:?}", other),
    }
}

#[test]
fn test_serialize_utf8_string() {
    let data = "hello world!";
    let value = Value::Utf8String(data.as_bytes().to_vec());
    let deserialized = roundtrip(&value);
    assert_eq!(value, deserialized);
}

#[test]
fn test_serialize_list_of_ints() {
    let value = Value::List(vec![
        Value::Int(1),
        Value::Int(2),
        Value::Int(3),
        Value::Int(4),
        Value::Int(5),
    ]);
    let deserialized = roundtrip(&value);
    assert_eq!(value, deserialized);
}

#[test]
fn invalid_strings_are_refused() {
    assert_eq!(
        Err(SerializationError::FailedToConvertBytesToAscii),
        deserialize_clarity_value(&[6, 1, 0, 0x80])
    );
    assert_eq!(
        Err(SerializationError::FailedToConvertBytesToUtf8),
        deserialize_clarity_value(&[7, 1, 0, 0xFF])
    );
    assert_eq!(
        Ok(Value::Utf8String("é".as_bytes().to_vec())),
        deserialize_clarity_value(&[7, 2, 0, 0xC3, 0xA9])
    );
}

#[test]
fn lists_of_mixed_types_are_refused() {
    let mixed = Value::List(vec![Value::Int(1), Value::UInt(2)]);
    let bytes = serialize_clarity_value(&mixed).unwrap();
    assert_eq!(Err(SerializationError::FailedToDeserializeList), deserialize_clarity_value(&bytes));

    let optionals = Value::List(vec![
        Value::Optional(None),
        Value::Optional(Some(Box::new(Value::Int(1)))),
    ]);
    assert_eq!(optionals, roundtrip(&optionals));
}

#[test]
fn a_boolean_reads_its_first_byte() {
    assert_eq!(Ok(Value::Bool(false)), deserialize_clarity_value(&[3, 1, 0, 7]));
    assert_eq!(Ok(Value::Bool(true)), deserialize_clarity_value(&[3, 1, 0, 1]));
}

fn principal(version: u8, fill: u8) -> StandardPrincipal {
    StandardPrincipal { version, data: [fill; 20] }
}

#[test]
fn principals_make_the_round_trip() {
    let standard = Value::StandardPrincipal(principal(22, 7));
    assert_eq!(standard, roundtrip(&standard));

    let contract = Value::ContractPrincipal(ContractIdentifier {
        issuer: principal(26, 9),
        name: "my-contract".to_string(),
    });
    assert_eq!(contract, roundtrip(&contract));

    let callable = Value::CallableContract(
        ContractIdentifier { issuer: principal(26, 1), name: "token".to_string() },
        Some(TraitIdentifier {
            contract_identifier: ContractIdentifier { issuer: principal(22, 2), name: "token".to_string() },
            name: "sip-010".to_string(),
        }),
    );
    assert_eq!(callable, roundtrip(&callable));

    let plain = Value::CallableContract(
        ContractIdentifier { issuer: principal(26, 1), name: "token".to_string() },
        None,
    );
    assert_eq!(plain, roundtrip(&plain));
}

#[test]
fn sequence_pointers_for_buffers_and_strings() {
    let ptrs = deserialize_clarity_seq_to_ptrs(&[8, 3, 0, 1, 2, 3]).unwrap();
    assert_eq!(vec![Ptr::new(0, 1), Ptr::new(1, 1), Ptr::new(2, 1)], ptrs);

    let ptrs = deserialize_clarity_seq_to_ptrs(&[6, 2, 0, 104, 105]).unwrap();
    assert_eq!(vec![Ptr::new(0, 1), Ptr::new(1, 1)], ptrs);

    let ptrs = deserialize_clarity_seq_to_ptrs(&[7, 3, 0, b'h', 0xC3, 0xA9]).unwrap();
    assert_eq!(vec![Ptr::new(0, 1), Ptr::new(1, 2)], ptrs);

    let list = Value::List(vec![Value::Int(1), Value::Int(2)]);
    let bytes = serialize_clarity_value(&list).unwrap();
    let ptrs = deserialize_clarity_seq_to_ptrs(&bytes).unwrap();
    assert_eq!(vec![Ptr::new(0, 16), Ptr::new(19, 16)], ptrs);
}

#[test]
fn a_tuple_writes_its_values_in_the_order_of_their_names() {
    let tuple = Value::Tuple(vec![
        ("a".to_string(), Value::Int(1)),
        ("b".to_string(), Value::Bool(true)),
    ]);
    let bytes = serialize_clarity_value(&tuple).unwrap();
    let mut body = serialize_clarity_value(&Value::Int(1)).unwrap();
    body.extend(serialize_clarity_value(&Value::Bool(true)).unwrap());
    assert_eq!(13, bytes[0]);
    assert_eq!(body.len() as u16, u16::from_le_bytes([bytes[1], bytes[2]]));
    assert_eq!(body, bytes[3..].to_vec());
}
