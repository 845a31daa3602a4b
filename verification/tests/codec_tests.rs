use torrent_core::codec::decode;
use torrent_core::codec::decode_all;
use torrent_core::codec::dict_insert;
use torrent_core::codec::encode;
use torrent_core::codec::DecodeError;
use torrent_core::codec::Value;

fn bytes(s: &str) -> Vec<u8> {
    s.as_bytes().to_vec()
}

#[test]
fn decodes_byte_string() {
    let input = bytes("4:spam");
    let (v, consumed) = decode(&input, 0).unwrap();
    match v {
        Value::Bytes(b) => assert_eq!(b, bytes("spam")),
        _ => panic!("expected a byte string"),
    }
    assert_eq!(consumed, 6);
}

#[test]
fn decodes_list_of_strings() {
    let input = bytes("l4:spam4:eggse");
    let (v, consumed) = decode(&input, 0).unwrap();
    match v {
        Value::List(items) => {
            assert_eq!(items.len(), 2);
            match &items[0] {
                Value::Bytes(b) => assert_eq!(b, &bytes("spam")),
                _ => panic!("expected a byte string"),
            }
            match &items[1] {
                Value::Bytes(b) => assert_eq!(b, &bytes("eggs")),
                _ => panic!("expected a byte string"),
            }
        },
        _ => panic!("expected a list"),
    }
    // the whole 14-byte buffer is consumed
    assert_eq!(consumed, input.len());
}

#[test]
fn decodes_dictionary() {
    let input = bytes("d3:cow3:moo4:spam4:eggse");
    let v = decode_all(&input).unwrap();
    match v {
        Value::Dict(pairs) => {
            assert_eq!(pairs.len(), 2);
            assert_eq!(pairs[0].0, bytes("cow"));
            match &pairs[0].1 {
                Value::Bytes(b) => assert_eq!(b, &bytes("moo")),
                _ => panic!("expected a byte string"),
            }
            assert_eq!(pairs[1].0, bytes("spam"));
            match &pairs[1].1 {
                Value::Bytes(b) => assert_eq!(b, &bytes("eggs")),
                _ => panic!("expected a byte string"),
            }
        },
        _ => panic!("expected a dictionary"),
    }
}

#[test]
fn integer_edge_cases() {
    let (v, _) = decode(&bytes("i0e"), 0).unwrap();
    match v {
        Value::Int(i) => assert_eq!(i, 0),
        _ => panic!("expected an integer"),
    }
    assert!(decode(&bytes("i-0e"), 0).is_err());
    let (v, _) = decode(&bytes("i42e"), 0).unwrap();
    match v {
        Value::Int(i) => assert_eq!(i, 42),
        _ => panic!("expected an integer"),
    }
    assert!(decode(&bytes("i042e"), 0).is_err());
}

#[test]
fn integer_extremes() {
    let (v, _) = decode(&bytes("i9223372036854775807e"), 0).unwrap();
    match v {
        Value::Int(i) => assert_eq!(i, i64::MAX),
        _ => panic!("expected an integer"),
    }
    let (v, _) = decode(&bytes("i-9223372036854775808e"), 0).unwrap();
    match v {
        Value::Int(i) => assert_eq!(i, i64::MIN),
        _ => panic!("expected an integer"),
    }
    assert_eq!(decode(&bytes("i9223372036854775808e"), 0).unwrap_err(), DecodeError::BadInteger);
    assert_eq!(decode(&bytes("i-9223372036854775809e"), 0).unwrap_err(), DecodeError::BadInteger);
}

#[test]
fn negative_integer_round_trip() {
    let (v, consumed) = decode(&bytes("i-42e"), 0).unwrap();
    match &v {
        Value::Int(i) => assert_eq!(*i, -42),
        _ => panic!("expected an integer"),
    }
    assert_eq!(consumed, 5);
    assert_eq!(encode(&v), bytes("i-42e"));
}

#[test]
fn length_overrun_is_an_error_not_truncation() {
    assert_eq!(decode(&bytes("5:spam"), 0).unwrap_err(), DecodeError::LengthOverrun);
    assert_eq!(decode(&bytes("10:abc"), 0).unwrap_err(), DecodeError::LengthOverrun);
    assert_eq!(
        decode(&bytes("184467440737095516151:a"), 0).unwrap_err(),
        DecodeError::LengthOverrun
    );
}

#[test]
fn error_variants_cover_malformed_inputs() {
    assert_eq!(decode(&bytes(""), 0).unwrap_err(), DecodeError::UnexpectedEnd);
    assert_eq!(decode(&bytes("x"), 0).unwrap_err(), DecodeError::UnexpectedByte);
    assert_eq!(decode(&bytes("i12"), 0).unwrap_err(), DecodeError::BadInteger);
    assert_eq!(decode(&bytes("ie"), 0).unwrap_err(), DecodeError::BadInteger);
    assert_eq!(decode(&bytes("i-e"), 0).unwrap_err(), DecodeError::BadInteger);
    assert_eq!(decode(&bytes("01:a"), 0).unwrap_err(), DecodeError::BadLength);
    assert_eq!(decode(&bytes("4spam"), 0).unwrap_err(), DecodeError::BadLength);
    assert_eq!(decode(&bytes("l4:spam"), 0).unwrap_err(), DecodeError::UnexpectedEnd);
    assert_eq!(decode(&bytes("di1ei2ee"), 0).unwrap_err(), DecodeError::NonByteStringKey);
    assert_eq!(
        decode(&bytes("d4:spam4:eggs3:cow3:mooe"), 0).unwrap_err(),
        DecodeError::UnsortedKeys
    );
    assert_eq!(
        decode(&bytes("d3:cow3:moo3:cow4:eggse"), 0).unwrap_err(),
        DecodeError::UnsortedKeys
    );
    assert_eq!(decode_all(&bytes("i1ei2e")).unwrap_err(), DecodeError::TrailingBytes);
}

#[test]
fn round_trip_canonical_buffers() {
    let cases = [
        "i0e",
        "i-7e",
        "0:",
        "4:spam",
        "le",
        "de",
        "l4:spami42ee",
        "d3:cow3:moo4:spam4:eggse",
        "d1:ad2:xyi-1ee1:bli0ei1eee",
    ];
    for case in cases {
        let input = bytes(case);
        let v = decode_all(&input).unwrap();
        assert_eq!(encode(&v), input, "round trip failed for {case}");
    }
}

#[test]
fn encode_decode_encode_is_stable() {
    let mut pairs: Vec<(Vec<u8>, Value)> = Vec::new();
    dict_insert(&mut pairs, bytes("zebra"), Value::Int(1));
    dict_insert(&mut pairs, bytes("apple"), Value::Bytes(bytes("red")));
    dict_insert(&mut pairs, bytes("mango"), Value::List(vec![Value::Int(-3)]));
    let v = Value::Dict(pairs);
    let first = encode(&v);
    let w = decode_all(&first).unwrap();
    let second = encode(&w);
    assert_eq!(second, first);
}

#[test]
fn dict_insert_orders_keys_canonically() {
    let mut forward: Vec<(Vec<u8>, Value)> = Vec::new();
    dict_insert(&mut forward, bytes("a"), Value::Int(1));
    dict_insert(&mut forward, bytes("b"), Value::Int(2));
    dict_insert(&mut forward, bytes("c"), Value::Int(3));
    let mut backward: Vec<(Vec<u8>, Value)> = Vec::new();
    dict_insert(&mut backward, bytes("c"), Value::Int(3));
    dict_insert(&mut backward, bytes("a"), Value::Int(1));
    dict_insert(&mut backward, bytes("b"), Value::Int(2));
    let ef = encode(&Value::Dict(forward));
    let eb = encode(&Value::Dict(backward));
    assert_eq!(ef, eb);
    assert_eq!(ef, bytes("d1:ai1e1:bi2e1:ci3ee"));
}

#[test]
fn dict_insert_replaces_equal_key() {
    let mut pairs: Vec<(Vec<u8>, Value)> = Vec::new();
    dict_insert(&mut pairs, bytes("k"), Value::Int(1));
    dict_insert(&mut pairs, bytes("k"), Value::Int(2));
    assert_eq!(encode(&Value::Dict(pairs)), bytes("d1:ki2ee"));
}

#[test]
fn decode_from_offset() {
    let input = bytes("XXi5e");
    let (v, consumed) = decode(&input, 2).unwrap();
    match v {
        Value::Int(i) => assert_eq!(i, 5),
        _ => panic!("expected an integer"),
    }
    assert_eq!(consumed, 5);
}

#[test]
fn binary_byte_strings_survive() {
    let mut input = bytes("3:");
    input.extend_from_slice(&[0u8, 254u8, 128u8]);
    let v = decode_all(&input).unwrap();
    match &v {
        Value::Bytes(b) => assert_eq!(b, &vec![0u8, 254u8, 128u8]),
        _ => panic!("expected a byte string"),
    }
    assert_eq!(encode(&v), input);
}
