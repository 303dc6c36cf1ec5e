use bittorrent_core::bencode::{decode, encode, BencodeError, Value};

fn bytes(s: &str) -> Vec<u8> {
    s.as_bytes().to_vec()
}

#[test]
fn decode_integer_52() {
    let (v, n) = decode(b"i52e").unwrap();
    assert_eq!(v, Value::Integer(52));
    assert_eq!(n, 4);
}

#[test]
fn decode_string_hello() {
    let (v, n) = decode(b"5:hello").unwrap();
    assert_eq!(v, Value::ByteString(bytes("hello")));
    assert_eq!(n, 7);
}

#[test]
fn decode_list_of_two() {
    let (v, n) = decode(b"l5:helloi52ee").unwrap();
    assert_eq!(v, Value::List(vec![Value::ByteString(bytes("hello")), Value::Integer(52)]));
    assert_eq!(n, 13);
}

#[test]
fn decode_dict_keeps_key_order() {
    let input = b"d3:foo3:bar5:helloi52ee";
    let (v, n) = decode(input).unwrap();
    assert_eq!(n, input.len());
    match v {
        Value::Dictionary(entries) => {
            assert_eq!(entries.len(), 2);
            assert_eq!(entries[0].0, bytes("foo"));
            assert_eq!(entries[0].1, Value::ByteString(bytes("bar")));
            assert_eq!(entries[1].0, bytes("hello"));
            assert_eq!(entries[1].1, Value::Integer(52));
        }
        other => panic!("expected a dictionary, got {:?}", other),
    }
}

#[test]
fn decode_leaves_trailing_bytes() {
    let (v, n) = decode(b"i-7eXYZ").unwrap();
    assert_eq!(v, Value::Integer(-7));
    assert_eq!(n, 4);
}

#[test]
fn decode_integer_extremes() {
    assert_eq!(decode(b"i9223372036854775807e").unwrap().0, Value::Integer(i64::MAX));
    assert_eq!(decode(b"i-9223372036854775808e").unwrap().0, Value::Integer(i64::MIN));
    assert_eq!(decode(b"i0e").unwrap().0, Value::Integer(0));
}

#[test]
fn decode_integer_errors() {
    assert_eq!(decode(b"ie"), Err(BencodeError::MalformedInteger));
    assert_eq!(decode(b"i-0e"), Err(BencodeError::MalformedInteger));
    assert_eq!(decode(b"i03e"), Err(BencodeError::MalformedInteger));
    assert_eq!(decode(b"i-e"), Err(BencodeError::MalformedInteger));
    assert_eq!(decode(b"i12xe"), Err(BencodeError::MalformedInteger));
    assert_eq!(decode(b"i9223372036854775808e"), Err(BencodeError::MalformedInteger));
    assert_eq!(decode(b"i-9223372036854775809e"), Err(BencodeError::MalformedInteger));
    assert_eq!(decode(b"i12"), Err(BencodeError::UnexpectedEnd));
}

#[test]
fn decode_structure_errors() {
    assert_eq!(decode(b""), Err(BencodeError::UnexpectedEnd));
    assert_eq!(decode(b"l5:hello"), Err(BencodeError::UnexpectedEnd));
    assert_eq!(decode(b"5:hi"), Err(BencodeError::LengthOverrun));
    assert_eq!(decode(b"99999999999999999999999:x"), Err(BencodeError::LengthOverrun));
    assert_eq!(decode(b"di1e3:fooe"), Err(BencodeError::NonStringKey));
    assert_eq!(decode(b"5hello"), Err(BencodeError::MissingColon));
    assert_eq!(decode(b"12"), Err(BencodeError::MissingColon));
    assert_eq!(decode(b"x"), Err(BencodeError::UnexpectedByte));
    assert_eq!(decode(b"e"), Err(BencodeError::UnexpectedByte));
}

#[test]
fn decode_length_with_leading_zero() {
    let (v, n) = decode(b"05:hello").unwrap();
    assert_eq!(v, Value::ByteString(bytes("hello")));
    assert_eq!(n, 8);
    assert_eq!(encode(&v), bytes("5:hello"));
}

#[test]
fn encode_exact_bytes() {
    let v = Value::Dictionary(vec![
        (bytes("zeta"), Value::Integer(-12)),
        (bytes("alpha"), Value::List(vec![Value::ByteString(bytes("")), Value::Integer(0)])),
    ]);
    assert_eq!(encode(&v), bytes("d4:zetai-12e5:alphal0:i0eee"));
    assert_eq!(encode(&Value::Integer(i64::MIN)), bytes("i-9223372036854775808e"));
}

#[test]
fn round_trip_value() {
    let v = Value::List(vec![
        Value::Integer(123456789),
        Value::Dictionary(vec![(bytes("k"), Value::List(vec![]))]),
        Value::ByteString(vec![0, 255, 101, 58]),
    ]);
    let b = encode(&v);
    let (back, n) = decode(&b).unwrap();
    assert_eq!(back, v);
    assert_eq!(n, b.len());
}

#[test]
fn round_trip_canonical_bytes() {
    let input = b"d4:infod6:lengthi42e4:name3:abce3:zzzl1:ai-1eee";
    let (v, n) = decode(input).unwrap();
    assert_eq!(n, input.len());
    assert_eq!(encode(&v), input.to_vec());
}

#[test]
fn binary_safe_byte_string() {
    let all: Vec<u8> = (0..=255u8).collect();
    let v = Value::ByteString(all.clone());
    let b = encode(&v);
    assert_eq!(&b[..4], b"256:");
    let (back, n) = decode(&b).unwrap();
    assert_eq!(back, Value::ByteString(all));
    assert_eq!(n, b.len());
    assert_eq!(encode(&back), b);
}

#[test]
fn unsorted_dictionary_order_kept() {
    let input = b"d1:b1:x1:a1:y1:ci0ee";
    let (v, _) = decode(input).unwrap();
    match &v {
        Value::Dictionary(entries) => {
            let keys: Vec<Vec<u8>> = entries.iter().map(|e| e.0.clone()).collect();
            assert_eq!(keys, vec![bytes("b"), bytes("a"), bytes("c")]);
        }
        other => panic!("expected a dictionary, got {:?}", other),
    }
    assert_eq!(encode(&v), input.to_vec());
}
