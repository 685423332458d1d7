use torentino_pure::bencode::{decode, encode, BencodeDict, BencodeValue};

#[test]
fn roundtrip_int() {
    let v = BencodeValue::Int(42);
    let enc = encode(&v);
    assert_eq!(enc, b"i42e");
    let (dec, _) = decode(&enc).unwrap();
    assert_eq!(dec, v);
}

#[test]
fn roundtrip_bytes() {
    let v = BencodeValue::Bytes(b"hello".to_vec());
    let enc = encode(&v);
    let (dec, _) = decode(&enc).unwrap();
    assert_eq!(dec, v);
}

#[test]
fn roundtrip_list() {
    let v = BencodeValue::List(vec![
        BencodeValue::Int(1),
        BencodeValue::Bytes(b"two".to_vec()),
    ]);
    let enc = encode(&v);
    let (dec, _) = decode(&enc).unwrap();
    assert_eq!(dec, v);
}

#[test]
fn roundtrip_dict() {
    let mut map = BencodeDict::new();
    map.insert(b"key".to_vec(), BencodeValue::Bytes(b"val".to_vec()));
    map.insert(b"num".to_vec(), BencodeValue::Int(99));
    let v = BencodeValue::Dict(map);
    let enc = encode(&v);
    let (dec, _) = decode(&enc).unwrap();
    assert_eq!(dec, v);
}

#[test]
fn dict_is_written_in_key_order() {
    let mut map = BencodeDict::new();
    map.insert(b"b".to_vec(), BencodeValue::Int(2));
    map.insert(b"a".to_vec(), BencodeValue::Int(1));
    map.insert(b"aa".to_vec(), BencodeValue::List(vec![]));
    assert_eq!(map.len(), 3);
    assert_eq!(
        map.insert(b"b".to_vec(), BencodeValue::Int(-3)),
        Some(BencodeValue::Int(2))
    );
    assert_eq!(encode(&BencodeValue::Dict(map)), b"d1:ai1e2:aale1:bi-3ee");
}

#[test]
fn trailing_bytes_are_left() {
    let (v, n) = decode(b"4:spamxyz").unwrap();
    assert_eq!(v, BencodeValue::Bytes(b"spam".to_vec()));
    assert_eq!(n, 6);
}

#[test]
fn numbers_at_the_limits() {
    let (v, _) = decode(b"i-9223372036854775808e").unwrap();
    assert_eq!(v, BencodeValue::Int(i64::MIN));
    assert_eq!(encode(&v), b"i-9223372036854775808e");
    let (v, _) = decode(b"i9223372036854775807e").unwrap();
    assert_eq!(v, BencodeValue::Int(i64::MAX));
    let (v, _) = decode(b"i0e").unwrap();
    assert_eq!(v, BencodeValue::Int(0));
}

fn message(input: &[u8]) -> String {
    decode(input).unwrap_err().0
}

#[test]
fn every_bencode_refusal_has_its_message() {
    assert_eq!(message(b""), "empty input");
    assert_eq!(message(b"x"), "unexpected byte: 120");
    assert_eq!(message(b"i42"), "unterminated integer");
    assert_eq!(message(b"i\xffe"), "invalid integer");
    assert_eq!(message(b"i4x2e"), "cannot parse int: 4x2");
    assert_eq!(message(b"i03e"), "cannot parse int: 03");
    assert_eq!(message(b"i-0e"), "cannot parse int: -0");
    assert_eq!(message(b"i9223372036854775808e"), "cannot parse int: 9223372036854775808");
    assert_eq!(message(b"5hello"), "missing colon in bytestring");
    assert_eq!(message(b"1\xff:a"), "invalid length");
    assert_eq!(message(b"1x:a"), "cannot parse length: 1x");
    assert_eq!(message(b"6:hello"), "bytestring truncated");
    assert_eq!(message(b"li1e"), "unterminated list");
    assert_eq!(message(b"d1:ai1e"), "unterminated dict");
    assert_eq!(message(b"di1ei2ee"), "dict key must be bytestring");
    assert_eq!(message(b"d1:bi1e1:ai2ee"), "dict keys not sorted");
    assert_eq!(message(b"d1:ai1e1:ai2ee"), "dict keys not sorted");
}

#[test]
fn bencode_errors_are_shown() {
    assert_eq!(decode(b"").unwrap_err().to_string(), "bencode error: empty input");
}

#[test]
fn accessors_tell_the_kinds_apart() {
    let (v, _) = decode(b"d1:ai7e1:b3:abc1:cli1ee1:d2:\xff\xfee").unwrap();
    assert_eq!(v.dict_get(b"a").unwrap().as_int(), Some(7));
    assert_eq!(v.dict_get_str("b").unwrap().as_str(), Some("abc"));
    assert_eq!(v.dict_get_str("b").unwrap().as_bytes(), Some(&b"abc"[..]));
    assert_eq!(v.dict_get_str("b").unwrap().as_int(), None);
    assert_eq!(v.dict_get_str("c").unwrap().as_list().unwrap().len(), 1);
    assert_eq!(v.dict_get_str("d").unwrap().as_str(), None);
    assert!(v.dict_get_str("d").unwrap().as_bytes().is_some());
    assert!(v.dict_get_str("e").is_none());
    assert!(v.as_dict().is_some());
    assert!(v.as_list().is_none());
    assert!(BencodeValue::Int(1).dict_get(b"a").is_none());
}

#[test]
fn what_is_read_is_written_again_byte_by_byte() {
    let data = b"d4:infod4:name1:n6:pieces0:e4:listl1:ai-1eee";
    let (v, n) = decode(data).unwrap();
    assert_eq!(n, data.len());
    assert_eq!(encode(&v), data);
    assert_eq!(encode(&v.clone()), data);
}
