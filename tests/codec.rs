use bencode::{
    decode_bencode_element, decode_with_limit, encode_bencode_value, BencodeDict, BencodeElement,
    BencodeError, BencodeKind, StringorByteArray,
};

fn decode(s: &[u8]) -> Result<BencodeElement, BencodeError> {
    decode_bencode_element(s.to_vec())
}

fn encode(v: &BencodeElement) -> Vec<u8> {
    encode_bencode_value(v).unwrap()
}

fn roundtrip(s: &[u8]) {
    let v = decode(s).unwrap();
    assert_eq!(encode(&v), s.to_vec());
}

#[test]
fn string_length_past_end_is_unterminated() {
    assert_eq!(decode(b"10:hi").unwrap_err(), BencodeError::UnterminatedString(0));
}

#[test]
fn unsorted_keys_are_sorted_on_encode() {
    let v = decode(b"d2:bbi1e2:aai2ee").unwrap();
    assert_eq!(encode(&v), b"d2:aai2e2:bbi1ee".to_vec());
    let w = decode(b"d3:bbbi1e3:aaai2ee").unwrap();
    assert_eq!(encode(&w), b"d3:aaai2e3:bbbi1ee".to_vec());
}

#[test]
fn key_length_prefix_is_taken_literally() {
    // `3:bbi` is a three-byte key; what follows it, `1e3:`, is no valid length.
    assert_eq!(
        decode(b"d3:bbi1e3:aai2ee").unwrap_err(),
        BencodeError::MalformedStringLength(6)
    );
}

#[test]
fn duplicate_key_last_value_wins() {
    let v = decode(b"d1:ai1e1:ai2ee").unwrap();
    assert_eq!(encode(&v), b"d1:ai2ee".to_vec());
    let d = v.try_into_dict().unwrap();
    assert_eq!(d.len(), 1);
}

#[test]
fn integer_zero_and_negative() {
    assert_eq!(decode(b"i0e").unwrap().try_into_integer().unwrap(), 0);
    assert_eq!(decode(b"i-5e").unwrap().try_into_integer().unwrap(), -5);
}

#[test]
fn negative_zero_and_leading_zero_rejected() {
    assert_eq!(decode(b"i-0e").unwrap_err(), BencodeError::MalformedInteger(0));
    assert_eq!(decode(b"i05e").unwrap_err(), BencodeError::MalformedInteger(0));
    assert_eq!(decode(b"i-05e").unwrap_err(), BencodeError::MalformedInteger(0));
    assert_eq!(decode(b"ie").unwrap_err(), BencodeError::MalformedInteger(0));
    assert_eq!(decode(b"i-e").unwrap_err(), BencodeError::MalformedInteger(0));
    assert_eq!(decode(b"i1x2e").unwrap_err(), BencodeError::MalformedInteger(0));
}

#[test]
fn integer_limits() {
    assert_eq!(
        decode(b"i9223372036854775807e").unwrap().try_into_integer().unwrap(),
        i64::MAX
    );
    assert_eq!(
        decode(b"i-9223372036854775808e").unwrap().try_into_integer().unwrap(),
        i64::MIN
    );
    assert_eq!(
        decode(b"i9223372036854775808e").unwrap_err(),
        BencodeError::MalformedInteger(0)
    );
    assert_eq!(
        decode(b"i-9223372036854775809e").unwrap_err(),
        BencodeError::MalformedInteger(0)
    );
    assert_eq!(
        decode(b"i99999999999999999999999e").unwrap_err(),
        BencodeError::MalformedInteger(0)
    );
}

#[test]
fn integer_without_terminator() {
    assert_eq!(decode(b"i12").unwrap_err(), BencodeError::UnterminatedInteger(0));
}

#[test]
fn nested_list_decodes_and_reencodes() {
    let s = b"li1ei2eli3ei4eee";
    let v = decode(s).unwrap();
    let items = decode(s).unwrap().try_into_list().unwrap();
    assert_eq!(items.len(), 3);
    let mut it = items.into_iter();
    assert_eq!(it.next().unwrap().try_into_integer().unwrap(), 1);
    assert_eq!(it.next().unwrap().try_into_integer().unwrap(), 2);
    let inner = it.next().unwrap().try_into_list().unwrap();
    assert_eq!(inner.len(), 2);
    let mut jt = inner.into_iter();
    assert_eq!(jt.next().unwrap().try_into_integer().unwrap(), 3);
    assert_eq!(jt.next().unwrap().try_into_integer().unwrap(), 4);
    assert_eq!(encode(&v), s.to_vec());
}

#[test]
fn binary_string_is_kept_exactly() {
    let s: Vec<u8> = vec![b'2', b':', 0xFF, 0xFE];
    let v = decode(&s).unwrap();
    assert_eq!(encode(&v), s);
    assert_eq!(v.try_into_bytes().unwrap(), vec![0xFF, 0xFE]);
}

#[test]
fn non_string_key_rejected() {
    assert_eq!(decode(b"di1ei2ee").unwrap_err(), BencodeError::NonStringDictKey(1));
    assert_eq!(decode(b"dli1eei2ee").unwrap_err(), BencodeError::NonStringDictKey(1));
}

#[test]
fn deep_nesting_hits_the_limit() {
    let mut s = vec![b'l'; 600];
    s.extend(vec![b'e'; 600]);
    assert_eq!(decode(&s).unwrap_err(), BencodeError::RecursionLimitExceeded(512));
    assert_eq!(
        decode_with_limit(b"llee", 1).unwrap_err(),
        BencodeError::RecursionLimitExceeded(1)
    );
    assert_eq!(
        decode_with_limit(b"ldee", 1).unwrap_err(),
        BencodeError::RecursionLimitExceeded(1)
    );
    assert!(decode_with_limit(b"llee", 2).is_ok());
}

#[test]
fn nesting_at_the_limit_is_accepted() {
    let mut s = vec![b'l'; 512];
    s.extend(vec![b'e'; 512]);
    roundtrip(&s);
}

#[test]
fn string_errors() {
    assert_eq!(decode(b"5hello").unwrap_err(), BencodeError::UnterminatedString(0));
    assert_eq!(decode(b"05:hello").unwrap_err(), BencodeError::MalformedStringLength(0));
    assert_eq!(decode(b"1x:ab").unwrap_err(), BencodeError::MalformedStringLength(0));
    assert_eq!(
        decode(b"99999999999999999999999:ab").unwrap_err(),
        BencodeError::UnterminatedString(0)
    );
}

#[test]
fn list_and_dict_errors() {
    assert_eq!(decode(b"li1e").unwrap_err(), BencodeError::UnterminatedList(4));
    assert_eq!(decode(b"l").unwrap_err(), BencodeError::UnterminatedList(1));
    assert_eq!(decode(b"d3:keyi1e").unwrap_err(), BencodeError::UnterminatedDict(9));
    assert_eq!(decode(b"d3:key").unwrap_err(), BencodeError::UnterminatedDict(6));
    assert_eq!(decode(b"d3:keye").unwrap_err(), BencodeError::OddDictEntryCount(6));
}

#[test]
fn tag_and_trailing_errors() {
    assert_eq!(decode(b"").unwrap_err(), BencodeError::UnknownTag(0));
    assert_eq!(decode(b"x").unwrap_err(), BencodeError::UnknownTag(0));
    assert_eq!(decode(b"lxe").unwrap_err(), BencodeError::UnknownTag(1));
    assert_eq!(decode(b"i1ei2e").unwrap_err(), BencodeError::TrailingBytes(3));
}

#[test]
fn canonical_inputs_round_trip() {
    roundtrip(b"0:");
    roundtrip(b"i-42e");
    roundtrip(b"le");
    roundtrip(b"de");
    roundtrip(b"d4:spaml1:a1:bee");
    roundtrip(b"d1:ad1:bi1eee");
    roundtrip(b"d3:cow3:moo4:spam4:eggse");
    roundtrip(b"d0:i0e1:\xffi1ee");
}

#[test]
fn reencoding_is_idempotent() {
    let mut d = BencodeDict::new();
    d.insert(b"zz".to_vec(), BencodeElement::from(7i64));
    d.insert(b"a".to_vec(), BencodeElement::from(String::from("x")));
    let v = BencodeElement::from(d);
    let first = encode(&v);
    assert_eq!(first, b"d1:a1:x2:zzi7ee".to_vec());
    let again = encode(&decode(&first).unwrap());
    assert_eq!(again, first);
}

#[test]
fn encode_integers() {
    assert_eq!(encode(&BencodeElement::from(0i64)), b"i0e".to_vec());
    assert_eq!(encode(&BencodeElement::from(-7i64)), b"i-7e".to_vec());
    assert_eq!(encode(&BencodeElement::from(1234i64)), b"i1234e".to_vec());
    assert_eq!(encode(&BencodeElement::from(i64::MIN)), b"i-9223372036854775808e".to_vec());
    assert_eq!(encode(&BencodeElement::from(i64::MAX)), b"i9223372036854775807e".to_vec());
}

#[test]
fn encode_strings() {
    assert_eq!(encode(&BencodeElement::from(String::from("Hello"))), b"5:Hello".to_vec());
    assert_eq!(encode(&BencodeElement::from(String::from("héllo"))), "6:héllo".as_bytes().to_vec());
    assert_eq!(encode(&BencodeElement::from(Vec::<u8>::new())), b"0:".to_vec());
    let long = vec![b'x'; 10];
    let mut want = b"10:".to_vec();
    want.extend(long.clone());
    assert_eq!(encode(&BencodeElement::from(StringorByteArray::NotStringAble(long))), want);
}

#[test]
fn encode_nested_structure() {
    let lst: Vec<BencodeElement> = vec![
        1i64.into(),
        2i64.into(),
        3i64.into(),
        vec![BencodeElement::from(4i64), BencodeElement::from(5i64)].into(),
        String::from("Hello").into(),
        vec![
            BencodeElement::from(5i64),
            BencodeElement::from(6i64),
            vec![BencodeElement::from(7i64), BencodeElement::from(8i64)].into(),
        ]
        .into(),
    ];
    let mut dict = BencodeDict::new();
    let mut dict2 = BencodeDict::new();
    dict2.insert(b"hello".to_vec(), 123i64.into());
    dict.insert(b"test2".to_vec(), dict2.into());
    dict.insert(b"test".to_vec(), lst.into());
    let out = encode(&dict.into());
    assert_eq!(
        out,
        b"d4:testli1ei2ei3eli4ei5ee5:Helloli5ei6eli7ei8eeee5:test2d5:helloi123eee".to_vec()
    );
}

#[test]
fn typed_access_mismatch() {
    let v = decode(b"3:abc").unwrap();
    assert_eq!(v.kind(), BencodeKind::ByteString);
    assert_eq!(
        v.try_into_integer().unwrap_err(),
        BencodeError::TypeMismatch { expected: BencodeKind::Integer, actual: BencodeKind::ByteString }
    );
    assert_eq!(
        decode(b"i1e").unwrap().try_into_bytes().unwrap_err(),
        BencodeError::TypeMismatch { expected: BencodeKind::ByteString, actual: BencodeKind::Integer }
    );
    assert_eq!(
        decode(b"le").unwrap().try_into_dict().unwrap_err(),
        BencodeError::TypeMismatch { expected: BencodeKind::Dict, actual: BencodeKind::List }
    );
    assert_eq!(
        decode(b"de").unwrap().try_into_list().unwrap_err(),
        BencodeError::TypeMismatch { expected: BencodeKind::List, actual: BencodeKind::Dict }
    );
}

#[test]
fn dict_keeps_keys_sorted() {
    let mut d = BencodeDict::new();
    d.insert(b"b".to_vec(), 1i64.into());
    d.insert(b"ab".to_vec(), 2i64.into());
    d.insert(b"a".to_vec(), 3i64.into());
    d.insert(b"b".to_vec(), 4i64.into());
    let keys: Vec<Vec<u8>> = d.entries().iter().map(|e| e.0.clone()).collect();
    assert_eq!(keys, vec![b"a".to_vec(), b"ab".to_vec(), b"b".to_vec()]);
    assert_eq!(encode(&d.into()), b"d1:ai3e2:abi2e1:bi4ee".to_vec());
}

#[test]
fn render_values() {
    let v = decode(b"d4:spaml1:ai-3ee3:cowi7ee").unwrap();
    assert_eq!(v.render(), b"{ cow : 7, spam : [\"a\", -3] }".to_vec());
    assert_eq!(decode(b"le").unwrap().render(), b"[]".to_vec());
    assert_eq!(decode(b"de").unwrap().render(), b"{ }".to_vec());
    assert_eq!(decode(b"i0e").unwrap().render(), b"0".to_vec());
    assert_eq!(decode(b"li1ei2eli3ei4eee").unwrap().render(), b"[1, 2, [3, 4]]".to_vec());
}

#[test]
fn deep_dict_nesting_hits_the_limit() {
    let mut s = Vec::new();
    for _ in 0..3 {
        s.extend(b"d1:k".to_vec());
    }
    s.extend(b"i1e".to_vec());
    for _ in 0..3 {
        s.push(b'e');
    }
    assert_eq!(decode_with_limit(&s, 2).unwrap_err(), BencodeError::RecursionLimitExceeded(8));
    let v = decode_with_limit(&s, 3).unwrap();
    assert_eq!(encode(&v), s);
}

#[test]
fn text_view_of_byte_strings() {
    let v = decode(b"5:hello").unwrap();
    let s = match v {
        BencodeElement::BencodeString(s) => s,
        _ => panic!("not a byte string"),
    };
    assert_eq!(s.to_text(), Some(String::from("hello")));
    let raw = StringorByteArray::NotStringAble(vec![0xFF, 0xFE]);
    assert_eq!(raw.to_text(), None);
    let accented = StringorByteArray::NotStringAble("héllo".as_bytes().to_vec());
    assert_eq!(accented.to_text(), Some(String::from("héllo")));
    let text = StringorByteArray::StringAble(String::from("abc"));
    assert_eq!(text.to_text(), Some(String::from("abc")));
    assert_eq!(text.as_bytes(), b"abc");
}
