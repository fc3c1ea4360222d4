use bittorrent_starter_rust::canonical::{dictionary_of, entries_sorted, is_canonical};
use bittorrent_starter_rust::bencode::{
    bytes_less, decode_bencoded_value, decode_bencoded_vec, decode_bencoded_vec_start_at, encode,
    insert_entry, BencodeValue, DecodeError, DictEntry,
};

fn shown(v: &BencodeValue) -> String {
    format!("{:?}", v)
}

#[test]
fn decodes_byte_string() {
    let (v, next) = decode_bencoded_vec_start_at(b"5:hello", 0).unwrap();
    assert!(matches!(v, BencodeValue::ByteString(ref b) if b == b"hello"));
    assert_eq!(next, 7);
}

#[test]
fn decodes_byte_string_with_raw_bytes() {
    let raw = vec![b'3', b':', 0xff, 0x00, 0xfe, b'x'];
    let (v, next) = decode_bencoded_vec_start_at(&raw, 0).unwrap();
    assert!(matches!(v, BencodeValue::ByteString(ref b) if b == &vec![0xffu8, 0x00, 0xfe]));
    assert_eq!(next, 5);
}

#[test]
fn decodes_empty_byte_string() {
    let (v, next) = decode_bencoded_vec_start_at(b"0:", 0).unwrap();
    assert!(matches!(v, BencodeValue::ByteString(ref b) if b.is_empty()));
    assert_eq!(next, 2);
}

#[test]
fn decodes_integers() {
    let (v, next) = decode_bencoded_vec_start_at(b"i52e", 0).unwrap();
    assert!(matches!(v, BencodeValue::Integer(52)));
    assert_eq!(next, 4);
    let (v, next) = decode_bencoded_vec_start_at(b"i-52e", 0).unwrap();
    assert!(matches!(v, BencodeValue::Integer(-52)));
    assert_eq!(next, 5);
    let (v, _) = decode_bencoded_vec_start_at(b"i0e", 0).unwrap();
    assert!(matches!(v, BencodeValue::Integer(0)));
}

#[test]
fn decodes_integer_limits() {
    let (v, _) = decode_bencoded_vec_start_at(b"i9223372036854775807e", 0).unwrap();
    assert!(matches!(v, BencodeValue::Integer(i64::MAX)));
    let (v, _) = decode_bencoded_vec_start_at(b"i-9223372036854775808e", 0).unwrap();
    assert!(matches!(v, BencodeValue::Integer(i64::MIN)));
    assert_eq!(
        decode_bencoded_vec_start_at(b"i9223372036854775808e", 0).unwrap_err(),
        DecodeError { offset: 1 }
    );
    assert_eq!(
        decode_bencoded_vec_start_at(b"i-9223372036854775809e", 0).unwrap_err(),
        DecodeError { offset: 2 }
    );
}

#[test]
fn rejects_non_canonical_integers() {
    assert_eq!(decode_bencoded_vec_start_at(b"i-0e", 0).unwrap_err(), DecodeError { offset: 2 });
    assert_eq!(decode_bencoded_vec_start_at(b"i03e", 0).unwrap_err(), DecodeError { offset: 1 });
    assert_eq!(decode_bencoded_vec_start_at(b"ie", 0).unwrap_err(), DecodeError { offset: 1 });
    assert_eq!(decode_bencoded_vec_start_at(b"i+5e", 0).unwrap_err(), DecodeError { offset: 1 });
    assert_eq!(decode_bencoded_vec_start_at(b"i12", 0).unwrap_err(), DecodeError { offset: 3 });
    assert_eq!(decode_bencoded_vec_start_at(b"i1x2e", 0).unwrap_err(), DecodeError { offset: 2 });
}

#[test]
fn decodes_list() {
    let (v, next) = decode_bencoded_vec_start_at(b"l5:helloi52ee", 0).unwrap();
    assert_eq!(next, 13);
    match v {
        BencodeValue::List(items) => {
            assert_eq!(items.len(), 2);
            assert!(matches!(items[0], BencodeValue::ByteString(ref b) if b == b"hello"));
            assert!(matches!(items[1], BencodeValue::Integer(52)));
        }
        other => panic!("not a list: {:?}", other),
    }
}

#[test]
fn decodes_nested_values_from_an_offset() {
    let raw = b"xxd3:fooli1ei2eee";
    let (v, next) = decode_bencoded_vec_start_at(raw, 2).unwrap();
    assert_eq!(next, raw.len());
    assert_eq!(encode(&v), b"d3:fooli1ei2eee".to_vec());
}

#[test]
fn decodes_dictionary_in_key_order() {
    let (v, next) = decode_bencoded_vec_start_at(b"d5:helloi52e3:foo3:bare", 0).unwrap();
    assert_eq!(next, 23);
    match v {
        BencodeValue::Dictionary(entries) => {
            assert_eq!(entries.len(), 2);
            assert_eq!(entries[0].key, b"foo".to_vec());
            assert_eq!(entries[1].key, b"hello".to_vec());
            assert!(matches!(entries[1].value, BencodeValue::Integer(52)));
        }
        other => panic!("not a dictionary: {:?}", other),
    }
}

#[test]
fn later_entry_replaces_an_earlier_one_with_its_key() {
    let v = decode_bencoded_vec(&b"d1:ai1e1:ai2ee".to_vec()).unwrap();
    assert_eq!(encode(&v), b"d1:ai2ee".to_vec());
}

#[test]
fn reports_unexpected_end_of_input() {
    assert_eq!(decode_bencoded_vec_start_at(b"", 0).unwrap_err(), DecodeError { offset: 0 });
    assert_eq!(decode_bencoded_vec_start_at(b"5:hel", 0).unwrap_err(), DecodeError { offset: 5 });
    assert_eq!(decode_bencoded_vec_start_at(b"i1e", 7).unwrap_err(), DecodeError { offset: 7 });
}

#[test]
fn reports_unterminated_list_and_dictionary() {
    assert_eq!(decode_bencoded_vec_start_at(b"li1e", 0).unwrap_err(), DecodeError { offset: 4 });
    assert_eq!(
        decode_bencoded_vec_start_at(b"d1:ai1e", 0).unwrap_err(),
        DecodeError { offset: 7 }
    );
}

#[test]
fn reports_bad_length_prefix() {
    assert_eq!(decode_bencoded_vec_start_at(b"5x:hello", 0).unwrap_err(), DecodeError { offset: 1 });
    assert_eq!(decode_bencoded_vec_start_at(b"x", 0).unwrap_err(), DecodeError { offset: 0 });
    assert_eq!(
        decode_bencoded_vec_start_at(b"99999999999999999999999999:a", 0).unwrap_err(),
        DecodeError { offset: 28 }
    );
}

#[test]
fn reports_key_that_is_no_byte_string() {
    assert_eq!(
        decode_bencoded_vec_start_at(b"di1ei2ee", 0).unwrap_err(),
        DecodeError { offset: 1 }
    );
}

#[test]
fn decodes_text_input() {
    let v = decode_bencoded_value("l4:spami-7ee").unwrap();
    assert_eq!(shown(&v), shown(&BencodeValue::List(vec![
        BencodeValue::ByteString(b"spam".to_vec()),
        BencodeValue::Integer(-7),
    ])));
    assert_eq!(decode_bencoded_value("i-0e").unwrap_err(), DecodeError { offset: 2 });
}

#[test]
fn encodes_each_kind() {
    assert_eq!(encode(&BencodeValue::Integer(0)), b"i0e".to_vec());
    assert_eq!(encode(&BencodeValue::Integer(-120)), b"i-120e".to_vec());
    assert_eq!(
        encode(&BencodeValue::Integer(i64::MIN)),
        b"i-9223372036854775808e".to_vec()
    );
    assert_eq!(encode(&BencodeValue::ByteString(b"hello world".to_vec())), b"11:hello world".to_vec());
    assert_eq!(encode(&BencodeValue::ByteString(Vec::new())), b"0:".to_vec());
    assert_eq!(encode(&BencodeValue::List(Vec::new())), b"le".to_vec());
    assert_eq!(encode(&BencodeValue::Dictionary(Vec::new())), b"de".to_vec());
}

#[test]
fn round_trip_of_a_nested_value() {
    let mut inner: Vec<DictEntry> = Vec::new();
    insert_entry(&mut inner, b"zeta".to_vec(), BencodeValue::Integer(-1));
    insert_entry(&mut inner, b"alpha".to_vec(), BencodeValue::ByteString(vec![0, 255, 7]));
    let mut outer: Vec<DictEntry> = Vec::new();
    insert_entry(
        &mut outer,
        b"list".to_vec(),
        BencodeValue::List(vec![BencodeValue::Integer(i64::MAX), BencodeValue::Dictionary(inner)]),
    );
    insert_entry(&mut outer, b"a".to_vec(), BencodeValue::List(Vec::new()));
    let v = BencodeValue::Dictionary(outer);
    let bytes = encode(&v);
    let (back, next) = decode_bencoded_vec_start_at(&bytes, 0).unwrap();
    assert_eq!(next, bytes.len());
    assert_eq!(shown(&back), shown(&v));
    assert_eq!(encode(&back), bytes);
}

#[test]
fn dictionary_encoding_does_not_depend_on_insertion_order() {
    let mut one: Vec<DictEntry> = Vec::new();
    insert_entry(&mut one, b"b".to_vec(), BencodeValue::Integer(2));
    insert_entry(&mut one, b"a".to_vec(), BencodeValue::Integer(1));
    insert_entry(&mut one, b"ab".to_vec(), BencodeValue::Integer(3));
    let mut two: Vec<DictEntry> = Vec::new();
    insert_entry(&mut two, b"ab".to_vec(), BencodeValue::Integer(3));
    insert_entry(&mut two, b"a".to_vec(), BencodeValue::Integer(1));
    insert_entry(&mut two, b"b".to_vec(), BencodeValue::Integer(2));
    let first = encode(&BencodeValue::Dictionary(one));
    let second = encode(&BencodeValue::Dictionary(two));
    assert_eq!(first, second);
    assert_eq!(first, b"d1:ai1e2:abi3e1:bi2ee".to_vec());
}

#[test]
fn insert_replaces_the_value_of_a_key() {
    let mut d: Vec<DictEntry> = Vec::new();
    insert_entry(&mut d, b"k".to_vec(), BencodeValue::Integer(1));
    insert_entry(&mut d, b"k".to_vec(), BencodeValue::Integer(2));
    assert_eq!(d.len(), 1);
    assert_eq!(encode(&BencodeValue::Dictionary(d)), b"d1:ki2ee".to_vec());
}

#[test]
fn byte_order_of_keys() {
    assert!(bytes_less(b"a", b"b"));
    assert!(bytes_less(b"a", b"ab"));
    assert!(bytes_less(b"", b"a"));
    assert!(!bytes_less(b"a", b"a"));
    assert!(!bytes_less(b"b", b"ab"));
    assert!(bytes_less(&[0x7f], &[0x80]));
}

fn entry(key: &[u8], value: i64) -> DictEntry {
    DictEntry { key: key.to_vec(), value: BencodeValue::Integer(value) }
}

#[test]
fn decoded_values_are_canonical() {
    let v = decode_bencoded_vec(&b"d1:bi1e1:ad1:zi1e1:yi2ee1:bli3eee".to_vec()).unwrap();
    assert!(is_canonical(&v));
    assert_eq!(encode(&v), b"d1:ad1:yi2e1:zi1ee1:bli3eee".to_vec());
}

#[test]
fn keys_out_of_order_are_not_canonical() {
    assert!(entries_sorted(&vec![]));
    assert!(entries_sorted(&vec![entry(b"a", 1)]));
    assert!(entries_sorted(&vec![entry(b"a", 1), entry(b"ab", 2), entry(b"b", 3)]));
    assert!(!entries_sorted(&vec![entry(b"b", 1), entry(b"a", 2)]));
    assert!(!entries_sorted(&vec![entry(b"a", 1), entry(b"a", 2)]));
    assert!(!entries_sorted(&vec![entry(b"a", 1), entry(b"c", 2), entry(b"b", 3)]));
    assert!(is_canonical(&BencodeValue::Integer(-3)));
    assert!(is_canonical(&BencodeValue::ByteString(vec![0xff])));
    assert!(is_canonical(&BencodeValue::Dictionary(vec![entry(b"a", 1), entry(b"b", 2)])));
    assert!(!is_canonical(&BencodeValue::Dictionary(vec![entry(b"b", 1), entry(b"a", 2)])));
    let nested = BencodeValue::List(vec![
        BencodeValue::Integer(1),
        BencodeValue::Dictionary(vec![DictEntry {
            key: b"k".to_vec(),
            value: BencodeValue::Dictionary(vec![entry(b"z", 1), entry(b"y", 2)]),
        }]),
    ]);
    assert!(!is_canonical(&nested));
}

#[test]
fn dictionary_of_entries_in_any_order() {
    let one = dictionary_of(vec![entry(b"b", 2), entry(b"a", 1), entry(b"ab", 3)]);
    let two = dictionary_of(vec![entry(b"ab", 3), entry(b"b", 2), entry(b"a", 1)]);
    let three = dictionary_of(vec![entry(b"a", 1), entry(b"ab", 3), entry(b"b", 2)]);
    assert!(is_canonical(&one));
    assert_eq!(encode(&one), b"d1:ai1e2:abi3e1:bi2ee".to_vec());
    assert_eq!(encode(&two), encode(&one));
    assert_eq!(encode(&three), encode(&one));
    assert_eq!(encode(&dictionary_of(Vec::new())), b"de".to_vec());
}

#[test]
fn dictionary_of_keeps_the_later_of_two_entries_with_one_key() {
    let d = dictionary_of(vec![entry(b"k", 1), entry(b"a", 0), entry(b"k", 2)]);
    assert_eq!(encode(&d), b"d1:ai0e1:ki2ee".to_vec());
}
