use bittorrent_core::canonical::normalized;
use bittorrent_core::decode::{decode, decode_prefix, DecodeError};
use bittorrent_core::encode::encode;
use bittorrent_core::json::{bencode_to_json, JsonValue};
use bittorrent_core::value::{bytes_less, dict_get, dict_insert, CanonicalValue};

fn bytes(text: &str) -> CanonicalValue {
    CanonicalValue::ByteString(text.as_bytes().to_vec())
}

fn dict(entries: Vec<(&str, CanonicalValue)>) -> CanonicalValue {
    let mut d = Vec::new();
    for (key, value) in entries {
        dict_insert(&mut d, key.as_bytes().to_vec(), value);
    }
    CanonicalValue::Dict(d)
}

#[test]
fn decode_integers() {
    assert_eq!(decode(b"i42e"), Ok(CanonicalValue::Integer(42)));
    assert_eq!(decode(b"i0e"), Ok(CanonicalValue::Integer(0)));
    assert_eq!(decode(b"i-17e"), Ok(CanonicalValue::Integer(-17)));
    assert_eq!(decode(b"i9223372036854775807e"), Ok(CanonicalValue::Integer(i64::MAX)));
    assert_eq!(decode(b"i-9223372036854775808e"), Ok(CanonicalValue::Integer(i64::MIN)));
}

#[test]
fn decode_byte_strings() {
    assert_eq!(decode(b"5:hello"), Ok(bytes("hello")));
    assert_eq!(decode(b"0:"), Ok(bytes("")));
    assert_eq!(decode(b"3:\xff\x00\x80"), Ok(CanonicalValue::ByteString(vec![255, 0, 128])));
}

#[test]
fn decode_lists_and_dicts() {
    assert_eq!(decode(b"le"), Ok(CanonicalValue::List(vec![])));
    assert_eq!(
        decode(b"l5:helloi52ee"),
        Ok(CanonicalValue::List(vec![bytes("hello"), CanonicalValue::Integer(52)]))
    );
    assert_eq!(decode(b"de"), Ok(CanonicalValue::Dict(vec![])));
    assert_eq!(
        decode(b"d3:foo3:bar5:helloi52ee"),
        Ok(CanonicalValue::Dict(vec![
            (b"foo".to_vec(), bytes("bar")),
            (b"hello".to_vec(), CanonicalValue::Integer(52)),
        ]))
    );
}

#[test]
fn decode_sorts_keys_and_keeps_the_later_of_two() {
    assert_eq!(
        decode(b"d1:bi1e1:ai2ee"),
        Ok(CanonicalValue::Dict(vec![
            (b"a".to_vec(), CanonicalValue::Integer(2)),
            (b"b".to_vec(), CanonicalValue::Integer(1)),
        ]))
    );
    assert_eq!(
        decode(b"d1:ai1e1:ai2ee"),
        Ok(CanonicalValue::Dict(vec![(b"a".to_vec(), CanonicalValue::Integer(2))]))
    );
}

#[test]
fn decode_passes_over_what_follows() {
    assert_eq!(decode(b"i1exyz"), Ok(CanonicalValue::Integer(1)));
    assert_eq!(decode_prefix(b"i1exyz"), Ok((CanonicalValue::Integer(1), 3)));
    assert_eq!(decode_prefix(b"4:spamrest"), Ok((bytes("spam"), 6)));
}

#[test]
fn decode_rejects_negative_zero() {
    assert_eq!(decode(b"i-0e"), Err(DecodeError::MalformedEncoding));
}

#[test]
fn decode_rejects_leading_zero() {
    assert_eq!(decode(b"i05e"), Err(DecodeError::MalformedEncoding));
    assert_eq!(decode(b"i-05e"), Err(DecodeError::MalformedEncoding));
    assert_eq!(decode(b"i00e"), Err(DecodeError::MalformedEncoding));
}

#[test]
fn decode_rejects_short_byte_string() {
    assert_eq!(decode(b"5:abc"), Err(DecodeError::MalformedEncoding));
    assert_eq!(decode(b"99999999999999999999999999:abc"), Err(DecodeError::MalformedEncoding));
    assert_eq!(decode(b"3abc"), Err(DecodeError::MalformedEncoding));
}

#[test]
fn decode_rejects_malformed_integers() {
    assert_eq!(decode(b"ie"), Err(DecodeError::MalformedEncoding));
    assert_eq!(decode(b"i-e"), Err(DecodeError::MalformedEncoding));
    assert_eq!(decode(b"i1xe"), Err(DecodeError::MalformedEncoding));
    assert_eq!(decode(b"i12"), Err(DecodeError::MalformedEncoding));
    assert_eq!(decode(b"i+1e"), Err(DecodeError::MalformedEncoding));
    assert_eq!(decode(b"i9223372036854775808e"), Err(DecodeError::MalformedEncoding));
    assert_eq!(decode(b"i-9223372036854775809e"), Err(DecodeError::MalformedEncoding));
}

#[test]
fn decode_rejects_unterminated_containers() {
    assert_eq!(decode(b"li1e"), Err(DecodeError::MalformedEncoding));
    assert_eq!(decode(b"l"), Err(DecodeError::MalformedEncoding));
    assert_eq!(decode(b"d1:ai1e"), Err(DecodeError::MalformedEncoding));
    assert_eq!(decode(b"d1:a"), Err(DecodeError::MalformedEncoding));
}

#[test]
fn decode_rejects_other_garbage() {
    assert_eq!(decode(b""), Err(DecodeError::MalformedEncoding));
    assert_eq!(decode(b"x"), Err(DecodeError::MalformedEncoding));
    assert_eq!(decode(b"e"), Err(DecodeError::MalformedEncoding));
    assert_eq!(decode(b"di1ei2ee"), Err(DecodeError::MalformedEncoding));
}

#[test]
fn encode_values() {
    assert_eq!(encode(&CanonicalValue::Integer(0)), b"i0e".to_vec());
    assert_eq!(encode(&CanonicalValue::Integer(-42)), b"i-42e".to_vec());
    assert_eq!(encode(&CanonicalValue::Integer(i64::MIN)), b"i-9223372036854775808e".to_vec());
    assert_eq!(encode(&CanonicalValue::Integer(i64::MAX)), b"i9223372036854775807e".to_vec());
    assert_eq!(encode(&bytes("")), b"0:".to_vec());
    assert_eq!(encode(&bytes("hello world")), b"11:hello world".to_vec());
    assert_eq!(encode(&CanonicalValue::List(vec![])), b"le".to_vec());
    assert_eq!(
        encode(&CanonicalValue::List(vec![CanonicalValue::Integer(1), bytes("a")])),
        b"li1e1:ae".to_vec()
    );
    assert_eq!(encode(&CanonicalValue::Dict(vec![])), b"de".to_vec());
}

#[test]
fn encoding_a_dict_is_independent_of_insertion_order() {
    let first = dict(vec![("b", CanonicalValue::Integer(1)), ("a", CanonicalValue::Integer(2))]);
    let second = dict(vec![("a", CanonicalValue::Integer(2)), ("b", CanonicalValue::Integer(1))]);
    assert_eq!(first, second);
    assert_eq!(encode(&first), b"d1:ai2e1:bi1ee".to_vec());
    assert_eq!(encode(&first), encode(&second));
}

#[test]
fn encode_sorts_the_keys_of_any_dict() {
    let unsorted = CanonicalValue::Dict(vec![
        (b"b".to_vec(), CanonicalValue::Integer(1)),
        (b"a".to_vec(), CanonicalValue::Integer(2)),
    ]);
    let sorted = CanonicalValue::Dict(vec![
        (b"a".to_vec(), CanonicalValue::Integer(2)),
        (b"b".to_vec(), CanonicalValue::Integer(1)),
    ]);
    assert_eq!(encode(&unsorted), b"d1:ai2e1:bi1ee".to_vec());
    assert_eq!(encode(&unsorted), encode(&sorted));
    let nested = CanonicalValue::List(vec![CanonicalValue::Dict(vec![
        (b"z".to_vec(), CanonicalValue::Dict(vec![
            (b"y".to_vec(), CanonicalValue::Integer(1)),
            (b"x".to_vec(), CanonicalValue::Integer(2)),
        ])),
        (b"k".to_vec(), CanonicalValue::Integer(3)),
        (b"z".to_vec(), CanonicalValue::Integer(4)),
        (b"".to_vec(), CanonicalValue::Integer(5)),
    ])]);
    assert_eq!(encode(&nested), b"ld0:i5e1:ki3e1:zi4eee".to_vec());
    let nested = CanonicalValue::Dict(vec![
        (b"k".to_vec(), CanonicalValue::Integer(3)),
        (b"a".to_vec(), CanonicalValue::Dict(vec![
            (b"y".to_vec(), CanonicalValue::Integer(1)),
            (b"x".to_vec(), CanonicalValue::Integer(2)),
        ])),
    ]);
    assert_eq!(encode(&nested), b"d1:ad1:xi2e1:yi1ee1:ki3ee".to_vec());
}

#[test]
fn normalized_is_the_identity_on_sorted_values() {
    let value = decode(b"d1:ali1ed1:bi2eee1:c0:e").unwrap();
    assert_eq!(normalized(&value), value);
    let unsorted = CanonicalValue::Dict(vec![
        (b"b".to_vec(), CanonicalValue::Integer(1)),
        (b"a".to_vec(), CanonicalValue::Integer(2)),
    ]);
    assert_eq!(
        normalized(&unsorted),
        CanonicalValue::Dict(vec![
            (b"a".to_vec(), CanonicalValue::Integer(2)),
            (b"b".to_vec(), CanonicalValue::Integer(1)),
        ])
    );
}

#[test]
fn dict_insert_replaces_and_orders() {
    let mut d = Vec::new();
    dict_insert(&mut d, b"m".to_vec(), CanonicalValue::Integer(1));
    dict_insert(&mut d, b"z".to_vec(), CanonicalValue::Integer(2));
    dict_insert(&mut d, b"a".to_vec(), CanonicalValue::Integer(3));
    dict_insert(&mut d, b"ma".to_vec(), CanonicalValue::Integer(4));
    dict_insert(&mut d, b"m".to_vec(), CanonicalValue::Integer(5));
    let keys: Vec<Vec<u8>> = d.iter().map(|(k, _)| k.clone()).collect();
    assert_eq!(keys, vec![b"a".to_vec(), b"m".to_vec(), b"ma".to_vec(), b"z".to_vec()]);
    assert_eq!(dict_get(&d, b"m"), Some(&CanonicalValue::Integer(5)));
    assert_eq!(dict_get(&d, b"ma"), Some(&CanonicalValue::Integer(4)));
    assert_eq!(dict_get(&d, b"q"), None);
}

#[test]
fn byte_order_of_keys() {
    assert!(bytes_less(b"a", b"b"));
    assert!(bytes_less(b"", b"a"));
    assert!(bytes_less(b"ab", b"abc"));
    assert!(bytes_less(b"piece length", b"pieces"));
    assert!(!bytes_less(b"b", b"a"));
    assert!(!bytes_less(b"a", b"a"));
    assert!(!bytes_less(b"", b""));
    assert!(bytes_less(&[0x7f], &[0x80]));
}

#[test]
fn decode_inverts_encode() {
    let inner = dict(vec![
        ("zeta", CanonicalValue::List(vec![CanonicalValue::Integer(-1), bytes("x")])),
        ("alpha", CanonicalValue::Integer(i64::MIN)),
        ("", bytes("")),
    ]);
    let value = dict(vec![
        ("list", CanonicalValue::List(vec![inner, CanonicalValue::List(vec![])])),
        ("bytes", CanonicalValue::ByteString((0u8..=255).collect())),
        ("int", CanonicalValue::Integer(1234567890123)),
    ]);
    let written = encode(&value);
    assert_eq!(decode(&written), Ok(value));
}

#[test]
fn encode_inverts_decode_on_canonical_input() {
    let input = b"d4:listl1:a1:bi3ee3:numi-7e3:str4:spame".to_vec();
    let value = decode(&input).unwrap();
    assert_eq!(encode(&value), input);
}

#[test]
fn json_projection() {
    let value = decode(b"d3:fooli1e3:bare5:hello5:worlde").unwrap();
    assert_eq!(
        bencode_to_json(&value),
        JsonValue::Object(vec![
            (
                "foo".to_string(),
                JsonValue::Array(vec![JsonValue::Number(1), JsonValue::String("bar".to_string())])
            ),
            ("hello".to_string(), JsonValue::String("world".to_string())),
        ])
    );
    assert_eq!(
        bencode_to_json(&CanonicalValue::ByteString(vec![b'a', 0xff, b'b'])),
        JsonValue::String("a\u{fffd}b".to_string())
    );
    assert_eq!(bencode_to_json(&CanonicalValue::Integer(-5)), JsonValue::Number(-5));
}
