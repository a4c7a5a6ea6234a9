use bittorrent_core::decode::decode;
use bittorrent_core::encode::encode;
use bittorrent_core::value::CanonicalValue;
use serde_bencode::value::Value as BenValue;

fn to_ben(value: &CanonicalValue) -> BenValue {
    match value {
        CanonicalValue::ByteString(bytes) => BenValue::Bytes(bytes.clone()),
        CanonicalValue::Integer(number) => BenValue::Int(*number),
        CanonicalValue::List(items) => BenValue::List(items.iter().map(to_ben).collect()),
        CanonicalValue::Dict(entries) => BenValue::Dict(
            entries
                .iter()
                .map(|(key, value)| (key.clone(), to_ben(value)))
                .collect(),
        ),
    }
}

fn inputs() -> Vec<Vec<u8>> {
    vec![
        b"i0e".to_vec(),
        b"i-123456789e".to_vec(),
        b"0:".to_vec(),
        b"4:spam".to_vec(),
        b"le".to_vec(),
        b"de".to_vec(),
        b"l4:spami42eli1eee".to_vec(),
        b"d3:bar4:spam3:fooi42ee".to_vec(),
        b"d3:fooi42e3:bar4:spame".to_vec(),
        b"d1:ad1:bd1:cleee1:zi-1ee".to_vec(),
        b"d1:ai1e1:ai2ee".to_vec(),
        b"d8:intervali1800e5:peers6:\xc0\xa8\x01\x0a\x1a\xe1e".to_vec(),
    ]
}

#[test]
fn decoding_agrees_with_serde_bencode() {
    for input in inputs() {
        let ours = decode(&input).unwrap();
        let theirs: BenValue = serde_bencode::from_bytes(&input).unwrap();
        assert_eq!(to_ben(&ours), theirs);
    }
}

#[test]
fn encoding_agrees_with_serde_bencode() {
    for input in inputs() {
        let ours = decode(&input).unwrap();
        let theirs = serde_bencode::to_bytes(&to_ben(&ours)).unwrap();
        assert_eq!(encode(&ours), theirs);
    }
}
