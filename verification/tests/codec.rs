use kvs::codec::{decode_transaction, encode_transaction, DecodeResult, Transaction};

fn le8(n: u64) -> Vec<u8> {
    n.to_le_bytes().to_vec()
}

#[test]
fn encode_put_wire_format() {
    let tx = Transaction::Put("a".to_string(), "1".to_string());
    let bytes = encode_transaction(&tx);
    let mut expected = vec![0u8];
    expected.extend_from_slice(&le8(1));
    expected.extend_from_slice(b"a");
    expected.extend_from_slice(&le8(1));
    expected.extend_from_slice(b"1");
    assert_eq!(bytes, expected);
}

#[test]
fn encode_remove_wire_format() {
    let tx = Transaction::Remove("key".to_string());
    let bytes = encode_transaction(&tx);
    let mut expected = vec![1u8];
    expected.extend_from_slice(&le8(3));
    expected.extend_from_slice(b"key");
    assert_eq!(bytes, expected);
}

#[test]
fn round_trip_put_unicode() {
    let tx = Transaction::Put("clé".to_string(), "värde ☃".to_string());
    let bytes = encode_transaction(&tx);
    match decode_transaction(&bytes, 0) {
        DecodeResult::Record(Transaction::Put(k, v), next) => {
            assert_eq!(k, "clé");
            assert_eq!(v, "värde ☃");
            assert_eq!(next, bytes.len());
        },
        _ => panic!("expected a Put record"),
    }
}

#[test]
fn round_trip_remove() {
    let tx = Transaction::Remove("gone".to_string());
    let bytes = encode_transaction(&tx);
    match decode_transaction(&bytes, 0) {
        DecodeResult::Record(Transaction::Remove(k), next) => {
            assert_eq!(k, "gone");
            assert_eq!(next, bytes.len());
        },
        _ => panic!("expected a Remove record"),
    }
}

#[test]
fn decode_empty_is_end() {
    let bytes: Vec<u8> = Vec::new();
    assert!(matches!(decode_transaction(&bytes, 0), DecodeResult::End));
}

#[test]
fn decode_truncated_record_is_end() {
    let tx = Transaction::Put("abc".to_string(), "defgh".to_string());
    let bytes = encode_transaction(&tx);
    for cut in 0..bytes.len() {
        let partial = bytes[..cut].to_vec();
        assert!(
            matches!(decode_transaction(&partial, 0), DecodeResult::End),
            "a {}-byte prefix must be a clean end",
            cut
        );
    }
}

#[test]
fn decode_bad_tag_is_corrupt() {
    let bytes = vec![7u8];
    assert!(matches!(decode_transaction(&bytes, 0), DecodeResult::Corrupt));
}

#[test]
fn decode_invalid_utf8_is_corrupt() {
    let mut bytes = vec![1u8];
    bytes.extend_from_slice(&le8(1));
    bytes.push(0xFF);
    assert!(matches!(decode_transaction(&bytes, 0), DecodeResult::Corrupt));
}

#[test]
fn decode_sequence_of_two_records() {
    let mut bytes = encode_transaction(&Transaction::Put("k".to_string(), "v".to_string()));
    let second = encode_transaction(&Transaction::Remove("k".to_string()));
    bytes.extend_from_slice(&second);
    let next = match decode_transaction(&bytes, 0) {
        DecodeResult::Record(Transaction::Put(k, v), next) => {
            assert_eq!(k, "k");
            assert_eq!(v, "v");
            next
        },
        _ => panic!("expected a Put record first"),
    };
    match decode_transaction(&bytes, next) {
        DecodeResult::Record(Transaction::Remove(k), end) => {
            assert_eq!(k, "k");
            assert_eq!(end, bytes.len());
        },
        _ => panic!("expected a Remove record second"),
    }
}
