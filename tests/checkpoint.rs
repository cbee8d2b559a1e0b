use blob_indexer::checkpoint::{decode_checkpoint, encode_checkpoint};

#[test]
fn checkpoint_encodes_as_decimal() {
    assert_eq!(encode_checkpoint(0), b"0".to_vec());
    assert_eq!(encode_checkpoint(7), b"7".to_vec());
    assert_eq!(encode_checkpoint(840000), b"840000".to_vec());
    assert_eq!(encode_checkpoint(u64::MAX), b"18446744073709551615".to_vec());
}

#[test]
fn checkpoint_decodes_decimal() {
    assert_eq!(decode_checkpoint(b"0"), Some(0));
    assert_eq!(decode_checkpoint(b"840000"), Some(840000));
    assert_eq!(decode_checkpoint(b"007"), Some(7));
    assert_eq!(decode_checkpoint(b"18446744073709551615"), Some(u64::MAX));
}

#[test]
fn bad_checkpoint_is_rejected() {
    assert_eq!(decode_checkpoint(b""), None);
    assert_eq!(decode_checkpoint(b"12a"), None);
    assert_eq!(decode_checkpoint(b"-1"), None);
    assert_eq!(decode_checkpoint(b"18446744073709551616"), None);
}

#[test]
fn checkpoint_round_trips() {
    for v in [0u64, 1, 9, 10, 99, 100, 123456789, u64::MAX - 1, u64::MAX] {
        assert_eq!(decode_checkpoint(&encode_checkpoint(v)), Some(v));
    }
}
