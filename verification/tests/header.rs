use journal::errors::JournalError;
use journal::header::Header;

#[test]
fn decode_empty_buffer_is_legacy() {
    let h = Header::decode(&[]).unwrap();
    assert_eq!(h.size(), 0);
    assert!(!h.encrypted());
}

#[test]
fn decode_unknown_version_is_legacy() {
    // Any first byte other than the current version means: no header at
    // all, the whole buffer is payload.
    let h = Header::decode(b"plain old text").unwrap();
    assert_eq!(h.size(), 0);
    assert!(!h.encrypted());
    assert_eq!(h.encode(), Vec::<u8>::new());
}

#[test]
fn decode_unencrypted_current_version() {
    let buf = [0x01, 0x00, 0xAA, 0xBB];
    let h = Header::decode(&buf).unwrap();
    assert_eq!(h.size(), 2);
    assert!(!h.encrypted());
    assert_eq!(h.encode(), vec![0x01, 0x00]);
}

#[test]
fn encode_decode_round_trip_encrypted() {
    let nonce = vec![1, 2, 3, 4, 5, 6, 7, 8, 9, 10, 11, 12];
    let tag = vec![9; 16];
    let h = Header::new_encrypted(nonce.clone(), tag.clone());
    assert_eq!(h.size(), 4 + 12 + 16);
    let mut buf = h.encode();
    assert_eq!(buf[0], 0x01);
    assert_eq!(buf[1], 0x80);
    assert_eq!(buf[2], 12);
    assert_eq!(buf[3], 16);
    assert_eq!(&buf[4..16], &nonce[..]);
    assert_eq!(&buf[16..32], &tag[..]);

    // Re-decoding, with payload appended, restores the same header and the
    // re-encoding reproduces the original leading bytes.
    let encoded = buf.clone();
    buf.extend_from_slice(b"ciphertext bytes");
    let h2 = Header::decode(&buf).unwrap();
    assert!(h2.encrypted());
    assert_eq!(h2.size(), encoded.len());
    assert_eq!(h2.encode(), encoded);
}

#[test]
fn decode_truncated_header_is_malformed() {
    // Declares a 12-byte nonce and 16-byte tag but holds neither.
    let err = Header::decode(&[0x01, 0x80, 12, 16, 1, 2, 3]).unwrap_err();
    assert_eq!(err, JournalError::MalformedHeader);
    // Version byte alone, with the flags byte missing.
    let err = Header::decode(&[0x01]).unwrap_err();
    assert_eq!(err, JournalError::MalformedHeader);
}

#[test]
fn error_messages_name_the_failure() {
    assert_eq!(JournalError::MalformedHeader.message(), "malformed header");
    assert_eq!(JournalError::MissingKey.message(), "key required for encrypted file");
}
