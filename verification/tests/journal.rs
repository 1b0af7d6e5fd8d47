use journal::errors::JournalError;
use journal::fs::FileEntry;
use journal::types::Journal;

fn entry() -> FileEntry {
    FileEntry::new("ws/one.md".to_string(), false)
}

#[test]
fn open_legacy_file_returns_whole_buffer() {
    let contents = b"just some notes".to_vec();
    let j = Journal::open(&entry(), None, contents.clone()).unwrap();
    assert!(!j.encrypted());
    assert_eq!(j.bytes().unwrap(), contents);
}

#[test]
fn open_unencrypted_current_format_strips_header() {
    let mut contents = vec![0x01, 0x00];
    contents.extend_from_slice(b"payload");
    let j = Journal::open(&entry(), None, contents).unwrap();
    assert!(!j.encrypted());
    assert_eq!(j.bytes().unwrap(), b"payload".to_vec());
}

#[test]
fn write_without_key_stores_content_unchanged() {
    let img = Journal::write(None, b"plain content").unwrap();
    assert_eq!(img, b"plain content".to_vec());
}

#[test]
fn write_then_open_round_trips_encrypted_content() {
    let key = "a-strong-enough-key".to_string();
    let img = Journal::write(Some(&key), b"secret entry").unwrap();
    assert_ne!(img, b"secret entry".to_vec());

    let j = Journal::open(&entry(), Some(key), img).unwrap();
    assert!(j.encrypted());
    assert_eq!(j.bytes().unwrap(), b"secret entry".to_vec());
}

#[test]
fn every_write_changes_the_stored_nonce() {
    let key = "a-strong-enough-key".to_string();
    let a = Journal::write(Some(&key), b"same content").unwrap();
    let b = Journal::write(Some(&key), b"same content").unwrap();
    // Fresh random nonce each time: the images differ even for identical
    // content (the nonce is 12 bytes; a collision is vanishingly unlikely).
    assert_ne!(a, b);
    assert_ne!(a[4..16], b[4..16]);
}

#[test]
fn encrypted_file_without_key_reports_missing_key() {
    let key = "a-strong-enough-key".to_string();
    let img = Journal::write(Some(&key), b"secret entry").unwrap();
    let j = Journal::open(&entry(), None, img).unwrap();
    assert_eq!(j.bytes().unwrap_err(), JournalError::MissingKey);
}

#[test]
fn encrypted_file_with_wrong_key_fails_authentication() {
    let key = "a-strong-enough-key".to_string();
    let img = Journal::write(Some(&key), b"secret entry").unwrap();
    let j = Journal::open(&entry(), Some("another-wrong-key".to_string()), img).unwrap();
    assert_eq!(j.bytes().unwrap_err(), JournalError::AuthenticationFailed);
}

#[test]
fn write_with_invalid_key_is_rejected() {
    let short = "short".to_string();
    assert_eq!(Journal::write(Some(&short), b"x").unwrap_err(), JournalError::KeyInvalid);
}

#[test]
fn open_truncated_header_is_malformed() {
    let err = Journal::open(&entry(), None, vec![0x01, 0x80, 12, 16, 0, 0]).unwrap_err();
    assert_eq!(err, JournalError::MalformedHeader);
}

#[test]
fn corrupting_stored_bytes_fails_authentication() {
    let key = "a-strong-enough-key".to_string();
    let img = Journal::write(Some(&key), b"secret entry").unwrap();
    // Layout: version, flags, nonce_len, tag_len, nonce[12], tag[16], ciphertext.
    for flip_at in [4usize, 16, 32] {
        let mut broken = img.clone();
        broken[flip_at] ^= 0x01;
        let j = Journal::open(&entry(), Some(key.clone()), broken).unwrap();
        assert_eq!(j.bytes().unwrap_err(), JournalError::AuthenticationFailed);
    }
}
