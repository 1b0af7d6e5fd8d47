use journal::crypto::{decrypt, encrypt};
use journal::errors::JournalError;

#[test]
fn test_encrypt_and_decrypt() {
    // Encrypt
    let key = "testing-encryption";
    let data = "Journals";
    let res = encrypt(data.as_bytes(), key).unwrap();

    // Decrypt
    let plaintext = decrypt(key, &res.nonce[..], &res.tag[..], &res.ciphertext[..]).unwrap();
    let plaintext = String::from_utf8(plaintext).unwrap();
    assert_eq!(plaintext, data);
}

#[test]
fn test_encrypt_short_key() {
    // Encrypt
    let key = "testing";
    let res = encrypt(b"journals", key);
    assert!(res.is_err());
}

#[test]
fn test_encrypt_long_key() {
    // Encrypt
    let key = "testing-testing-testing-testing-testing-testing";
    let res = encrypt(b"journals", key);
    assert!(res.is_err());
}

#[test]
fn encrypt_produces_fixed_size_nonce_and_tag() {
    let res = encrypt(b"some content", "a-valid-key").unwrap();
    assert_eq!(res.nonce.len(), 12);
    assert_eq!(res.tag.len(), 16);
    assert_eq!(res.ciphertext.len(), b"some content".len());
    assert_ne!(res.ciphertext, b"some content".to_vec());
}

#[test]
fn key_length_bounds() {
    assert_eq!(encrypt(b"x", "1234567").unwrap_err(), JournalError::KeyInvalid);
    assert!(encrypt(b"x", "12345678").is_ok());
    assert!(encrypt(b"x", "12345678901234567890123456789012").is_ok());
    assert_eq!(
        encrypt(b"x", "123456789012345678901234567890123").unwrap_err(),
        JournalError::KeyInvalid
    );
    assert_eq!(decrypt("1234567", &[0; 12], &[0; 16], b"x").unwrap_err(), JournalError::KeyInvalid);
    assert_eq!(
        decrypt("123456789012345678901234567890123", &[0; 12], &[0; 16], b"x").unwrap_err(),
        JournalError::KeyInvalid
    );
}

#[test]
fn decrypt_with_wrong_key_fails() {
    let key = "first-good-key";
    let res = encrypt(b"secret words", key).unwrap();
    let err = decrypt("other-good-key", &res.nonce, &res.tag, &res.ciphertext).unwrap_err();
    assert_eq!(err, JournalError::AuthenticationFailed);
}

#[test]
fn bit_flip_in_ciphertext_fails_authentication() {
    let key = "testing-encryption";
    let res = encrypt(b"some plaintext", key).unwrap();
    let mut ct = res.ciphertext.clone();
    ct[0] ^= 0x01;
    let err = decrypt(key, &res.nonce, &res.tag, &ct).unwrap_err();
    assert_eq!(err, JournalError::AuthenticationFailed);
}

#[test]
fn bit_flip_in_tag_fails_authentication() {
    let key = "testing-encryption";
    let res = encrypt(b"some plaintext", key).unwrap();
    let mut tag = res.tag.clone();
    tag[3] ^= 0x80;
    let err = decrypt(key, &res.nonce, &tag, &res.ciphertext).unwrap_err();
    assert_eq!(err, JournalError::AuthenticationFailed);
}

#[test]
fn bit_flip_in_nonce_fails_authentication() {
    let key = "testing-encryption";
    let res = encrypt(b"some plaintext", key).unwrap();
    let mut nonce = res.nonce.clone();
    nonce[5] ^= 0x10;
    let err = decrypt(key, &nonce, &res.tag, &res.ciphertext).unwrap_err();
    assert_eq!(err, JournalError::AuthenticationFailed);
}

#[test]
fn short_key_is_padded_consistently() {
    // An 8-byte key works for both encryption and decryption.
    let key = "12345678";
    let res = encrypt(b"padded key data", key).unwrap();
    let back = decrypt(key, &res.nonce, &res.tag, &res.ciphertext).unwrap();
    assert_eq!(back, b"padded key data".to_vec());
}
