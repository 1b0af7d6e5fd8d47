//! Authenticated encryption for journal payloads: AES-256-GCM with an empty
//! AAD, a fresh random nonce per encryption, and key normalization from a
//! user-supplied key string.
//!
//! Encryption and decryption are specified through three names for what the
//! cipher computes: `gcm_cipher` and `gcm_tag` for the two halves of sealing,
//! and `gcm_open` for opening. Sealing's contract ties them together, so
//! decrypting what encrypt produced provably returns the original plaintext.

use vstd::prelude::*;
use vstd::utf8::encode_utf8;

use crate::errors::JournalError;

verus! {

/// The fixed key length the cipher uses; shorter key strings are padded.
pub const KEY_LEN: usize = 32;

/// The nonce length AES-256-GCM requires.
pub const NONCE_LEN: usize = 12;

/// The authentication tag length AES-256-GCM produces.
pub const TAG_LEN: usize = 16;

/// The longest input ring's AES-GCM accepts.
pub const MAX_PLAINTEXT_LEN: u64 = 68719476704;

/// A key string is usable when its byte length lies in [8, 32].
pub open spec fn key_valid(key_bytes: Seq<u8>) -> bool {
    8 <= key_bytes.len() <= KEY_LEN
}

/// The fixed-length key: the key string's bytes padded with trailing zeros.
pub open spec fn normalized_key(key_bytes: Seq<u8>) -> Seq<u8>
    recommends
        key_bytes.len() <= KEY_LEN,
{
    key_bytes + Seq::new((KEY_LEN - key_bytes.len()) as nat, |i| 0u8)
}

/// The parameter shapes under which the cipher can run at all.
pub open spec fn aead_params_ok(nonce: Seq<u8>, tag: Seq<u8>, data: Seq<u8>) -> bool {
    nonce.len() == NONCE_LEN && tag.len() == TAG_LEN && data.len() <= MAX_PLAINTEXT_LEN
}

/// The ciphertext AES-256-GCM sealing produces for a key, nonce and plaintext.
pub uninterp spec fn gcm_cipher(key: Seq<u8>, nonce: Seq<u8>, plaintext: Seq<u8>) -> Seq<u8>;

/// The authentication tag AES-256-GCM sealing produces for a key, nonce and
/// plaintext.
pub uninterp spec fn gcm_tag(key: Seq<u8>, nonce: Seq<u8>, plaintext: Seq<u8>) -> Seq<u8>;

/// What AES-256-GCM opening returns for a key, nonce, tag and ciphertext:
/// the plaintext when the tag authenticates, nothing otherwise.
pub uninterp spec fn gcm_open(
    key: Seq<u8>,
    nonce: Seq<u8>,
    tag: Seq<u8>,
    ciphertext: Seq<u8>,
) -> Option<Seq<u8>>;

/// What one call to `encrypt` produced. The nonce and tag must be stored
/// alongside the ciphertext: they cannot be derived later.
#[derive(Debug)]
pub struct EncryptionResult {
    /// The encrypted data.
    pub ciphertext: Vec<u8>,
    /// A nonce generated during encryption.
    pub nonce: Vec<u8>,
    /// The authentication tag produced during encryption.
    pub tag: Vec<u8>,
}

/// Relies on ring's AES-256-GCM sealing with an empty AAD
/// (`ring::aead::LessSafeKey::seal_in_place_separate_tag`): the result is a
/// function of key, nonce and plaintext alone; the ciphertext is as long as
/// the plaintext, the tag is 16 bytes, and opening the sealed pair under the
/// same key and nonce yields the plaintext back. Per ring's source the only
/// failure is an input beyond the algorithm's length limit, which the
/// precondition rules out.
#[verifier::external_body]
fn aead_seal(key: &Vec<u8>, nonce: &Vec<u8>, data: &[u8]) -> (r: (Vec<u8>, Vec<u8>))
    requires
        key@.len() == KEY_LEN,
        nonce@.len() == NONCE_LEN,
        data@.len() <= MAX_PLAINTEXT_LEN,
    ensures
        r.0@ == gcm_cipher(key@, nonce@, data@),
        r.1@ == gcm_tag(key@, nonce@, data@),
        r.0@.len() == data@.len(),
        r.1@.len() == TAG_LEN,
        gcm_open(key@, nonce@, r.1@, r.0@) == Some(data@),
{
    let unbound = ring::aead::UnboundKey::new(&ring::aead::AES_256_GCM, key.as_slice()).unwrap();
    let sealing = ring::aead::LessSafeKey::new(unbound);
    let n = ring::aead::Nonce::try_assume_unique_for_key(nonce.as_slice()).unwrap();
    let mut buf = data.to_vec();
    let tag = sealing.seal_in_place_separate_tag(n, ring::aead::Aad::empty(), &mut buf).unwrap();
    (buf, tag.as_ref().to_vec())
}

/// Relies on ring's AES-256-GCM opening with an empty AAD
/// (`ring::aead::LessSafeKey::open_in_place`): the outcome is a function of
/// key, nonce, tag and ciphertext alone; it succeeds exactly when the tag
/// authenticates the ciphertext, and on failure exposes no plaintext.
#[verifier::external_body]
fn aead_open(key: &Vec<u8>, nonce: &[u8], tag: &[u8], data: &[u8]) -> (r: Result<
    Vec<u8>,
    JournalError,
>)
    requires
        key@.len() == KEY_LEN,
        nonce@.len() == NONCE_LEN,
        tag@.len() == TAG_LEN,
        data@.len() <= MAX_PLAINTEXT_LEN,
    ensures
        match r {
            Ok(p) => gcm_open(key@, nonce@, tag@, data@) == Some(p@),
            Err(e) => gcm_open(key@, nonce@, tag@, data@) is None && e
                == JournalError::AuthenticationFailed,
        },
{
    let unbound = match ring::aead::UnboundKey::new(&ring::aead::AES_256_GCM, key.as_slice()) {
        Ok(k) => k,
        Err(_) => return Err(JournalError::AuthenticationFailed),
    };
    let opening = ring::aead::LessSafeKey::new(unbound);
    let n = match ring::aead::Nonce::try_assume_unique_for_key(nonce) {
        Ok(n) => n,
        Err(_) => return Err(JournalError::AuthenticationFailed),
    };
    let mut buf = [data, tag].concat();
    match opening.open_in_place(n, ring::aead::Aad::empty(), &mut buf) {
        Ok(plaintext) => Ok(plaintext.to_vec()),
        Err(_) => Err(JournalError::AuthenticationFailed),
    }
}

/// Relies on ring::rand::SystemRandom::fill: on success the buffer holds
/// `NONCE_LEN` bytes from the system's entropy source; nothing is assumed of
/// their values.
#[verifier::external_body]
fn random_nonce() -> (r: Result<Vec<u8>, JournalError>)
    ensures
        r matches Ok(v) ==> v@.len() == NONCE_LEN,
        r matches Err(e) ==> e == JournalError::IoFailure,
{
    let rng = ring::rand::SystemRandom::new();
    let mut buf = vec![0u8; ring::aead::NONCE_LEN];
    match ring::rand::SecureRandom::fill(&rng, &mut buf) {
        Ok(()) => Ok(buf),
        Err(_) => Err(JournalError::IoFailure),
    }
}

/// Normalizes a key string into the fixed-length key: rejects byte lengths
/// outside [8, 32], pads shorter keys with trailing zero bytes.
fn get_key(key_str: &str) -> (r: Result<Vec<u8>, JournalError>)
    ensures
        match r {
            Ok(k) => key_valid(encode_utf8(key_str@)) && k@ == normalized_key(
                encode_utf8(key_str@),
            ) && k@.len() == KEY_LEN,
            Err(e) => e == JournalError::KeyInvalid && !key_valid(encode_utf8(key_str@)),
        },
{
    let bytes = key_str.as_bytes();
    let n = bytes.len();
    if n < 8 || n > KEY_LEN {
        return Err(JournalError::KeyInvalid);
    }
    let mut key: Vec<u8> = Vec::new();
    key.extend_from_slice(bytes);
    while key.len() < KEY_LEN
        invariant
            n <= key@.len() <= KEY_LEN,
            n == encode_utf8(key_str@).len(),
            key@ == encode_utf8(key_str@) + Seq::new((key@.len() - n) as nat, |i| 0u8),
        decreases KEY_LEN - key@.len(),
    {
        key.push(0u8);
        proof {
            assert(key@ =~= encode_utf8(key_str@) + Seq::new(
                (key@.len() - n) as nat,
                |i| 0u8,
            ));
        }
    }
    proof {
        assert(key@ =~= normalized_key(encode_utf8(key_str@)));
    }
    Ok(key)
}

/// Encrypts `data` under the given key string and nonce.
///
/// Fails with `KeyInvalid` exactly when the key string's byte length lies
/// outside [8, 32], and with `IoFailure` exactly when the plaintext exceeds
/// the cipher's input limit; on every other input it succeeds, and the result
/// seals `data`: opening it under the same key and nonce yields `data` back.
pub fn encrypt_with_nonce(data: &[u8], key: &str, nonce: Vec<u8>) -> (r: Result<
    EncryptionResult,
    JournalError,
>)
    requires
        nonce@.len() == NONCE_LEN,
    ensures
        ({
            let kb = encode_utf8(key@);
            match r {
                Ok(res) => {
                    &&& key_valid(kb)
                    &&& data@.len() <= MAX_PLAINTEXT_LEN
                    &&& res.nonce@ == nonce@
                    &&& res.ciphertext@ == gcm_cipher(normalized_key(kb), nonce@, data@)
                    &&& res.tag@ == gcm_tag(normalized_key(kb), nonce@, data@)
                    &&& res.ciphertext@.len() == data@.len()
                    &&& res.tag@.len() == TAG_LEN
                    &&& gcm_open(normalized_key(kb), nonce@, res.tag@, res.ciphertext@) == Some(
                        data@,
                    )
                },
                Err(e) => {
                    &&& (e == JournalError::KeyInvalid <==> !key_valid(kb))
                    &&& (e == JournalError::IoFailure <==> key_valid(kb) && data@.len()
                        > MAX_PLAINTEXT_LEN)
                    &&& (e == JournalError::KeyInvalid || e == JournalError::IoFailure)
                },
            }
        }),
{
    let k = match get_key(key) {
        Ok(k) => k,
        Err(e) => return Err(e),
    };
    if data.len() as u64 > MAX_PLAINTEXT_LEN {
        return Err(JournalError::IoFailure);
    }
    let (ciphertext, tag) = aead_seal(&k, &nonce, data);
    Ok(EncryptionResult { ciphertext, nonce, tag })
}

/// Encrypts `data` under the given key string with a fresh random nonce.
///
/// Fails with `KeyInvalid` exactly when the key string's byte length lies
/// outside [8, 32]. On success the result seals `data`: decrypting the
/// ciphertext with the same key and the returned nonce and tag yields `data`.
pub fn encrypt(data: &[u8], key: &str) -> (r: Result<EncryptionResult, JournalError>)
    ensures
        ({
            let kb = encode_utf8(key@);
            match r {
                Ok(res) => {
                    &&& key_valid(kb)
                    &&& data@.len() <= MAX_PLAINTEXT_LEN
                    &&& res.nonce@.len() == NONCE_LEN
                    &&& res.ciphertext@ == gcm_cipher(normalized_key(kb), res.nonce@, data@)
                    &&& res.tag@ == gcm_tag(normalized_key(kb), res.nonce@, data@)
                    &&& res.ciphertext@.len() == data@.len()
                    &&& res.tag@.len() == TAG_LEN
                    &&& gcm_open(normalized_key(kb), res.nonce@, res.tag@, res.ciphertext@)
                        == Some(data@)
                },
                Err(e) => {
                    &&& (!key_valid(kb) ==> e == JournalError::KeyInvalid)
                    &&& (e == JournalError::KeyInvalid ==> !key_valid(kb))
                    &&& (e == JournalError::KeyInvalid || e == JournalError::IoFailure)
                },
            }
        }),
{
    match get_key(key) {
        Ok(_) => (),
        Err(e) => return Err(e),
    };
    let nonce = match random_nonce() {
        Ok(n) => n,
        Err(e) => return Err(e),
    };
    encrypt_with_nonce(data, key, nonce)
}

/// Decrypts a stored ciphertext with its stored nonce and tag.
///
/// Fails with `KeyInvalid` exactly when the key string's byte length lies
/// outside [8, 32]. With a valid key it returns `Ok` exactly when the tag
/// authenticates the ciphertext under that key and nonce — so on what
/// `encrypt` produced it returns the original plaintext — and fails with
/// `AuthenticationFailed` otherwise, never returning altered plaintext.
pub fn decrypt(key: &str, nonce: &[u8], tag: &[u8], data: &[u8]) -> (r: Result<
    Vec<u8>,
    JournalError,
>)
    ensures
        ({
            let kb = encode_utf8(key@);
            &&& (!key_valid(kb) ==> (r matches Err(e) && e == JournalError::KeyInvalid))
            &&& (key_valid(kb) && aead_params_ok(nonce@, tag@, data@) ==> match r {
                Ok(p) => gcm_open(normalized_key(kb), nonce@, tag@, data@) == Some(p@),
                Err(e) => e == JournalError::AuthenticationFailed && gcm_open(
                    normalized_key(kb),
                    nonce@,
                    tag@,
                    data@,
                ) is None,
            })
            &&& (key_valid(kb) && !aead_params_ok(nonce@, tag@, data@) ==> (r matches Err(e) && e
                == JournalError::AuthenticationFailed))
            &&& (r matches Ok(p) ==> key_valid(kb) && aead_params_ok(nonce@, tag@, data@)
                && gcm_open(normalized_key(kb), nonce@, tag@, data@) == Some(p@))
        }),
{
    let k = match get_key(key) {
        Ok(k) => k,
        Err(e) => return Err(e),
    };
    if nonce.len() != NONCE_LEN || tag.len() != TAG_LEN || data.len() as u64 > MAX_PLAINTEXT_LEN {
        return Err(JournalError::AuthenticationFailed);
    }
    aead_open(&k, nonce, tag, data)
}

} // verus!
