//! Workspaces and journal files.
//!
//! A `Journal` binds the raw bytes read from a journal file, the header
//! decoded from them, the file's entry, and an optional key. Reading the
//! bytes back decrypts the payload when the header marks it encrypted;
//! writing produces the full on-disk image, re-encrypted under a fresh
//! nonce when a key is present. The surrounding program does the actual
//! file reads and writes and hands the bytes through.

use vstd::prelude::*;
use vstd::slice::slice_to_vec;
use vstd::utf8::encode_utf8;

use crate::crypto;
use crate::crypto::aead_params_ok;
use crate::crypto::gcm_open;
use crate::crypto::key_valid;
use crate::crypto::normalized_key;
use crate::errors::JournalError;
use crate::fs::FileEntry;
use crate::header::spec_decode;
use crate::header::spec_encode;
use crate::header::spec_encrypted;
use crate::header::spec_nonce;
use crate::header::spec_size;
use crate::header::spec_tag;
use crate::header::Header;
use crate::header::HeaderV;
use crate::header::{lemma_encode_then_decode, wf};

verus! {

/// A named workspace: a group of journal files listed from one directory.
pub struct Workspace {
    /// Name of the workspace.
    pub name: String,
    /// The files (journals) in this workspace.
    pub files: Vec<FileEntry>,
}

impl Workspace {
    /// A workspace with the given name and files.
    pub fn new(name: String, files: Vec<FileEntry>) -> (r: Workspace)
        ensures
            r.name@ == name@,
            r.files@ == files@,
    {
        Workspace { name, files }
    }
}

/// The payload of a journal file: the bytes past the header.
pub open spec fn payload_of(contents: Seq<u8>, h: HeaderV) -> Seq<u8> {
    contents.skip(spec_size(h) as int)
}

/// Whether the file image `img`, read with key bytes `kb`, yields `content`:
/// its header decodes, and the payload — decrypted when the header says so —
/// is `content`.
pub open spec fn opens_with_key(img: Seq<u8>, kb: Seq<u8>, content: Seq<u8>) -> bool {
    match spec_decode(img) {
        Some(h) => {
            if spec_encrypted(h) {
                key_valid(kb) && gcm_open(
                    normalized_key(kb),
                    spec_nonce(h),
                    spec_tag(h),
                    payload_of(img, h),
                ) == Some(content)
            } else {
                payload_of(img, h) == content
            }
        },
        None => false,
    }
}

/// A journal file as read from disk: its entry, an optional key, the header
/// decoded from the leading bytes, and the raw bytes themselves.
#[derive(Debug)]
pub struct Journal {
    filepath: FileEntry,
    key: Option<String>,
    header: Header,
    contents: Vec<u8>,
}

impl Journal {
    /// The raw bytes the journal was opened with.
    pub closed spec fn contents_view(&self) -> Seq<u8> {
        self.contents@
    }

    /// The decoded header.
    pub closed spec fn header_view(&self) -> HeaderV {
        self.header@
    }

    /// The key the journal was opened with, if any.
    pub closed spec fn key_view(&self) -> Option<Seq<char>> {
        match self.key {
            Some(ref k) => Some(k@),
            None => None,
        }
    }

    /// The entry of the file the bytes were read from.
    pub closed spec fn filepath_view(&self) -> FileEntry {
        self.filepath
    }

    /// The header always is the one the raw bytes decode to.
    pub closed spec fn wf(&self) -> bool {
        spec_decode(self.contents@) == Some(self.header@) && wf(self.header@)
    }

    /// Opens a journal from the bytes read from its file: decodes the header
    /// and binds it with the raw bytes, the entry and the key.
    pub fn open(file_entry: &FileEntry, key: Option<String>, contents: Vec<u8>) -> (r: Result<
        Journal,
        JournalError,
    >)
        ensures
            match r {
                Ok(j) => {
                    &&& j.wf()
                    &&& spec_decode(contents@) == Some(j.header_view())
                    &&& j.contents_view() == contents@
                    &&& j.key_view() == key.deep_view()
                    &&& j.filepath_view().path_view() == file_entry.path_view()
                    &&& j.filepath_view().is_dir_view() == file_entry.is_dir_view()
                },
                Err(e) => spec_decode(contents@) is None && e == JournalError::MalformedHeader,
            },
    {
        let header = match Header::decode(contents.as_slice()) {
            Ok(h) => h,
            Err(e) => return Err(e),
        };
        Ok(Journal { filepath: file_entry.duplicate(), key, header, contents })
    }

    /// Whether the journal's header marks its payload encrypted.
    pub fn encrypted(&self) -> (r: bool)
        ensures
            r == spec_encrypted(self.header_view()),
    {
        self.header.encrypted()
    }

    /// The journal's plaintext bytes.
    ///
    /// For an unencrypted journal this is the payload past the header,
    /// unchanged. For an encrypted one a key is required (`MissingKey`
    /// otherwise), must be of valid length (`KeyInvalid` otherwise), and the
    /// payload is decrypted; a tag that does not authenticate fails with
    /// `AuthenticationFailed` and no bytes are returned.
    pub fn bytes(&self) -> (r: Result<Vec<u8>, JournalError>)
        requires
            self.wf(),
        ensures
            match r {
                Ok(p) => self.spec_bytes_ok(p@),
                Err(e) => self.spec_bytes_err(e),
            },
    {
        let size = self.header.size();
        let data = slice_suffix(self.contents.as_slice(), size);
        if !self.header.encrypted() {
            return Ok(slice_to_vec(data));
        }
        let key = match self.key {
            Some(ref k) => k,
            None => return Err(JournalError::MissingKey),
        };
        let nonce: &Vec<u8>;
        let tag: &Vec<u8>;
        match &self.header {
            Header::Legacy => {
                proof {
                    assert(false);  // a legacy header is never marked encrypted
                }
                return unreached();
            },
            Header::V1 { nonce: n, tag: t, .. } => {
                nonce = n;
                tag = t;
            },
        }
        crypto::decrypt(key.as_str(), nonce.as_slice(), tag.as_slice(), data)
    }

    /// What a successful `bytes` call returns.
    pub open spec fn spec_bytes_ok(&self, p: Seq<u8>) -> bool {
        let h = self.header_view();
        let payload = payload_of(self.contents_view(), h);
        if !spec_encrypted(h) {
            p == payload
        } else {
            match self.key_view() {
                Some(k) => {
                    let kb = encode_utf8(k);
                    &&& key_valid(kb)
                    &&& aead_params_ok(spec_nonce(h), spec_tag(h), payload)
                    &&& gcm_open(normalized_key(kb), spec_nonce(h), spec_tag(h), payload)
                        == Some(p)
                },
                None => false,
            }
        }
    }

    /// When and how a `bytes` call fails.
    pub open spec fn spec_bytes_err(&self, e: JournalError) -> bool {
        let h = self.header_view();
        let payload = payload_of(self.contents_view(), h);
        &&& spec_encrypted(h)
        &&& match self.key_view() {
            None => e == JournalError::MissingKey,
            Some(k) => {
                let kb = encode_utf8(k);
                if !key_valid(kb) {
                    e == JournalError::KeyInvalid
                } else if !aead_params_ok(spec_nonce(h), spec_tag(h), payload) {
                    e == JournalError::AuthenticationFailed
                } else {
                    e == JournalError::AuthenticationFailed && gcm_open(
                        normalized_key(kb),
                        spec_nonce(h),
                        spec_tag(h),
                        payload,
                    ) is None
                }
            },
        }
    }

    /// The full on-disk image for a journal with the given content.
    ///
    /// With no key the content is stored as is. With a key the content is
    /// encrypted under a fresh random nonce and prefixed with a new header,
    /// so every successful write changes the stored nonce and tag even when
    /// the content did not change. Fails with `KeyInvalid` exactly when the
    /// key's byte length lies outside [8, 32].
    pub fn write(key: Option<&String>, content: &[u8]) -> (r: Result<Vec<u8>, JournalError>)
        ensures
            match r {
                Ok(img) => match key {
                    None => img@ == content@,
                    Some(k) => {
                        &&& opens_with_key(img@, encode_utf8(k@), content@)
                        &&& spec_encrypted(spec_decode(img@)->Some_0)
                        &&& aead_params_ok(
                            spec_nonce(spec_decode(img@)->Some_0),
                            spec_tag(spec_decode(img@)->Some_0),
                            payload_of(img@, spec_decode(img@)->Some_0),
                        )
                    },
                },
                Err(e) => {
                    &&& key is Some
                    &&& (e == JournalError::KeyInvalid <==> !key_valid(
                        encode_utf8(key->Some_0@),
                    ))
                    &&& (e == JournalError::KeyInvalid || e == JournalError::IoFailure)
                },
            },
    {
        let key = match key {
            Some(k) => k,
            None => return Ok(slice_to_vec(content)),
        };
        let res = match crypto::encrypt(content, key.as_str()) {
            Ok(res) => res,
            Err(e) => return Err(e),
        };
        let header = Header::new_encrypted(res.nonce, res.tag);
        let mut img = header.encode();
        img.extend_from_slice(res.ciphertext.as_slice());
        proof {
            let h = header@;
            lemma_encode_then_decode(h, res.ciphertext@);
            assert(img@ =~= spec_encode(h) + res.ciphertext@);
        }
        Ok(img)
    }
}

/// Law: reading back what was written. A well-formed journal whose raw
/// bytes open to `content` under the journal's own key — as the image
/// `write` produces does — can only yield `content`: every successful
/// `bytes` result is `content`, and no failure is possible.
pub proof fn lemma_read_back(j: Journal, content: Seq<u8>)
    requires
        j.wf(),
        j.key_view() matches Some(k) && opens_with_key(
            j.contents_view(),
            encode_utf8(k),
            content,
        ),
        spec_encrypted(j.header_view()) ==> aead_params_ok(
            spec_nonce(j.header_view()),
            spec_tag(j.header_view()),
            payload_of(j.contents_view(), j.header_view()),
        ),
    ensures
        forall|p: Seq<u8>| j.spec_bytes_ok(p) ==> p == content,
        forall|e: JournalError| !j.spec_bytes_err(e),
{
    let h = j.header_view();
    let k = j.key_view()->Some_0;
    let kb = encode_utf8(k);
    let payload = payload_of(j.contents_view(), h);
    assert(spec_decode(j.contents_view()) == Some(h));
    if spec_encrypted(h) {
        assert(key_valid(kb));
        assert(gcm_open(normalized_key(kb), spec_nonce(h), spec_tag(h), payload) == Some(content));
        assert forall|e: JournalError| !j.spec_bytes_err(e) by {}
    } else {
        assert(payload == content);
    }
}

/// The suffix of a slice from `from` on.
fn slice_suffix<'a>(s: &'a [u8], from: usize) -> (r: &'a [u8])
    requires
        from <= s@.len(),
    ensures
        r@ == s@.skip(from as int),
{
    let r = s.split_at(from).1;
    proof {
        assert(r@ =~= s@.skip(from as int));
    }
    r
}

} // verus!
