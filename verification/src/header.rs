//! The fixed-layout header prefixed to every on-disk journal file.
//!
//! Layout, offsets relative to the file start:
//! ```text
//! byte 0:    version   (FORMAT_VERSION; anything else means legacy, header size 0)
//! byte 1:    flags     (bit 7 = encrypted)
//! if the encrypted bit is set:
//! byte 2:    nonce_len
//! byte 3:    tag_len
//! bytes 4..: nonce (nonce_len bytes), then tag (tag_len bytes)
//! remaining: ciphertext (or plaintext if not encrypted)
//! ```

use vstd::prelude::*;

use crate::errors::JournalError;

verus! {

/// The version byte that opens a current-format header.
pub const FORMAT_VERSION: u8 = 0x01;

/// The bit of the flags byte that marks an encrypted payload.
pub const FLAG_ENCRYPTED: u8 = 0x80;

/// A decoded journal-file header. A file written before the format existed
/// has no header at all: the whole buffer is payload (`Legacy`).
#[derive(Debug)]
pub enum Header {
    /// No recognized header; the payload starts at byte 0.
    Legacy,
    /// A current-format header: a flags byte and, when the encrypted bit is
    /// set, the nonce and tag stored alongside the ciphertext.
    V1 { flags: u8, nonce: Vec<u8>, tag: Vec<u8> },
}

/// The mathematical model of a `Header`.
pub enum HeaderV {
    Legacy,
    V1 { flags: u8, nonce: Seq<u8>, tag: Seq<u8> },
}

impl View for Header {
    type V = HeaderV;

    open spec fn view(&self) -> HeaderV {
        match self {
            Header::Legacy => HeaderV::Legacy,
            Header::V1 { flags, nonce, tag } => HeaderV::V1 {
                flags: *flags,
                nonce: nonce@,
                tag: tag@,
            },
        }
    }
}

/// Whether the header marks the payload as encrypted.
pub open spec fn spec_encrypted(h: HeaderV) -> bool {
    match h {
        HeaderV::Legacy => false,
        HeaderV::V1 { flags, .. } => flags & FLAG_ENCRYPTED != 0,
    }
}

/// The nonce a header stores; empty for a legacy or unencrypted header.
pub open spec fn spec_nonce(h: HeaderV) -> Seq<u8> {
    match h {
        HeaderV::Legacy => Seq::empty(),
        HeaderV::V1 { nonce, .. } => nonce,
    }
}

/// The tag a header stores; empty for a legacy or unencrypted header.
pub open spec fn spec_tag(h: HeaderV) -> Seq<u8> {
    match h {
        HeaderV::Legacy => Seq::empty(),
        HeaderV::V1 { tag, .. } => tag,
    }
}

/// A well-formed header: length fields fit in one byte each, and an
/// unencrypted header carries no nonce or tag.
pub open spec fn wf(h: HeaderV) -> bool {
    match h {
        HeaderV::Legacy => true,
        HeaderV::V1 { flags, nonce, tag } => {
            &&& nonce.len() <= 255
            &&& tag.len() <= 255
            &&& (flags & FLAG_ENCRYPTED == 0 ==> nonce.len() == 0 && tag.len() == 0)
        },
    }
}

/// The number of leading bytes the header occupies: exactly the bytes that
/// must be stripped before the payload begins.
pub open spec fn spec_size(h: HeaderV) -> nat {
    match h {
        HeaderV::Legacy => 0,
        HeaderV::V1 { flags, nonce, tag } => {
            if flags & FLAG_ENCRYPTED != 0 {
                4 + nonce.len() + tag.len()
            } else {
                2
            }
        },
    }
}

/// The bytes a header encodes to.
pub open spec fn spec_encode(h: HeaderV) -> Seq<u8> {
    match h {
        HeaderV::Legacy => Seq::empty(),
        HeaderV::V1 { flags, nonce, tag } => {
            if flags & FLAG_ENCRYPTED != 0 {
                seq![FORMAT_VERSION, flags, nonce.len() as u8, tag.len() as u8] + nonce + tag
            } else {
                seq![FORMAT_VERSION, flags]
            }
        },
    }
}

/// The header a buffer decodes to, or `None` when the buffer opens with the
/// current version byte but is shorter than the lengths it declares.
pub open spec fn spec_decode(b: Seq<u8>) -> Option<HeaderV> {
    if b.len() == 0 || b[0] != FORMAT_VERSION {
        Some(HeaderV::Legacy)
    } else if b.len() < 2 {
        None
    } else {
        let flags = b[1];
        if flags & FLAG_ENCRYPTED == 0 {
            Some(HeaderV::V1 { flags, nonce: Seq::empty(), tag: Seq::empty() })
        } else if b.len() < 4 {
            None
        } else {
            let nonce_len = b[2] as int;
            let tag_len = b[3] as int;
            if b.len() < 4 + nonce_len + tag_len {
                None
            } else {
                Some(HeaderV::V1 {
                    flags,
                    nonce: b.subrange(4, 4 + nonce_len),
                    tag: b.subrange(4 + nonce_len, 4 + nonce_len + tag_len),
                })
            }
        }
    }
}

impl Header {
    /// The header of a legacy (or unencrypted, headerless) file.
    pub fn empty() -> (r: Header)
        ensures
            r@ == HeaderV::Legacy,
    {
        Header::Legacy
    }

    /// A fresh current-format header for an encrypted payload.
    pub fn new_encrypted(nonce: Vec<u8>, tag: Vec<u8>) -> (r: Header)
        requires
            nonce@.len() <= 255,
            tag@.len() <= 255,
        ensures
            r@ == (HeaderV::V1 { flags: FLAG_ENCRYPTED, nonce: nonce@, tag: tag@ }),
            wf(r@),
            spec_encrypted(r@),
    {
        proof {
            assert(FLAG_ENCRYPTED & FLAG_ENCRYPTED != 0) by (bit_vector);
        }
        Header::V1 { flags: FLAG_ENCRYPTED, nonce, tag }
    }

    /// Whether this header marks the payload as encrypted.
    pub fn encrypted(&self) -> (r: bool)
        ensures
            r == spec_encrypted(self@),
    {
        match self {
            Header::Legacy => false,
            Header::V1 { flags, .. } => *flags & FLAG_ENCRYPTED != 0,
        }
    }

    /// The header's byte length: the offset at which the payload begins.
    pub fn size(&self) -> (r: usize)
        requires
            wf(self@),
        ensures
            r == spec_size(self@),
    {
        match self {
            Header::Legacy => 0,
            Header::V1 { flags, nonce, tag } => {
                if *flags & FLAG_ENCRYPTED != 0 {
                    4 + nonce.len() + tag.len()
                } else {
                    2
                }
            },
        }
    }

    /// Encodes the header: the exact leading bytes of the on-disk file.
    pub fn encode(&self) -> (r: Vec<u8>)
        requires
            wf(self@),
        ensures
            r@ == spec_encode(self@),
            r@.len() == spec_size(self@),
    {
        match self {
            Header::Legacy => Vec::new(),
            Header::V1 { flags, nonce, tag } => {
                let mut buf: Vec<u8> = Vec::new();
                buf.push(FORMAT_VERSION);
                buf.push(*flags);
                if *flags & FLAG_ENCRYPTED != 0 {
                    buf.push(nonce.len() as u8);
                    buf.push(tag.len() as u8);
                    buf.extend_from_slice(nonce.as_slice());
                    buf.extend_from_slice(tag.as_slice());
                    proof {
                        assert(buf@ =~= spec_encode(self@));
                    }
                } else {
                    proof {
                        assert(buf@ =~= spec_encode(self@));
                    }
                }
                buf
            },
        }
    }

    /// Decodes the leading bytes of a journal file.
    ///
    /// A buffer that does not open with the current version byte is a legacy
    /// file: the result has size 0 and the whole buffer is payload. A buffer
    /// that declares more header bytes than it holds is rejected.
    pub fn decode(value: &[u8]) -> (r: Result<Header, JournalError>)
        ensures
            match r {
                Ok(h) => spec_decode(value@) == Some(h@) && wf(h@),
                Err(e) => spec_decode(value@) is None && e == JournalError::MalformedHeader,
            },
            value@.len() == 0 || value@[0] != FORMAT_VERSION ==> (r matches Ok(h) && h@
                == HeaderV::Legacy),
    {
        if value.len() == 0 || value[0] != FORMAT_VERSION {
            return Ok(Header::Legacy);
        }
        if value.len() < 2 {
            return Err(JournalError::MalformedHeader);
        }
        let flags = value[1];
        if flags & FLAG_ENCRYPTED == 0 {
            return Ok(Header::V1 { flags, nonce: Vec::new(), tag: Vec::new() });
        }
        if value.len() < 4 {
            return Err(JournalError::MalformedHeader);
        }
        let nonce_len = value[2] as usize;
        let tag_len = value[3] as usize;
        if value.len() < 4 + nonce_len + tag_len {
            return Err(JournalError::MalformedHeader);
        }
        let mut nonce: Vec<u8> = Vec::new();
        let mut tag: Vec<u8> = Vec::new();
        let mut i: usize = 4;
        while i < 4 + nonce_len
            invariant
                nonce_len <= 255,
                tag_len <= 255,
                4 <= i <= 4 + nonce_len,
                4 + nonce_len + tag_len <= value@.len(),
                nonce@ == value@.subrange(4, i as int),
            decreases 4 + nonce_len - i,
        {
            nonce.push(value[i]);
            i = i + 1;
            proof {
                assert(nonce@ =~= value@.subrange(4, i as int));
            }
        }
        let mut j: usize = 4 + nonce_len;
        while j < 4 + nonce_len + tag_len
            invariant
                nonce_len <= 255,
                tag_len <= 255,
                4 + nonce_len <= j <= 4 + nonce_len + tag_len,
                4 + nonce_len + tag_len <= value@.len(),
                tag@ == value@.subrange(4 + nonce_len as int, j as int),
            decreases 4 + nonce_len + tag_len - j,
        {
            tag.push(value[j]);
            j = j + 1;
            proof {
                assert(tag@ =~= value@.subrange(4 + nonce_len as int, j as int));
            }
        }
        Ok(Header::V1 { flags, nonce, tag })
    }
}

/// Round trip: re-encoding a decoded header reproduces exactly the leading
/// bytes it was decoded from; the rest of the buffer is the payload.
pub proof fn lemma_decode_then_encode(b: Seq<u8>)
    requires
        spec_decode(b) is Some,
    ensures
        spec_size(spec_decode(b)->Some_0) <= b.len(),
        spec_encode(spec_decode(b)->Some_0) == b.take(spec_size(spec_decode(b)->Some_0) as int),
{
    let h = spec_decode(b)->Some_0;
    match h {
        HeaderV::Legacy => {
            assert(spec_encode(h) =~= b.take(0));
        },
        HeaderV::V1 { flags, nonce, tag } => {
            assert(b.len() >= 2 && b[0] == FORMAT_VERSION && b[1] == flags);
            if flags & FLAG_ENCRYPTED == 0 {
                assert(spec_encode(h) =~= b.take(2));
            } else {
                assert(spec_encode(h) =~= b.take(spec_size(h) as int));
            }
        },
    }
}

/// Round trip in the other direction: a well-formed header followed by any
/// payload decodes back to the same header. A legacy header needs a payload
/// that does not itself begin with the current version byte.
pub proof fn lemma_encode_then_decode(h: HeaderV, payload: Seq<u8>)
    requires
        wf(h),
        h is Legacy ==> payload.len() == 0 || payload[0] != FORMAT_VERSION,
    ensures
        spec_decode(spec_encode(h) + payload) == Some(h),
        (spec_encode(h) + payload).skip(spec_size(h) as int) == payload,
{
    let b = spec_encode(h) + payload;
    match h {
        HeaderV::Legacy => {
            assert(b =~= payload);
            assert(b.skip(0) =~= payload);
        },
        HeaderV::V1 { flags, nonce, tag } => {
            if flags & FLAG_ENCRYPTED == 0 {
                assert(b[0] == FORMAT_VERSION && b[1] == flags);
                assert(spec_decode(b) == Some(HeaderV::V1 {
                    flags,
                    nonce: Seq::<u8>::empty(),
                    tag: Seq::<u8>::empty(),
                }));
                assert(nonce =~= Seq::<u8>::empty());
                assert(tag =~= Seq::<u8>::empty());
                assert(b.skip(2) =~= payload);
            } else {
                assert(b[0] == FORMAT_VERSION && b[1] == flags);
                assert(b[2] == nonce.len() as u8 && b[3] == tag.len() as u8);
                assert(b.len() == 4 + nonce.len() + tag.len() + payload.len());
                assert(b.subrange(4, 4 + nonce.len() as int) =~= nonce);
                assert(b.subrange(4 + nonce.len() as int, 4 + nonce.len() + tag.len() as int)
                    =~= tag);
                assert(b.skip(spec_size(h) as int) =~= payload);
            }
        },
    }
}

} // verus!
