//! Content digests and the library's view of directory entries.
//!
//! A `FileEntry` holds what the logic reads of a filesystem path — the path
//! text and whether it names a directory — as plain values. The surrounding
//! program constructs entries from real paths and performs the actual I/O.

use vstd::prelude::*;
use vstd::utf8::encode_utf8;
use vstd::utf8::is_ascii_chars;
use vstd::utf8::is_ascii_chars_encode_utf8;

use crate::errors::JournalError;

verus! {

/// The SHA-256 digest of a byte string.
pub uninterp spec fn sha256_of(data: Seq<u8>) -> Seq<u8>;

/// The lowercase hex digit for a nibble, as a byte.
pub open spec fn hex_digit(n: u8) -> u8
    recommends
        n < 16,
{
    if n < 10 {
        (48 + n) as u8
    } else {
        (87 + n) as u8
    }
}

/// Lowercase hex encoding of a byte string, as bytes: two digits per byte,
/// high nibble first.
pub open spec fn hex_bytes_of(data: Seq<u8>) -> Seq<u8> {
    Seq::new(
        2 * data.len(),
        |i: int| if i % 2 == 0 {
            hex_digit(data[i / 2] / 16)
        } else {
            hex_digit(data[i / 2] % 16)
        },
    )
}

/// Lowercase hex encoding of a byte string, as text.
pub open spec fn hex_chars_of(data: Seq<u8>) -> Seq<char> {
    hex_bytes_of(data).map_values(|b: u8| b as char)
}

/// Hex text is ASCII, and its UTF-8 bytes are exactly the hex bytes.
pub proof fn lemma_hex_chars_bytes(data: Seq<u8>)
    ensures
        is_ascii_chars(hex_chars_of(data)),
        encode_utf8(hex_chars_of(data)) == hex_bytes_of(data),
{
    let chars = hex_chars_of(data);
    assert forall|i| 0 <= i < chars.len() implies '\0' <= #[trigger] chars[i] <= '\u{7f}' by {
        let b = hex_bytes_of(data)[i];
        assert(b < 128);
        assert('\0' <= b as char <= '\u{7f}');
    }
    is_ascii_chars_encode_utf8(chars);
    assert forall|i| 0 <= i < chars.len() implies #[trigger] encode_utf8(chars)[i] == hex_bytes_of(
        data,
    )[i] by {
        let b = hex_bytes_of(data)[i];
        assert(b < 128);
        assert(chars[i] as u8 == b);
    }
    assert(encode_utf8(chars) =~= hex_bytes_of(data));
}

/// Relies on ring::digest::digest with SHA-256: the digest is a function of
/// the input alone and is 32 bytes long.
#[verifier::external_body]
fn sha256(data: &[u8]) -> (r: Vec<u8>)
    ensures
        r@ == sha256_of(data@),
        r@.len() == 32,
{
    ring::digest::digest(&ring::digest::SHA256, data).as_ref().to_vec()
}

/// Relies on data_encoding::HEXLOWER.encode: each byte becomes two lowercase
/// hex digits, high nibble first.
#[verifier::external_body]
fn hex_lower(data: &[u8]) -> (r: String)
    ensures
        r@ == hex_chars_of(data@),
{
    data_encoding::HEXLOWER.encode(data)
}

/// The lowercase hex SHA-256 digest of `data`, used as a content address.
pub fn digest(data: &[u8]) -> (r: Result<String, JournalError>)
    ensures
        r matches Ok(s) && s@ == hex_chars_of(sha256_of(data@)),
        r matches Ok(s) && s@.len() == 64,
{
    let d = sha256(data);
    let s = hex_lower(d.as_slice());
    Ok(s)
}

/// The lowercase hex SHA-256 digest of `data`, as bytes.
pub fn digest_bytes(data: &[u8]) -> (r: Vec<u8>)
    ensures
        r@ == hex_bytes_of(sha256_of(data@)),
        r@.len() == 64,
{
    let d = sha256(data);
    let s = hex_lower(d.as_slice());
    let bytes = s.as_str().as_bytes_vec();
    proof {
        lemma_hex_chars_bytes(sha256_of(data@));
    }
    bytes
}

/// The path with its trailing '/' characters removed; path APIs ignore
/// them when naming the last component.
pub open spec fn spec_trim_slashes(path: Seq<char>) -> Seq<char>
    decreases path.len(),
{
    if path.len() > 0 && path[path.len() - 1] == '/' {
        spec_trim_slashes(path.drop_last())
    } else {
        path
    }
}

/// The start of the last-component suffix: one past the last '/' in the
/// path, or 0 when the path holds none.
pub open spec fn spec_name_start(path: Seq<char>) -> int
    decreases path.len(),
{
    if path.len() == 0 {
        0
    } else if path[path.len() - 1] == '/' {
        path.len() as int
    } else {
        spec_name_start(path.drop_last())
    }
}

/// The file name of a path: the text after the last '/', ignoring trailing
/// slashes. A path whose last component is `.` or `..` is outside this
/// model: path APIs resolve those components instead of naming them.
pub open spec fn spec_filename(path: Seq<char>) -> Seq<char> {
    let p = spec_trim_slashes(path);
    p.subrange(spec_name_start(p), p.len() as int)
}

/// The start of the last-component suffix lies where the scan stopped.
proof fn lemma_name_start_at(path: Seq<char>, i: int)
    requires
        0 <= i <= path.len(),
        forall|k| i <= k < path.len() ==> path[k] != '/',
        i > 0 ==> path[i - 1] == '/',
    ensures
        spec_name_start(path) == i,
    decreases path.len(),
{
    if path.len() == 0 {
    } else if path[path.len() - 1] == '/' {
        assert(i == path.len());
    } else {
        assert(i < path.len());
        lemma_name_start_at(path.drop_last(), i);
    }
}

/// The index right after the last '.' in a name, or 0 when it has none.
pub open spec fn spec_after_last_dot(name: Seq<char>) -> int
    decreases name.len(),
{
    if name.len() == 0 {
        0
    } else if name[name.len() - 1] == '.' {
        name.len() as int
    } else {
        spec_after_last_dot(name.drop_last())
    }
}

proof fn lemma_after_last_dot_at(name: Seq<char>, i: int)
    requires
        0 <= i <= name.len(),
        forall|k| i <= k < name.len() ==> name[k] != '.',
        i > 0 ==> name[i - 1] == '.',
    ensures
        spec_after_last_dot(name) == i,
    decreases name.len(),
{
    if name.len() == 0 {
    } else if name[name.len() - 1] == '.' {
        assert(i == name.len());
    } else {
        assert(i < name.len());
        lemma_after_last_dot_at(name.drop_last(), i);
    }
}

/// The extension of a path's file name: the text after the name's last '.',
/// provided that dot neither opens the name nor is absent.
pub open spec fn spec_extension(path: Seq<char>) -> Option<Seq<char>> {
    let name = spec_filename(path);
    let d = spec_after_last_dot(name);
    if d <= 1 {
        None
    } else {
        Some(name.subrange(d, name.len() as int))
    }
}

/// Joining a relative component onto a base path with a '/' separator; an
/// absolute component replaces the base.
pub open spec fn spec_join(base: Seq<char>, rel: Seq<char>) -> Seq<char> {
    if rel.len() > 0 && rel[0] == '/' {
        rel
    } else if base.len() == 0 || base[base.len() - 1] == '/' {
        base + rel
    } else {
        base + seq!['/'] + rel
    }
}

/// Trailing slashes start where the scan stopped.
proof fn lemma_trim_slashes_at(path: Seq<char>, e: int)
    requires
        0 <= e <= path.len(),
        forall|k| e <= k < path.len() ==> path[k] == '/',
        e > 0 ==> path[e - 1] != '/',
    ensures
        spec_trim_slashes(path) == path.take(e),
    decreases path.len(),
{
    if e == path.len() {
        if path.len() > 0 && path[path.len() - 1] == '/' {
        } else {
            assert(path.take(e) =~= path);
        }
    } else {
        assert(path[path.len() - 1] == '/');
        lemma_trim_slashes_at(path.drop_last(), e);
        assert(path.drop_last().take(e) =~= path.take(e));
    }
}

/// Where the trailing '/' run of `s` begins.
fn strip_slashes_end(s: &str) -> (r: usize)
    ensures
        r <= s@.len(),
        spec_trim_slashes(s@) == s@.take(r as int),
{
    let n = s.unicode_len();
    let mut e: usize = n;
    while e > 0
        invariant
            e <= n,
            n == s@.len(),
            forall|k| e <= k < s@.len() ==> s@[k] == '/',
        decreases e,
    {
        if s.get_char(e - 1) != '/' {
            proof {
                lemma_trim_slashes_at(s@, e as int);
            }
            return e;
        }
        e = e - 1;
    }
    proof {
        lemma_trim_slashes_at(s@, 0);
    }
    0
}

/// Where the last-component suffix of `s` begins.
fn name_start(s: &str) -> (r: usize)
    ensures
        r == spec_name_start(s@),
        r <= s@.len(),
{
    let n = s.unicode_len();
    let mut i: usize = n;
    while i > 0
        invariant
            i <= n,
            n == s@.len(),
            forall|k| i <= k < s@.len() ==> s@[k] != '/',
        decreases i,
    {
        if s.get_char(i - 1) == '/' {
            proof {
                lemma_name_start_at(s@, i as int);
            }
            return i;
        }
        i = i - 1;
    }
    proof {
        lemma_name_start_at(s@, 0);
    }
    0
}

/// One past the last '.' of `s`, or 0 when it has none.
fn after_last_dot(s: &str) -> (r: usize)
    ensures
        r == spec_after_last_dot(s@),
        r <= s@.len(),
{
    let n = s.unicode_len();
    let mut i: usize = n;
    while i > 0
        invariant
            i <= n,
            n == s@.len(),
            forall|k| i <= k < s@.len() ==> s@[k] != '.',
        decreases i,
    {
        if s.get_char(i - 1) == '.' {
            proof {
                lemma_after_last_dot_at(s@, i as int);
            }
            return i;
        }
        i = i - 1;
    }
    proof {
        lemma_after_last_dot_at(s@, 0);
    }
    0
}

/// A directory entry: the path the entry was listed under, and whether it
/// names a directory.
#[derive(Debug)]
pub struct FileEntry {
    filepath: String,
    is_dir: bool,
}

impl FileEntry {
    /// The path text of the entry.
    pub closed spec fn path_view(&self) -> Seq<char> {
        self.filepath@
    }

    /// Whether the entry names a directory.
    pub closed spec fn is_dir_view(&self) -> bool {
        self.is_dir
    }

    /// A new entry for a path, with whether the path names a directory.
    pub fn new(filepath: String, is_dir: bool) -> (r: FileEntry)
        ensures
            r.path_view() == filepath@,
            r.is_dir_view() == is_dir,
    {
        FileEntry { filepath, is_dir }
    }

    /// A copy of the entry.
    pub fn duplicate(&self) -> (r: FileEntry)
        ensures
            r.path_view() == self.path_view(),
            r.is_dir_view() == self.is_dir_view(),
    {
        FileEntry { filepath: self.filepath.clone(), is_dir: self.is_dir }
    }

    /// The path text of the entry.
    pub fn path(&self) -> (r: &String)
        ensures
            r@ == self.path_view(),
    {
        &self.filepath
    }

    /// Whether the entry names a directory.
    pub fn is_dir(&self) -> (r: bool)
        ensures
            r == self.is_dir_view(),
    {
        self.is_dir
    }

    /// The file name: the text after the path's last '/', ignoring trailing
    /// slashes. A path whose last component is `.` or `..` is outside the
    /// model (see [`spec_filename`]).
    pub fn filename(&self) -> (r: String)
        ensures
            r@ == spec_filename(self.path_view()),
    {
        let s = self.filepath.as_str();
        let e = strip_slashes_end(s);
        let t = s.substring_char(0, e);
        let i = name_start(t);
        let name = t.substring_char(i, e);
        name.to_owned()
    }

    /// The extension of the file name, when it has one.
    pub fn extension(&self) -> (r: Option<String>)
        ensures
            match r {
                Some(ext) => spec_extension(self.path_view()) == Some(ext@),
                None => spec_extension(self.path_view()) is None,
            },
    {
        let name = self.filename();
        let s = name.as_str();
        let n = s.unicode_len();
        let i = after_last_dot(s);
        if i <= 1 {
            None
        } else {
            Some(s.substring_char(i, n).to_owned())
        }
    }

    /// A new entry under this one: the joined path. The caller says whether
    /// the joined path names a directory.
    pub fn push(&self, path: &str, is_dir: bool) -> (r: FileEntry)
        ensures
            r.path_view() == spec_join(self.path_view(), path@),
            r.is_dir_view() == is_dir,
    {
        let rel = path;
        let n = rel.unicode_len();
        if n > 0 && rel.get_char(0) == '/' {
            return FileEntry { filepath: rel.to_owned(), is_dir };
        }
        let base = self.filepath.as_str();
        let bn = base.unicode_len();
        let mut out = base.to_owned();
        if bn == 0 || base.get_char(bn - 1) == '/' {
            out.append(rel);
            proof {
                assert(out@ =~= spec_join(self.path_view(), rel@));
            }
            FileEntry { filepath: out, is_dir }
        } else {
            out.append("/");
            out.append(rel);
            proof {
                reveal_strlit("/");
                assert("/"@ =~= seq!['/']);
                assert(out@ =~= spec_join(self.path_view(), rel@));
            }
            FileEntry { filepath: out, is_dir }
        }
    }
}

} // verus!
