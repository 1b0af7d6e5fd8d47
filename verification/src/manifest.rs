//! The export manifest: a content-addressed map from `"{workspace}/{file}"`
//! keys to hex content digests, persisted as a pretty-printed JSON object.
//!
//! The library prints and parses that JSON itself, byte for byte, so the
//! round trip is proved: parsing a printed manifest restores it exactly.
//! Keys and digests are byte strings (UTF-8 text at the edges).

use vstd::prelude::*;

use crate::fs::hex_digit;

verus! {

pub const QUOTE: u8 = 0x22;

pub const BACKSLASH: u8 = 0x5C;

pub const LBRACE: u8 = 0x7B;

pub const RBRACE: u8 = 0x7D;

pub const COMMA: u8 = 0x2C;

pub const COLON: u8 = 0x3A;

pub const SPACE: u8 = 0x20;

pub const NEWLINE: u8 = 0x0A;

/// How one byte of string content is written inside a JSON string literal:
/// quote and backslash get a backslash escape, the common control characters
/// their short escapes, other control characters a `\u00XX` escape, and
/// everything else stands for itself.
pub open spec fn esc_byte(c: u8) -> Seq<u8> {
    if c == QUOTE {
        seq![BACKSLASH, QUOTE]
    } else if c == BACKSLASH {
        seq![BACKSLASH, BACKSLASH]
    } else if c == 0x08 {
        seq![BACKSLASH, 0x62]
    } else if c == 0x09 {
        seq![BACKSLASH, 0x74]
    } else if c == 0x0A {
        seq![BACKSLASH, 0x6E]
    } else if c == 0x0C {
        seq![BACKSLASH, 0x66]
    } else if c == 0x0D {
        seq![BACKSLASH, 0x72]
    } else if c < 0x20 {
        seq![BACKSLASH, 0x75, 0x30, 0x30, hex_digit(c / 16), hex_digit(c % 16)]
    } else {
        seq![c]
    }
}

/// The escaped form of a whole byte string.
pub open spec fn json_escape(s: Seq<u8>) -> Seq<u8>
    decreases s.len(),
{
    if s.len() == 0 {
        Seq::empty()
    } else {
        esc_byte(s[0]) + json_escape(s.drop_first())
    }
}

/// A JSON string literal: the escaped content between quotes.
pub open spec fn json_string(s: Seq<u8>) -> Seq<u8> {
    seq![QUOTE] + json_escape(s) + seq![QUOTE]
}

/// One manifest entry without its indent: the key, a colon and space, the
/// digest.
pub open spec fn entry_body(k: Seq<u8>, v: Seq<u8>) -> Seq<u8> {
    json_string(k) + seq![COLON, SPACE] + json_string(v)
}

/// One manifest entry as a pretty-printed line: two spaces of indent, then
/// the entry.
pub open spec fn entry_line(k: Seq<u8>, v: Seq<u8>) -> Seq<u8> {
    seq![SPACE, SPACE] + entry_body(k, v)
}

/// The entry lines, separated by a comma and newline.
pub open spec fn lines_of(es: Seq<(Seq<u8>, Seq<u8>)>) -> Seq<u8>
    decreases es.len(),
{
    if es.len() == 0 {
        Seq::empty()
    } else if es.len() == 1 {
        entry_line(es[0].0, es[0].1)
    } else {
        entry_line(es[0].0, es[0].1) + seq![COMMA, NEWLINE] + lines_of(es.drop_first())
    }
}

/// The pretty-printed JSON object for an entry list.
pub open spec fn spec_print(es: Seq<(Seq<u8>, Seq<u8>)>) -> Seq<u8> {
    if es.len() == 0 {
        seq![LBRACE, RBRACE]
    } else {
        seq![LBRACE, NEWLINE] + lines_of(es) + seq![NEWLINE, RBRACE]
    }
}

/// The digest stored under a key, scanning from the front.
pub open spec fn spec_lookup(es: Seq<(Seq<u8>, Seq<u8>)>, k: Seq<u8>) -> Option<Seq<u8>>
    decreases es.len(),
{
    if es.len() == 0 {
        None
    } else if es[0].0 == k {
        Some(es[0].1)
    } else {
        spec_lookup(es.drop_first(), k)
    }
}

/// The entry list after storing a digest under a key: the first entry with
/// that key is replaced, or a new entry is appended.
pub open spec fn spec_set(es: Seq<(Seq<u8>, Seq<u8>)>, k: Seq<u8>, v: Seq<u8>) -> Seq<
    (Seq<u8>, Seq<u8>),
>
    decreases es.len(),
{
    if es.len() == 0 {
        seq![(k, v)]
    } else if es[0].0 == k {
        seq![(k, v)] + es.drop_first()
    } else {
        seq![es[0]] + spec_set(es.drop_first(), k, v)
    }
}

/// An entry list folded entry by entry into an accumulator with `spec_set`.
pub open spec fn spec_fold(
    acc: Seq<(Seq<u8>, Seq<u8>)>,
    es: Seq<(Seq<u8>, Seq<u8>)>,
) -> Seq<(Seq<u8>, Seq<u8>)>
    decreases es.len(),
{
    if es.len() == 0 {
        acc
    } else {
        spec_fold(spec_set(acc, es[0].0, es[0].1), es.drop_first())
    }
}

/// No two entries share a key.
pub open spec fn unique_keys(es: Seq<(Seq<u8>, Seq<u8>)>) -> bool {
    forall|i, j| 0 <= i < j < es.len() ==> es[i].0 != es[j].0
}

/// An entry list of byte vectors, as sequences.
pub open spec fn entries_view(es: Seq<(Vec<u8>, Vec<u8>)>) -> Seq<(Seq<u8>, Seq<u8>)> {
    es.map_values(|e: (Vec<u8>, Vec<u8>)| (e.0@, e.1@))
}

/// JSON insignificant whitespace.
pub open spec fn is_ws(c: u8) -> bool {
    c == SPACE || c == 0x09 || c == NEWLINE || c == 0x0D
}

/// The value of a hex digit byte, or -1 for any other byte.
pub open spec fn hex_val(c: u8) -> int {
    if 48 <= c <= 57 {
        c - 48
    } else if 97 <= c <= 102 {
        c - 87
    } else if 65 <= c <= 70 {
        c - 55
    } else {
        -1
    }
}

/// The byte a one-character escape stands for, if the character is one.
pub open spec fn short_escape(e: u8) -> Option<u8> {
    if e == QUOTE {
        Some(QUOTE)
    } else if e == BACKSLASH {
        Some(BACKSLASH)
    } else if e == 0x2F {
        Some(0x2F)
    } else if e == 0x62 {
        Some(0x08)
    } else if e == 0x74 {
        Some(0x09)
    } else if e == 0x6E {
        Some(0x0A)
    } else if e == 0x66 {
        Some(0x0C)
    } else if e == 0x72 {
        Some(0x0D)
    } else {
        None
    }
}

/// The first position at or past `i` holding no whitespace, at most the end.
pub open spec fn skip_ws(b: Seq<u8>, i: int) -> int
    decreases b.len() - i,
{
    if i < 0 || i >= b.len() {
        i
    } else if is_ws(b[i]) {
        skip_ws(b, i + 1)
    } else {
        i
    }
}

/// The content and end position of a JSON string literal whose opening
/// quote stands just before `i`: bytes up to the closing quote, with escapes
/// resolved. Only `\u` escapes below 0x80 are accepted; raw control bytes
/// are not.
pub open spec fn parse_string_body(b: Seq<u8>, i: int) -> Option<(Seq<u8>, int)>
    decreases b.len() - i,
{
    if i < 0 || i >= b.len() {
        None
    } else if b[i] == QUOTE {
        Some((Seq::empty(), i + 1))
    } else if b[i] == BACKSLASH {
        if i + 1 >= b.len() {
            None
        } else if short_escape(b[i + 1]) is Some {
            match parse_string_body(b, i + 2) {
                Some((s, j)) => Some((seq![short_escape(b[i + 1])->Some_0] + s, j)),
                None => None,
            }
        } else if b[i + 1] == 0x75 {
            if i + 6 > b.len() {
                None
            } else if hex_val(b[i + 2]) < 0 || hex_val(b[i + 3]) < 0 || hex_val(b[i + 4]) < 0
                || hex_val(b[i + 5]) < 0 {
                None
            } else {
                let v = hex_val(b[i + 2]) * 4096 + hex_val(b[i + 3]) * 256 + hex_val(b[i + 4]) * 16
                    + hex_val(b[i + 5]);
                if v >= 0x80 {
                    None
                } else {
                    match parse_string_body(b, i + 6) {
                        Some((s, j)) => Some((seq![v as u8] + s, j)),
                        None => None,
                    }
                }
            }
        } else {
            None
        }
    } else if b[i] < 0x20 {
        None
    } else {
        match parse_string_body(b, i + 1) {
            Some((s, j)) => Some((seq![b[i]] + s, j)),
            None => None,
        }
    }
}

/// One `"key": "value"` pair starting at `i` (which must hold the opening
/// quote of the key), and the position just past the value.
pub open spec fn parse_entry(b: Seq<u8>, i: int) -> Option<((Seq<u8>, Seq<u8>), int)> {
    if i < 0 || i >= b.len() || b[i] != QUOTE {
        None
    } else {
        match parse_string_body(b, i + 1) {
            None => None,
            Some((k, j)) => {
                let j2 = skip_ws(b, j);
                if j2 >= b.len() || b[j2] != COLON {
                    None
                } else {
                    let j3 = skip_ws(b, j2 + 1);
                    if j3 >= b.len() || b[j3] != QUOTE {
                        None
                    } else {
                        match parse_string_body(b, j3 + 1) {
                            None => None,
                            Some((v, j4)) => Some(((k, v), j4)),
                        }
                    }
                }
            },
        }
    }
}

/// A comma-separated run of pairs starting at `i`, and the position of the
/// first non-whitespace byte after the last pair.
pub open spec fn parse_entries(b: Seq<u8>, i: int) -> Option<(Seq<(Seq<u8>, Seq<u8>)>, int)>
    decreases b.len() - i,
        via parse_entries_decreases
{
    match parse_entry(b, i) {
        None => None,
        Some((e, j)) => {
            let j2 = skip_ws(b, j);
            if j2 < b.len() && b[j2] == COMMA {
                let j3 = skip_ws(b, j2 + 1);
                match parse_entries(b, j3) {
                    None => None,
                    Some((rest, k)) => Some((seq![e] + rest, k)),
                }
            } else {
                Some((seq![e], j2))
            }
        },
    }
}

#[via_fn]
proof fn parse_entries_decreases(b: Seq<u8>, i: int) {
    match parse_entry(b, i) {
        None => {},
        Some((e, j)) => {
            lemma_parse_entry_advances(b, i);
            lemma_skip_ws_bounds(b, j);
            let j2 = skip_ws(b, j);
            if j2 < b.len() && b[j2] == COMMA {
                lemma_skip_ws_bounds(b, j2 + 1);
            }
        },
    }
}

/// The entry list a whole manifest document parses to: an object of string
/// pairs, with nothing but whitespace around it.
pub open spec fn spec_parse(b: Seq<u8>) -> Option<Seq<(Seq<u8>, Seq<u8>)>> {
    let i = skip_ws(b, 0);
    if i >= b.len() || b[i] != LBRACE {
        None
    } else {
        let j = skip_ws(b, i + 1);
        if j < b.len() && b[j] == RBRACE {
            if skip_ws(b, j + 1) == b.len() {
                Some(Seq::empty())
            } else {
                None
            }
        } else {
            match parse_entries(b, j) {
                None => None,
                Some((es, k)) => {
                    if k < b.len() && b[k] == RBRACE && skip_ws(b, k + 1) == b.len() {
                        Some(es)
                    } else {
                        None
                    }
                },
            }
        }
    }
}

/// Skipping whitespace stays within the buffer, skips only whitespace, and
/// stops at a non-whitespace byte or the end.
pub proof fn lemma_skip_ws_bounds(b: Seq<u8>, i: int)
    requires
        0 <= i <= b.len(),
    ensures
        i <= skip_ws(b, i) <= b.len(),
        skip_ws(b, i) == b.len() || !is_ws(b[skip_ws(b, i)]),
        forall|k| i <= k < skip_ws(b, i) ==> is_ws(b[k]),
    decreases b.len() - i,
{
    if i < b.len() && is_ws(b[i]) {
        lemma_skip_ws_bounds(b, i + 1);
    }
}

/// A parsed string literal ends past where it began and within the buffer.
pub proof fn lemma_parse_string_advances(b: Seq<u8>, i: int)
    requires
        parse_string_body(b, i) is Some,
    ensures
        i < parse_string_body(b, i)->Some_0.1 <= b.len(),
    decreases b.len() - i,
{
    if i < 0 || i >= b.len() {
    } else if b[i] == QUOTE {
    } else if b[i] == BACKSLASH {
        if short_escape(b[i + 1]) is Some {
            lemma_parse_string_advances(b, i + 2);
        } else if b[i + 1] == 0x75 {
            lemma_parse_string_advances(b, i + 6);
        }
    } else {
        lemma_parse_string_advances(b, i + 1);
    }
}

/// A parsed pair ends past where it began and within the buffer.
pub proof fn lemma_parse_entry_advances(b: Seq<u8>, i: int)
    requires
        parse_entry(b, i) is Some,
    ensures
        i < parse_entry(b, i)->Some_0.1 <= b.len(),
{
    let (k, j) = parse_string_body(b, i + 1)->Some_0;
    lemma_parse_string_advances(b, i + 1);
    let j2 = skip_ws(b, j);
    lemma_skip_ws_bounds(b, j);
    let j3 = skip_ws(b, j2 + 1);
    lemma_skip_ws_bounds(b, j2 + 1);
    lemma_parse_string_advances(b, j3 + 1);
}

/// The manifest: an ordered list of `(key, digest)` entries with unique keys.
pub struct Manifest {
    entries: Vec<(Vec<u8>, Vec<u8>)>,
}

impl Manifest {
    /// The entry list as sequences.
    pub closed spec fn view(&self) -> Seq<(Seq<u8>, Seq<u8>)> {
        entries_view(self.entries@)
    }

    /// Every key occurs at most once.
    pub open spec fn wf(&self) -> bool {
        unique_keys(self.view())
    }

    /// An empty manifest: what a missing remote manifest defaults to.
    pub fn new() -> (r: Manifest)
        ensures
            r.view() == Seq::<(Seq<u8>, Seq<u8>)>::empty(),
            r.wf(),
    {
        let m = Manifest { entries: Vec::new() };
        proof {
            assert(m.view() =~= Seq::<(Seq<u8>, Seq<u8>)>::empty());
        }
        m
    }

    /// The number of entries.
    pub fn len(&self) -> (r: usize)
        ensures
            r == self.view().len(),
    {
        self.entries.len()
    }

    /// The digest stored under `key`, if the manifest holds one.
    pub fn lookup(&self, key: &[u8]) -> (r: Option<&Vec<u8>>)
        ensures
            match r {
                Some(d) => spec_lookup(self.view(), key@) == Some(d@),
                None => spec_lookup(self.view(), key@) is None,
            },
    {
        let ghost es = self.view();
        let mut i: usize = 0;
        while i < self.entries.len()
            invariant
                i <= es.len(),
                es == self.view(),
                es.len() == self.entries@.len(),
                forall|j| 0 <= j < i ==> es[j].0 != key@,
            decreases self.entries@.len() - i,
        {
            proof {
                assert(es[i as int] == (self.entries@[i as int].0@, self.entries@[i as int].1@));
            }
            let e = &self.entries[i];
            if bytes_eq(e.0.as_slice(), key) {
                proof {
                    lemma_lookup_skip(es, key@, i as int);
                }
                return Some(&e.1);
            }
            i = i + 1;
        }
        proof {
            lemma_lookup_skip(es, key@, i as int);
        }
        None
    }

    /// Stores `digest` under `key`: replaces the entry holding that key, or
    /// appends a new one. Keeps the keys unique.
    pub fn set(&mut self, key: Vec<u8>, digest: Vec<u8>) -> (r: ())
        ensures
            final(self).view() == spec_set(old(self).view(), key@, digest@),
            old(self).wf() ==> final(self).wf(),
    {
        let ghost es = self.view();
        let ghost kk = key@;
        let ghost dd = digest@;
        let mut i: usize = 0;
        while i < self.entries.len()
            invariant
                i <= es.len(),
                es == self.view(),
                es == old(self).view(),
                es.len() == self.entries@.len(),
                kk == key@,
                dd == digest@,
                forall|j| 0 <= j < i ==> es[j].0 != kk,
            decreases self.entries@.len() - i,
        {
            proof {
                assert(es[i as int] == (self.entries@[i as int].0@, self.entries@[i as int].1@));
            }
            let e: &(Vec<u8>, Vec<u8>) = &self.entries[i];
            let here = bytes_eq(e.0.as_slice(), key.as_slice());
            if here {
                proof {
                    assert(es[i as int].0 == kk);
                }
                let ghost ev = self.entries@;
                self.entries.remove(i);
                self.entries.insert(i, (key, digest));
                proof {
                    lemma_set_at(es, kk, dd, i as int);
                    assert(self.entries@ =~= ev.update(i as int, self.entries@[i as int]));
                    assert(self.view().len() == es.len());
                    assert(self.view()[i as int] == (kk, dd));
                    assert forall|j: int|
                        0 <= j < es.len() && j != i implies #[trigger] self.view()[j] == es[j] by {
                        assert(self.entries@[j] == ev[j]);
                    }
                    assert(self.view() =~= es.update(i as int, (kk, dd)));
                    if unique_keys(es) {
                        assert(unique_keys(self.view()));
                    }
                }
                return ;
            }
            i = i + 1;
        }
        self.entries.push((key, digest));
        proof {
            lemma_set_absent(es, kk, dd);
            assert(self.view() =~= es.push((kk, dd)));
            if unique_keys(es) {
                assert forall|a, b|
                    0 <= a < b < self.view().len() implies self.view()[a].0 != self.view()[b].0 by {
                    if b < es.len() {
                    } else {
                        assert(self.view()[b] == (kk, dd));
                        assert(es[a].0 != kk);
                    }
                }
                assert(unique_keys(self.view()));
            }
        }
    }

    /// The entry at an index: its key and digest.
    pub fn entry(&self, i: usize) -> (r: (&Vec<u8>, &Vec<u8>))
        requires
            i < self.view().len(),
        ensures
            r.0@ == self.view()[i as int].0,
            r.1@ == self.view()[i as int].1,
    {
        proof {
            assert(self.view()[i as int] == (self.entries@[i as int].0@, self.entries@[i as int].1@));
        }
        let e = &self.entries[i];
        (&e.0, &e.1)
    }

    /// A copy of the manifest.
    pub fn duplicate(&self) -> (r: Manifest)
        ensures
            r.view() == self.view(),
    {
        let mut es: Vec<(Vec<u8>, Vec<u8>)> = Vec::new();
        let mut i: usize = 0;
        let n = self.entries.len();
        while i < n
            invariant
                i <= n,
                n == self.entries@.len(),
                entries_view(es@) == self.view().take(i as int),
            decreases n - i,
        {
            proof {
                assert(self.view()[i as int] == (self.entries@[i as int].0@, self.entries@[i as int].1@));
            }
            let e = &self.entries[i];
            let ghost es0 = es@;
            let ck = copy_bytes(&e.0);
            let cd = copy_bytes(&e.1);
            es.push((ck, cd));
            i = i + 1;
            proof {
                assert(self.view().len() == n);
                assert(entries_view(es0).len() == es0.len());
                assert(es0.len() == i - 1);
                assert(es@ == es0.push((ck, cd)));
                assert forall|j: int| 0 <= j < es@.len() implies #[trigger] entries_view(es@)[j]
                    == self.view().take(i as int)[j] by {
                    if j < es0.len() {
                        assert(es@[j] == es0[j]);
                        assert(entries_view(es0)[j] == self.view().take(i - 1)[j]);
                    } else {
                        assert(es@[j] == (ck, cd));
                        assert(ck@ == self.entries@[j].0@);
                        assert(cd@ == self.entries@[j].1@);
                    }
                }
                assert(entries_view(es@) =~= self.view().take(i as int));
            }
        }
        proof {
            assert(self.view().take(n as int) =~= self.view());
        }
        Manifest { entries: es }
    }

    /// The manifest's serialized form: a pretty-printed JSON object.
    pub fn to_json(&self) -> (r: Vec<u8>)
        ensures
            r@ == spec_print(self.view()),
    {
        let ghost es = self.view();
        let mut out: Vec<u8> = Vec::new();
        if self.entries.len() == 0 {
            out.push(LBRACE);
            out.push(RBRACE);
            proof {
                assert(out@ =~= spec_print(es));
            }
            return out;
        }
        out.push(LBRACE);
        out.push(NEWLINE);
        let mut i: usize = 0;
        while i < self.entries.len()
            invariant
                0 < es.len(),
                i <= es.len(),
                es == self.view(),
                es.len() == self.entries@.len(),
                out@ == seq![LBRACE, NEWLINE] + lines_of(es.take(i as int)),
            decreases self.entries@.len() - i,
        {
            if i > 0 {
                out.push(COMMA);
                out.push(NEWLINE);
            }
            let e = &self.entries[i];
            out.push(SPACE);
            out.push(SPACE);
            push_json_string(&mut out, e.0.as_slice());
            out.push(COLON);
            out.push(SPACE);
            push_json_string(&mut out, e.1.as_slice());
            i = i + 1;
            proof {
                lemma_lines_take_step(es, i as int);
                assert(out@ =~= seq![LBRACE, NEWLINE] + lines_of(es.take(i as int)));
            }
        }
        out.push(NEWLINE);
        out.push(RBRACE);
        proof {
            assert(es.take(es.len() as int) =~= es);
            assert(out@ =~= spec_print(es));
        }
        out
    }
}

/// The first position at or past `from` holding no whitespace.
fn skip_ws_exec(b: &[u8], from: usize) -> (r: usize)
    requires
        from <= b@.len(),
    ensures
        r == skip_ws(b@, from as int),
        from <= r <= b@.len(),
{
    let mut i = from;
    while i < b.len() && (b[i] == SPACE || b[i] == 0x09 || b[i] == NEWLINE || b[i] == 0x0D)
        invariant
            from <= i <= b@.len(),
            skip_ws(b@, from as int) == skip_ws(b@, i as int),
        decreases b@.len() - i,
    {
        i = i + 1;
    }
    i
}

/// The value of a hex digit byte, or -1 for any other byte.
fn hex_val_exec(c: u8) -> (r: i32)
    ensures
        r == hex_val(c),
{
    if 48 <= c && c <= 57 {
        c as i32 - 48
    } else if 97 <= c && c <= 102 {
        c as i32 - 87
    } else if 65 <= c && c <= 70 {
        c as i32 - 55
    } else {
        -1
    }
}

/// Reads a JSON string literal's content from just past its opening quote.
fn parse_string_exec(b: &[u8], i: usize) -> (r: Option<(Vec<u8>, usize)>)
    requires
        i <= b@.len(),
    ensures
        match r {
            Some(p) => parse_string_body(b@, i as int) == Some((p.0@, p.1 as int)) && i < p.1
                <= b@.len(),
            None => parse_string_body(b@, i as int) is None,
        },
    decreases b@.len() - i,
{
    if i >= b.len() {
        return None;
    }
    let c = b[i];
    if c == QUOTE {
        return Some((Vec::new(), i + 1));
    }
    if c == BACKSLASH {
        if i + 1 >= b.len() {
            return None;
        }
        let e = b[i + 1];
        let unescaped: u8;
        let next: usize;
        if e == QUOTE || e == BACKSLASH || e == 0x2F {
            unescaped = e;
            next = i + 2;
        } else if e == 0x62 {
            unescaped = 0x08;
            next = i + 2;
        } else if e == 0x74 {
            unescaped = 0x09;
            next = i + 2;
        } else if e == 0x6E {
            unescaped = 0x0A;
            next = i + 2;
        } else if e == 0x66 {
            unescaped = 0x0C;
            next = i + 2;
        } else if e == 0x72 {
            unescaped = 0x0D;
            next = i + 2;
        } else if e == 0x75 {
            if b.len() - i < 6 {
                return None;
            }
            let h1 = hex_val_exec(b[i + 2]);
            let h2 = hex_val_exec(b[i + 3]);
            let h3 = hex_val_exec(b[i + 4]);
            let h4 = hex_val_exec(b[i + 5]);
            if h1 < 0 || h2 < 0 || h3 < 0 || h4 < 0 {
                return None;
            }
            let v: i32 = h1 * 4096 + h2 * 256 + h3 * 16 + h4;
            if v >= 0x80 {
                return None;
            }
            unescaped = v as u8;
            next = i + 6;
        } else {
            return None;
        }
        match parse_string_exec(b, next) {
            Some((mut s, j)) => {
                s.insert(0, unescaped);
                proof {
                    assert(s@ =~= seq![unescaped] + s@.drop_first());
                }
                Some((s, j))
            },
            None => None,
        }
    } else if c < 0x20 {
        None
    } else {
        match parse_string_exec(b, i + 1) {
            Some((mut s, j)) => {
                s.insert(0, c);
                proof {
                    assert(s@ =~= seq![c] + s@.drop_first());
                }
                Some((s, j))
            },
            None => None,
        }
    }
}

/// Reads one `"key": "value"` pair whose opening quote stands at `i`.
fn parse_entry_exec(b: &[u8], i: usize) -> (r: Option<((Vec<u8>, Vec<u8>), usize)>)
    requires
        i <= b@.len(),
    ensures
        match r {
            Some(p) => parse_entry(b@, i as int) == Some(((p.0.0@, p.0.1@), p.1 as int)) && i < p.1
                <= b@.len(),
            None => parse_entry(b@, i as int) is None,
        },
{
    if i >= b.len() || b[i] != QUOTE {
        return None;
    }
    let (k, j) = match parse_string_exec(b, i + 1) {
        Some(x) => x,
        None => return None,
    };
    let j2 = skip_ws_exec(b, j);
    if j2 >= b.len() || b[j2] != COLON {
        return None;
    }
    let j3 = skip_ws_exec(b, j2 + 1);
    if j3 >= b.len() || b[j3] != QUOTE {
        return None;
    }
    let (v, j4) = match parse_string_exec(b, j3 + 1) {
        Some(x) => x,
        None => return None,
    };
    Some(((k, v), j4))
}

/// Reads a comma-separated run of pairs starting at `i`.
fn parse_entries_exec(b: &[u8], i: usize) -> (r: Option<(Vec<(Vec<u8>, Vec<u8>)>, usize)>)
    requires
        i <= b@.len(),
    ensures
        match r {
            Some(p) => parse_entries(b@, i as int) == Some((entries_view(p.0@), p.1 as int)) && p.1
                <= b@.len(),
            None => parse_entries(b@, i as int) is None,
        },
    decreases b@.len() - i,
{
    let (e, j) = match parse_entry_exec(b, i) {
        Some(x) => x,
        None => return None,
    };
    let j2 = skip_ws_exec(b, j);
    if j2 < b.len() && b[j2] == COMMA {
        let j3 = skip_ws_exec(b, j2 + 1);
        match parse_entries_exec(b, j3) {
            Some((mut rest, k2)) => {
                rest.insert(0, e);
                proof {
                    assert(entries_view(rest@) =~= seq![(rest@[0].0@, rest@[0].1@)] + entries_view(
                        rest@.drop_first(),
                    ));
                }
                Some((rest, k2))
            },
            None => None,
        }
    } else {
        let mut one: Vec<(Vec<u8>, Vec<u8>)> = Vec::new();
        one.push(e);
        proof {
            assert(entries_view(one@) =~= seq![(one@[0].0@, one@[0].1@)]);
        }
        Some((one, j2))
    }
}

impl Manifest {
    /// Parses a serialized manifest. Returns `None` when the bytes are not a
    /// JSON object of string pairs; a key that occurs twice keeps its last
    /// digest.
    pub fn from_json(bytes: &[u8]) -> (r: Option<Manifest>)
        ensures
            match r {
                Some(m) => {
                    &&& spec_parse(bytes@) matches Some(es)
                    &&& m.view() == spec_fold(Seq::empty(), es)
                    &&& m.wf()
                },
                None => spec_parse(bytes@) is None,
            },
    {
        let i = skip_ws_exec(bytes, 0);
        if i >= bytes.len() || bytes[i] != LBRACE {
            return None;
        }
        let j = skip_ws_exec(bytes, i + 1);
        if j < bytes.len() && bytes[j] == RBRACE {
            if skip_ws_exec(bytes, j + 1) == bytes.len() {
                return Some(Manifest::new());
            } else {
                return None;
            }
        }
        let (es, k) = match parse_entries_exec(bytes, j) {
            Some(x) => x,
            None => return None,
        };
        if !(k < bytes.len() && bytes[k] == RBRACE) {
            return None;
        }
        if skip_ws_exec(bytes, k + 1) != bytes.len() {
            return None;
        }
        let ghost full = entries_view(es@);
        let mut rest = es;
        let mut m = Manifest::new();
        while rest.len() > 0
            invariant
                rest@.len() <= full.len(),
                entries_view(rest@) == full.skip(full.len() - rest@.len()),
                m.view() == spec_fold(Seq::empty(), full.take(full.len() - rest@.len())),
                m.wf(),
            decreases rest@.len(),
        {
            let ghost done = full.len() - rest@.len();
            let ghost prev = rest@;
            let e = rest.remove(0);
            m.set(e.0, e.1);
            proof {
                assert(entries_view(prev)[0] == full.skip(done)[0]);
                assert((prev[0].0@, prev[0].1@) == full[done]);
                assert forall|t: int|
                    0 <= t < entries_view(rest@).len() implies #[trigger] entries_view(rest@)[t]
                    == full.skip(done + 1)[t] by {
                    assert(rest@[t] == prev[t + 1]);
                    assert(entries_view(prev)[t + 1] == full.skip(done)[t + 1]);
                }
                assert(entries_view(rest@) =~= full.skip(done + 1));
                lemma_fold_push(Seq::empty(), full.take(done), full[done]);
                assert(full.take(done).push(full[done]) =~= full.take(done + 1));
            }
        }
        proof {
            assert(full.take(full.len() as int) =~= full);
        }
        Some(m)
    }
}

/// Folding one more entry stores it into the folded accumulator.
proof fn lemma_fold_push(
    acc: Seq<(Seq<u8>, Seq<u8>)>,
    es: Seq<(Seq<u8>, Seq<u8>)>,
    e: (Seq<u8>, Seq<u8>),
)
    ensures
        spec_fold(acc, es.push(e)) == spec_set(spec_fold(acc, es), e.0, e.1),
    decreases es.len(),
{
    if es.len() == 0 {
        assert(es.push(e)[0] == e);
        assert(es.push(e).drop_first() =~= Seq::<(Seq<u8>, Seq<u8>)>::empty());
        assert(spec_fold(acc, es) == acc);
        assert(spec_fold(acc, es.push(e)) == spec_fold(
            spec_set(acc, e.0, e.1),
            es.push(e).drop_first(),
        ));
        assert(spec_fold(spec_set(acc, e.0, e.1), es.push(e).drop_first()) == spec_set(
            acc,
            e.0,
            e.1,
        ));
    } else {
        assert(es.push(e)[0] == es[0]);
        assert(es.push(e).drop_first() =~= es.drop_first().push(e));
        lemma_fold_push(spec_set(acc, es[0].0, es[0].1), es.drop_first(), e);
        assert(spec_fold(acc, es.push(e)) == spec_fold(
            spec_set(acc, es[0].0, es[0].1),
            es.drop_first().push(e),
        ));
        assert(spec_fold(acc, es) == spec_fold(spec_set(acc, es[0].0, es[0].1), es.drop_first()));
    }
}

/// A fresh copy of a byte string.
pub fn copy_bytes(v: &Vec<u8>) -> (r: Vec<u8>)
    ensures
        r@ == v@,
{
    let mut r: Vec<u8> = Vec::new();
    r.extend_from_slice(v.as_slice());
    r
}

/// Whether two byte strings hold the same bytes.
pub fn bytes_eq(a: &[u8], b: &[u8]) -> (r: bool)
    ensures
        r == (a@ == b@),
{
    if a.len() != b.len() {
        proof {
            assert(a@ != b@);
        }
        return false;
    }
    let mut i: usize = 0;
    while i < a.len()
        invariant
            i <= a@.len(),
            a@.len() == b@.len(),
            forall|j| 0 <= j < i ==> a@[j] == b@[j],
        decreases a@.len() - i,
    {
        if a[i] != b[i] {
            return false;
        }
        i = i + 1;
    }
    proof {
        assert(a@ =~= b@);
    }
    true
}

/// Appends a JSON string literal for `s` to `out`.
#[verifier::rlimit(30)]
fn push_json_string(out: &mut Vec<u8>, s: &[u8])
    ensures
        final(out)@ == old(out)@ + json_string(s@),
{
    out.push(QUOTE);
    let ghost base = out@;
    let mut i: usize = 0;
    while i < s.len()
        invariant
            i <= s@.len(),
            out@ == base + json_escape(s@.take(i as int)),
        decreases s@.len() - i,
    {
        let c = s[i];
        if c == QUOTE {
            out.push(BACKSLASH);
            out.push(QUOTE);
        } else if c == BACKSLASH {
            out.push(BACKSLASH);
            out.push(BACKSLASH);
        } else if c == 0x08 {
            out.push(BACKSLASH);
            out.push(0x62);
        } else if c == 0x09 {
            out.push(BACKSLASH);
            out.push(0x74);
        } else if c == 0x0A {
            out.push(BACKSLASH);
            out.push(0x6E);
        } else if c == 0x0C {
            out.push(BACKSLASH);
            out.push(0x66);
        } else if c == 0x0D {
            out.push(BACKSLASH);
            out.push(0x72);
        } else if c < 0x20 {
            out.push(BACKSLASH);
            out.push(0x75);
            out.push(0x30);
            out.push(0x30);
            out.push(hex_digit_exec(c / 16));
            out.push(hex_digit_exec(c % 16));
        } else {
            out.push(c);
        }
        i = i + 1;
        proof {
            lemma_escape_take_step(s@, i as int);
            assert(out@ =~= base + json_escape(s@.take(i as int)));
        }
    }
    out.push(QUOTE);
    proof {
        assert(s@.take(s@.len() as int) =~= s@);
        assert(final(out)@ =~= old(out)@ + json_string(s@));
    }
}

/// The lowercase hex digit for a nibble.
fn hex_digit_exec(n: u8) -> (r: u8)
    requires
        n < 16,
    ensures
        r == hex_digit(n),
{
    if n < 10 {
        48 + n
    } else {
        87 + n
    }
}

/// Escaping one more byte appends that byte's escape.
proof fn lemma_escape_take_step(s: Seq<u8>, i: int)
    requires
        0 < i <= s.len(),
    ensures
        json_escape(s.take(i)) == json_escape(s.take(i - 1)) + esc_byte(s[i - 1]),
{
    lemma_escape_concat(s.take(i - 1), seq![s[i - 1]]);
    assert(s.take(i - 1) + seq![s[i - 1]] =~= s.take(i));
    assert(seq![s[i - 1]].drop_first() =~= Seq::<u8>::empty());
    assert(json_escape(seq![s[i - 1]]) =~= esc_byte(s[i - 1]) + json_escape(
        Seq::<u8>::empty(),
    ));
    assert(json_escape(seq![s[i - 1]]) =~= esc_byte(s[i - 1]));
}

/// Escaping distributes over concatenation.
proof fn lemma_escape_concat(a: Seq<u8>, b: Seq<u8>)
    ensures
        json_escape(a + b) == json_escape(a) + json_escape(b),
    decreases a.len(),
{
    if a.len() == 0 {
        assert(a + b =~= b);
        assert(json_escape(a) =~= Seq::<u8>::empty());
        assert(json_escape(a) + json_escape(b) =~= json_escape(b));
    } else {
        assert((a + b).drop_first() =~= a.drop_first() + b);
        lemma_escape_concat(a.drop_first(), b);
        assert(json_escape(a + b) =~= esc_byte(a[0]) + json_escape(a.drop_first()) + json_escape(
            b,
        ));
        assert(json_escape(a) + json_escape(b) =~= esc_byte(a[0]) + json_escape(a.drop_first())
            + json_escape(b));
    }
}

/// One more entry line extends the joined lines with a separator.
proof fn lemma_lines_take_step(es: Seq<(Seq<u8>, Seq<u8>)>, i: int)
    requires
        0 < i <= es.len(),
    ensures
        lines_of(es.take(i)) == if i == 1 {
            entry_line(es[0].0, es[0].1)
        } else {
            lines_of(es.take(i - 1)) + seq![COMMA, NEWLINE] + entry_line(es[i - 1].0, es[i - 1].1)
        },
{
    lemma_lines_push(es.take(i - 1), es[i - 1]);
    assert(es.take(i - 1).push(es[i - 1]) =~= es.take(i));
    if i == 1 {
        assert(es.take(0) =~= Seq::<(Seq<u8>, Seq<u8>)>::empty());
    }
}

/// Appending an entry to a non-empty list appends a separator and its line.
proof fn lemma_lines_push(es: Seq<(Seq<u8>, Seq<u8>)>, e: (Seq<u8>, Seq<u8>))
    ensures
        lines_of(es.push(e)) == if es.len() == 0 {
            entry_line(e.0, e.1)
        } else {
            lines_of(es) + seq![COMMA, NEWLINE] + entry_line(e.0, e.1)
        },
    decreases es.len(),
{
    if es.len() == 0 {
        assert(es.push(e).len() == 1);
        assert(es.push(e)[0] == e);
    } else {
        assert(es.push(e).drop_first() =~= es.drop_first().push(e));
        lemma_lines_push(es.drop_first(), e);
        if es.len() == 1 {
            assert(lines_of(es) == entry_line(es[0].0, es[0].1));
            assert(lines_of(es.push(e)) =~= entry_line(es[0].0, es[0].1) + seq![COMMA, NEWLINE]
                + entry_line(e.0, e.1));
        } else {
            assert(lines_of(es.push(e)) =~= lines_of(es) + seq![COMMA, NEWLINE] + entry_line(
                e.0,
                e.1,
            ));
        }
    }
}

/// The entry bodies joined by the printed separator: a comma, a newline and
/// the next line's indent. This is the printed text from the first key's
/// opening quote to the last digest's closing quote.
pub open spec fn body_lines(es: Seq<(Seq<u8>, Seq<u8>)>) -> Seq<u8>
    decreases es.len(),
{
    if es.len() == 0 {
        Seq::empty()
    } else if es.len() == 1 {
        entry_body(es[0].0, es[0].1)
    } else {
        entry_body(es[0].0, es[0].1) + seq![COMMA, NEWLINE, SPACE, SPACE] + body_lines(
            es.drop_first(),
        )
    }
}

/// The printed lines are the first line's indent followed by the bodies.
proof fn lemma_lines_decomp(es: Seq<(Seq<u8>, Seq<u8>)>)
    requires
        es.len() > 0,
    ensures
        lines_of(es) == seq![SPACE, SPACE] + body_lines(es),
    decreases es.len(),
{
    if es.len() == 1 {
    } else {
        lemma_lines_decomp(es.drop_first());
        assert(lines_of(es) =~= seq![SPACE, SPACE] + body_lines(es));
    }
}

/// Reading hex digits back gives the nibble they were printed from.
proof fn lemma_hex_digit_val(n: u8)
    requires
        n < 16,
    ensures
        hex_val(hex_digit(n)) == n,
{
}

/// Parsing an escaped string from its first content byte yields the original
/// string and stops right after the closing quote.
#[verifier::rlimit(100)]
proof fn lemma_parse_escaped(pre: Seq<u8>, s: Seq<u8>, tail: Seq<u8>)
    ensures
        parse_string_body(pre + json_escape(s) + seq![QUOTE] + tail, pre.len() as int) == Some(
            (s, (pre.len() + json_escape(s).len() + 1) as int),
        ),
    decreases s.len(),
{
    let b = pre + json_escape(s) + seq![QUOTE] + tail;
    let i = pre.len() as int;
    let el = json_escape(s).len() as int;
    assert forall|t| 0 <= t < el implies #[trigger] b[i + t] == json_escape(s)[t] by {
        assert((pre + json_escape(s))[i + t] == json_escape(s)[t]);
    }
    assert(b[i + el] == QUOTE) by {
        assert((pre + json_escape(s) + seq![QUOTE])[i + el] == QUOTE);
    }
    if s.len() == 0 {
        assert(el == 0);
        assert(b[i] == QUOTE);
    } else {
        let c = s[0];
        let e0 = esc_byte(c);
        let s1 = s.drop_first();
        let e0l = e0.len() as int;
        assert(json_escape(s) == e0 + json_escape(s1));
        assert forall|t| 0 <= t < e0l implies #[trigger] b[i + t] == e0[t] by {
            assert(json_escape(s)[t] == e0[t]);
        }
        let pre2 = pre + e0;
        assert(b =~= pre2 + json_escape(s1) + seq![QUOTE] + tail);
        lemma_parse_escaped(pre2, s1, tail);
        assert(parse_string_body(b, i + e0l) == Some((s1, i + el + 1))) by {
            assert(pre2.len() == i + e0l);
            assert(pre2.len() + json_escape(s1).len() + 1 == i + el + 1);
        }
        if c == QUOTE || c == BACKSLASH {
            assert(b[i] == BACKSLASH && b[i + 1] == c);
            assert(short_escape(b[i + 1]) == Some(c));
            assert(seq![c] + s1 =~= s);
        } else if c == 0x08 || c == 0x09 || c == 0x0A || c == 0x0C || c == 0x0D {
            assert(b[i] == BACKSLASH);
            assert(short_escape(b[i + 1]) == Some(c));
            assert(seq![c] + s1 =~= s);
        } else if c < 0x20 {
            assert(b[i] == BACKSLASH && b[i + 1] == 0x75);
            assert(short_escape(0x75) is None);
            assert(b[i + 2] == 0x30 && b[i + 3] == 0x30);
            assert(b[i + 4] == hex_digit(c / 16) && b[i + 5] == hex_digit(c % 16));
            assert(hex_val(0x30) == 0);
            lemma_hex_digit_val(c / 16);
            lemma_hex_digit_val(c % 16);
            let v = hex_val(b[i + 2]) * 4096 + hex_val(b[i + 3]) * 256 + hex_val(b[i + 4]) * 16
                + hex_val(b[i + 5]);
            assert(v == (c / 16) * 16 + c % 16);
            assert(v == c);
            assert(i + 6 <= b.len());
            assert(seq![v as u8] + s1 =~= s);
        } else {
            assert(b[i] == c);
            assert(c != QUOTE && c != BACKSLASH && !(c < 0x20));
            assert(seq![c] + s1 =~= s);
        }
    }
}

/// Parsing a printed entry body from the key's opening quote yields the pair
/// and stops right after the digest's closing quote.
#[verifier::rlimit(100)]
proof fn lemma_parse_entry_body(pre: Seq<u8>, k: Seq<u8>, v: Seq<u8>, tail: Seq<u8>)
    ensures
        parse_entry(pre + entry_body(k, v) + tail, pre.len() as int) == Some(
            ((k, v), (pre.len() + entry_body(k, v).len()) as int),
        ),
{
    let b = pre + entry_body(k, v) + tail;
    let i = pre.len() as int;
    let kl = json_escape(k).len() as int;
    let vl = json_escape(v).len() as int;
    let ebl = entry_body(k, v).len() as int;
    assert(ebl == kl + vl + 6);
    // key string: b == (pre + [QUOTE]) + esc(k) + [QUOTE] + tail_k
    let tail_k = seq![COLON, SPACE] + json_string(v) + tail;
    assert(b =~= (pre + seq![QUOTE]) + json_escape(k) + seq![QUOTE] + tail_k);
    lemma_parse_escaped(pre + seq![QUOTE], k, tail_k);
    let j = i + 2 + kl;
    assert(parse_string_body(b, i + 1) == Some((k, j)));
    assert(b[i] == QUOTE) by {
        assert((pre + seq![QUOTE])[i] == QUOTE);
    }
    // the colon, the space, and the value's opening quote
    let a = pre + json_string(k);
    assert(b =~= a + seq![COLON, SPACE] + json_string(v) + tail);
    assert(a.len() == j);
    assert(b[j] == COLON && b[j + 1] == SPACE && b[j + 2] == QUOTE) by {
        assert((a + seq![COLON, SPACE])[j] == COLON);
        assert((a + seq![COLON, SPACE])[j + 1] == SPACE);
        assert((a + seq![COLON, SPACE] + json_string(v))[j + 2] == json_string(v)[0]);
        assert(json_string(v)[0] == QUOTE);
    }
    assert(skip_ws(b, j) == j) by {
        assert(!is_ws(b[j]));
    }
    assert(skip_ws(b, j + 1) == j + 2) by {
        reveal_with_fuel(skip_ws, 3);
        assert(is_ws(b[j + 1]) && !is_ws(b[j + 2]));
    }
    // value string: b == (a + [COLON, SPACE, QUOTE]) + esc(v) + [QUOTE] + tail
    let pre_v = a + seq![COLON, SPACE, QUOTE];
    assert(b =~= pre_v + json_escape(v) + seq![QUOTE] + tail);
    lemma_parse_escaped(pre_v, v, tail);
    assert(pre_v.len() == j + 3);
    assert(parse_string_body(b, j + 3) == Some((v, j + 4 + vl)));
    assert(j + 4 + vl == i + ebl);
}

/// The printed run of entries starts with a quote.
proof fn lemma_body_lines_head(es: Seq<(Seq<u8>, Seq<u8>)>)
    requires
        es.len() > 0,
    ensures
        body_lines(es).len() > 0,
        body_lines(es)[0] == QUOTE,
{
    assert(entry_body(es[0].0, es[0].1)[0] == QUOTE);
    if es.len() == 1 {
    } else {
        assert(body_lines(es)[0] == entry_body(es[0].0, es[0].1)[0]);
    }
}

/// Parsing the printed entry run from the first key's opening quote yields
/// the entries and stops at the closing brace.
#[verifier::rlimit(100)]
proof fn lemma_parse_body_lines(pre: Seq<u8>, es: Seq<(Seq<u8>, Seq<u8>)>, tail: Seq<u8>)
    requires
        es.len() > 0,
        tail.len() >= 2,
        tail[0] == NEWLINE,
        tail[1] == RBRACE,
    ensures
        parse_entries(pre + body_lines(es) + tail, pre.len() as int) == Some(
            (es, (pre.len() + body_lines(es).len() + 1) as int),
        ),
    decreases es.len(),
{
    let b = pre + body_lines(es) + tail;
    let i = pre.len() as int;
    let e0 = (es[0].0, es[0].1);
    let eb = entry_body(es[0].0, es[0].1);
    let ebl = eb.len() as int;
    let bll = body_lines(es).len() as int;
    if es.len() == 1 {
        assert(body_lines(es) == eb);
        lemma_parse_entry_body(pre, es[0].0, es[0].1, tail);
        let j = i + ebl;
        assert(parse_entry(b, i) == Some((e0, j)));
        let a = pre + body_lines(es);
        assert(a.len() == j);
        assert(b[j] == NEWLINE && b[j + 1] == RBRACE) by {
            assert((a + tail)[j] == tail[0]);
            assert((a + tail)[j + 1] == tail[1]);
            assert(b =~= a + tail);
        }
        assert(skip_ws(b, j) == j + 1) by {
            reveal_with_fuel(skip_ws, 3);
            assert(is_ws(b[j]) && !is_ws(b[j + 1]));
            assert(j + 1 < b.len());
        }
        assert(b[j + 1] != COMMA);
        assert(seq![e0] =~= es);
    } else {
        let rest = es.drop_first();
        let sep = seq![COMMA, NEWLINE, SPACE, SPACE];
        assert(body_lines(es) == eb + sep + body_lines(rest));
        let tail_e = sep + body_lines(rest) + tail;
        assert(b =~= pre + eb + tail_e);
        lemma_parse_entry_body(pre, es[0].0, es[0].1, tail_e);
        let j = i + ebl;
        assert(parse_entry(b, i) == Some((e0, j)));
        let a = pre + eb;
        assert(a.len() == j);
        lemma_body_lines_head(rest);
        assert(b[j] == COMMA && b[j + 1] == NEWLINE && b[j + 2] == SPACE && b[j + 3] == SPACE && b[j
            + 4] == QUOTE) by {
            assert(b =~= a + sep + (body_lines(rest) + tail));
            assert((a + sep)[j] == COMMA);
            assert((a + sep)[j + 1] == NEWLINE);
            assert((a + sep)[j + 2] == SPACE);
            assert((a + sep)[j + 3] == SPACE);
            assert((a + sep + (body_lines(rest) + tail))[j + 4] == body_lines(rest)[0]);
        }
        assert(skip_ws(b, j) == j) by {
            assert(!is_ws(b[j]));
        }
        assert(skip_ws(b, j + 1) == j + 4) by {
            reveal_with_fuel(skip_ws, 5);
            assert(is_ws(b[j + 1]) && is_ws(b[j + 2]) && is_ws(b[j + 3]) && !is_ws(b[j + 4]));
        }
        let pre2 = a + sep;
        assert(b =~= pre2 + body_lines(rest) + tail);
        lemma_parse_body_lines(pre2, rest, tail);
        assert(pre2.len() == j + 4);
        assert(parse_entries(b, j + 4) == Some((rest, i + bll + 1))) by {
            assert(pre2.len() + body_lines(rest).len() + 1 == i + bll + 1);
        }
        assert(seq![e0] + rest =~= es);
    }
}

/// Folding entries whose keys are fresh and unique appends them in order.
proof fn lemma_fold_unique(acc: Seq<(Seq<u8>, Seq<u8>)>, es: Seq<(Seq<u8>, Seq<u8>)>)
    requires
        unique_keys(acc + es),
    ensures
        spec_fold(acc, es) == acc + es,
    decreases es.len(),
{
    if es.len() == 0 {
        assert(acc + es =~= acc);
    } else {
        let e0 = es[0];
        assert forall|j| 0 <= j < acc.len() implies #[trigger] acc[j].0 != e0.0 by {
            assert((acc + es)[j] == acc[j]);
            assert((acc + es)[acc.len() as int] == e0);
        }
        lemma_set_absent(acc, e0.0, e0.1);
        assert(spec_set(acc, e0.0, e0.1) == acc.push(e0));
        assert(acc.push(e0) + es.drop_first() =~= acc + es);
        lemma_fold_unique(acc.push(e0), es.drop_first());
    }
}

/// Round trip: parsing a printed manifest yields exactly its entries, and
/// rebuilding a manifest from them changes nothing.
#[verifier::rlimit(100)]
pub proof fn lemma_print_parse_round_trip(es: Seq<(Seq<u8>, Seq<u8>)>)
    requires
        unique_keys(es),
    ensures
        spec_parse(spec_print(es)) == Some(es),
        spec_fold(Seq::empty(), es) == es,
{
    let b = spec_print(es);
    if es.len() == 0 {
        assert(b == seq![LBRACE, RBRACE]);
        assert(!is_ws(b[0]));
        assert(skip_ws(b, 0) == 0);
        assert(!is_ws(b[1]));
        assert(skip_ws(b, 1) == 1);
        assert(skip_ws(b, 2) == 2);
        assert(spec_parse(b) == Some(Seq::<(Seq<u8>, Seq<u8>)>::empty()));
        assert(Seq::<(Seq<u8>, Seq<u8>)>::empty() =~= es);
    } else {
        lemma_lines_decomp(es);
        let bl = body_lines(es);
        let bll = bl.len() as int;
        let pre0 = seq![LBRACE, NEWLINE, SPACE, SPACE];
        let tail0 = seq![NEWLINE, RBRACE];
        assert(b =~= pre0 + bl + tail0);
        lemma_body_lines_head(es);
        assert(b[0] == LBRACE && b[1] == NEWLINE && b[2] == SPACE && b[3] == SPACE) by {
            assert((pre0 + bl + tail0)[0] == pre0[0]);
            assert((pre0 + bl + tail0)[1] == pre0[1]);
            assert((pre0 + bl + tail0)[2] == pre0[2]);
            assert((pre0 + bl + tail0)[3] == pre0[3]);
        }
        assert(b[4] == QUOTE) by {
            assert((pre0 + bl + tail0)[4] == bl[0]);
        }
        assert(skip_ws(b, 0) == 0) by {
            assert(!is_ws(b[0]));
        }
        assert(skip_ws(b, 1) == 4) by {
            reveal_with_fuel(skip_ws, 5);
            assert(is_ws(b[1]) && is_ws(b[2]) && is_ws(b[3]) && !is_ws(b[4]));
        }
        assert(b[4] != RBRACE);
        lemma_parse_body_lines(pre0, es, tail0);
        let k = 4 + bll + 1;
        assert(parse_entries(b, 4) == Some((es, k)));
        assert(b[k] == RBRACE) by {
            assert((pre0 + bl + tail0)[k] == tail0[1]);
        }
        assert(k + 1 == b.len());
        assert(skip_ws(b, k + 1) == b.len());
        assert(spec_parse(b) == Some(es));
    }
    assert(Seq::<(Seq<u8>, Seq<u8>)>::empty() + es =~= es);
    lemma_fold_unique(Seq::empty(), es);
}


/// A lookup that passed the first `i` entries without a match is a lookup in
/// the rest.
proof fn lemma_lookup_skip(es: Seq<(Seq<u8>, Seq<u8>)>, k: Seq<u8>, i: int)
    requires
        0 <= i <= es.len(),
        forall|j| 0 <= j < i ==> es[j].0 != k,
    ensures
        spec_lookup(es, k) == spec_lookup(es.skip(i), k),
    decreases i,
{
    if i > 0 {
        lemma_lookup_skip(es.drop_first(), k, i - 1);
        assert(es.drop_first().skip(i - 1) =~= es.skip(i));
    } else {
        assert(es.skip(0) =~= es);
    }
}

/// Storing under a key found first at index `i` updates that entry in place.
proof fn lemma_set_at(es: Seq<(Seq<u8>, Seq<u8>)>, k: Seq<u8>, v: Seq<u8>, i: int)
    requires
        0 <= i < es.len(),
        forall|j| 0 <= j < i ==> es[j].0 != k,
        es[i].0 == k,
    ensures
        spec_set(es, k, v) == es.update(i, (k, v)),
    decreases i,
{
    if i == 0 {
        assert(spec_set(es, k, v) =~= es.update(0, (k, v)));
    } else {
        lemma_set_at(es.drop_first(), k, v, i - 1);
        assert(spec_set(es, k, v) =~= seq![es[0]] + es.drop_first().update(i - 1, (k, v)));
        assert(seq![es[0]] + es.drop_first().update(i - 1, (k, v)) =~= es.update(i, (k, v)));
    }
}

/// Storing under a key the list does not hold appends a new entry.
proof fn lemma_set_absent(es: Seq<(Seq<u8>, Seq<u8>)>, k: Seq<u8>, v: Seq<u8>)
    requires
        forall|j| 0 <= j < es.len() ==> es[j].0 != k,
    ensures
        spec_set(es, k, v) == es.push((k, v)),
    decreases es.len(),
{
    if es.len() == 0 {
        assert(spec_set(es, k, v) =~= es.push((k, v)));
    } else {
        lemma_set_absent(es.drop_first(), k, v);
        assert(spec_set(es, k, v) =~= seq![es[0]] + es.drop_first().push((k, v)));
        assert(seq![es[0]] + es.drop_first().push((k, v)) =~= es.push((k, v)));
    }
}

} // verus!
