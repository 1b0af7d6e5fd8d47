//! Validation of workspace names.

use vstd::prelude::*;

verus! {

/// The whitespace trimmed from the ends of a candidate name: the Unicode
/// White_Space characters, as str::trim removes them.
pub open spec fn is_space(c: char) -> bool {
    ||| ('\u{0009}' <= c && c <= '\u{000D}')
    ||| c == ' '
    ||| c == '\u{0085}'
    ||| c == '\u{00A0}'
    ||| c == '\u{1680}'
    ||| ('\u{2000}' <= c && c <= '\u{200A}')
    ||| c == '\u{2028}'
    ||| c == '\u{2029}'
    ||| c == '\u{202F}'
    ||| c == '\u{205F}'
    ||| c == '\u{3000}'
}

/// The characters a workspace name may hold.
pub open spec fn workspace_char_ok(c: char) -> bool {
    ('a' <= c && c <= 'z') || ('A' <= c && c <= 'Z') || c == '-' || c == '_'
}

/// A name with its leading whitespace removed.
pub open spec fn trim_front(s: Seq<char>) -> Seq<char>
    decreases s.len(),
{
    if s.len() > 0 && is_space(s[0]) {
        trim_front(s.drop_first())
    } else {
        s
    }
}

/// A name with its trailing whitespace removed.
pub open spec fn trim_back(s: Seq<char>) -> Seq<char>
    decreases s.len(),
{
    if s.len() > 0 && is_space(s[s.len() - 1]) {
        trim_back(s.drop_last())
    } else {
        s
    }
}

/// A name with the whitespace at both ends removed.
pub open spec fn spec_trim(s: Seq<char>) -> Seq<char> {
    trim_back(trim_front(s))
}

/// A valid workspace name: 2 to 25 characters after trimming, holding only
/// letters, '-' and '_'.
pub open spec fn spec_valid_workspace_name(t: Seq<char>) -> bool {
    &&& 2 <= t.len() <= 25
    &&& forall|i| 0 <= i < t.len() ==> workspace_char_ok(#[trigger] t[i])
}

proof fn lemma_trim_front_at(s: Seq<char>, a: int)
    requires
        0 <= a <= s.len(),
        forall|k| 0 <= k < a ==> is_space(#[trigger] s[k]),
        a < s.len() ==> !is_space(s[a]),
    ensures
        trim_front(s) == s.skip(a),
    decreases a,
{
    if a == 0 {
        assert(s.skip(0) =~= s);
    } else {
        lemma_trim_front_at(s.drop_first(), a - 1);
        assert(s.drop_first().skip(a - 1) =~= s.skip(a));
    }
}

proof fn lemma_trim_back_at(s: Seq<char>, b: int)
    requires
        0 <= b <= s.len(),
        forall|k| b <= k < s.len() ==> is_space(#[trigger] s[k]),
        b > 0 ==> !is_space(s[b - 1]),
    ensures
        trim_back(s) == s.take(b),
    decreases s.len(),
{
    if b == s.len() {
        if s.len() > 0 && is_space(s[s.len() - 1]) {
        } else {
            assert(s.take(b) =~= s);
        }
    } else {
        assert(is_space(s[s.len() - 1]));
        lemma_trim_back_at(s.drop_last(), b);
        assert(s.drop_last().take(b) =~= s.take(b));
    }
}

/// Checks a workspace name: trims whitespace at both ends, requires 2 to 25
/// characters, and only letters, '-' and '_'. Returns the trimmed name, or
/// a message saying what is wrong with it.
pub fn valid_workspace_name(s: &str) -> (r: Result<String, String>)
    ensures
        ({
            let t = spec_trim(s@);
            match r {
                Ok(name) => name@ == t && spec_valid_workspace_name(t),
                Err(m) => {
                    &&& !spec_valid_workspace_name(t)
                    &&& (t.len() < 2 ==> m@ == "too short workspace name"@)
                    &&& (t.len() > 25 ==> m@ == "too long workspace name"@)
                    &&& (2 <= t.len() <= 25 ==> m@
                        == "workspace name contains invalid characters"@)
                },
            }
        }),
{
    let n = s.unicode_len();
    let mut a: usize = 0;
    while a < n && is_space_exec(s.get_char(a))
        invariant
            a <= n,
            n == s@.len(),
            forall|k| 0 <= k < a ==> is_space(#[trigger] s@[k]),
        decreases n - a,
    {
        a = a + 1;
    }
    let mut b: usize = n;
    while b > a && is_space_exec(s.get_char(b - 1))
        invariant
            a <= b <= n,
            n == s@.len(),
            forall|k| b <= k < n ==> is_space(#[trigger] s@[k]),
        decreases b,
    {
        b = b - 1;
    }
    proof {
        lemma_trim_front_at(s@, a as int);
        if b == a {
            lemma_trim_back_at(s@.skip(a as int), 0);
        } else {
            lemma_trim_back_at(s@.skip(a as int), b - a);
        }
        assert(s@.skip(a as int).take(b - a) =~= s@.subrange(a as int, b as int));
    }
    let t = s.substring_char(a, b);
    proof {
        assert(t@ == spec_trim(s@));
    }
    let tn = t.unicode_len();
    if tn < 2 {
        return Err("too short workspace name".to_owned());
    }
    if tn > 25 {
        return Err("too long workspace name".to_owned());
    }
    let mut i: usize = 0;
    while i < tn
        invariant
            i <= tn,
            tn == t@.len(),
            t@ == spec_trim(s@),
            2 <= tn <= 25,
            forall|k| 0 <= k < i ==> workspace_char_ok(#[trigger] t@[k]),
        decreases tn - i,
    {
        let c = t.get_char(i);
        let ok = ('a' <= c && c <= 'z') || ('A' <= c && c <= 'Z') || c == '-' || c == '_';
        if !ok {
            return Err("workspace name contains invalid characters".to_owned());
        }
        i = i + 1;
    }
    Ok(t.to_owned())
}

/// Whether a character is trimmed whitespace.
fn is_space_exec(c: char) -> (r: bool)
    ensures
        r == is_space(c),
{
    ('\u{0009}' <= c && c <= '\u{000D}') || c == ' ' || c == '\u{0085}' || c == '\u{00A0}'
        || c == '\u{1680}' || ('\u{2000}' <= c && c <= '\u{200A}') || c == '\u{2028}'
        || c == '\u{2029}' || c == '\u{202F}' || c == '\u{205F}' || c == '\u{3000}'
}

} // verus!
