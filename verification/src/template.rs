//! Journal templates: expanding placeholders in configured template text.

use vstd::prelude::*;

verus! {

/// The placeholder that is replaced with the current date.
pub open spec fn date_placeholder() -> Seq<char> {
    seq!['{', '{', 'D', 'A', 'T', 'E', '}', '}']
}

/// `text` with every occurrence of `pat` replaced by `sub`, scanning left to
/// right without overlap.
pub open spec fn spec_replace(text: Seq<char>, pat: Seq<char>, sub: Seq<char>) -> Seq<char>
    decreases text.len(),
{
    if pat.len() == 0 || text.len() < pat.len() {
        text
    } else if text.take(pat.len() as int) == pat {
        sub + spec_replace(text.skip(pat.len() as int), pat, sub)
    } else {
        seq![text[0]] + spec_replace(text.drop_first(), pat, sub)
    }
}

/// The initial content of a new journal: the configured template with the
/// date placeholder expanded to `date` (the current date, supplied by the
/// caller), or nothing when no template is configured.
pub fn create(template: Option<&String>, date: &str) -> (r: String)
    ensures
        match template {
            None => r@ == Seq::<char>::empty(),
            Some(t) => r@ == spec_replace(t@, date_placeholder(), date@),
        },
{
    let t = match template {
        None => return String::new(),
        Some(t) => t,
    };
    replace_date(t.as_str(), date)
}

/// Whether the date placeholder stands at position `i` of `s`.
fn placeholder_at(s: &str, i: usize) -> (r: bool)
    requires
        i + 8 <= s@.len(),
        s@.len() <= usize::MAX,
    ensures
        r == (s@.subrange(i as int, i as int + 8) == date_placeholder()),
{
    let r = s.get_char(i) == '{' && s.get_char(i + 1) == '{' && s.get_char(i + 2) == 'D'
        && s.get_char(i + 3) == 'A' && s.get_char(i + 4) == 'T' && s.get_char(i + 5) == 'E'
        && s.get_char(i + 6) == '}' && s.get_char(i + 7) == '}';
    proof {
        let sub = s@.subrange(i as int, i as int + 8);
        if r {
            assert(sub =~= date_placeholder());
        } else {
            assert(sub[0] == s@[i as int]);
            assert(sub[1] == s@[i as int + 1]);
            assert(sub[2] == s@[i as int + 2]);
            assert(sub[3] == s@[i as int + 3]);
            assert(sub[4] == s@[i as int + 4]);
            assert(sub[5] == s@[i as int + 5]);
            assert(sub[6] == s@[i as int + 6]);
            assert(sub[7] == s@[i as int + 7]);
        }
    }
    r
}

/// `s` with every date placeholder replaced by `date`.
fn replace_date(s: &str, date: &str) -> (r: String)
    ensures
        r@ == spec_replace(s@, date_placeholder(), date@),
{
    let ghost pat = date_placeholder();
    let ghost sub = date@;
    let n = s.unicode_len();
    let mut out = String::new();
    let mut i: usize = 0;
    proof {
        assert(s@.skip(0) =~= s@);
        assert(out@ + spec_replace(s@, pat, sub) =~= spec_replace(s@, pat, sub));
    }
    while i < n
        invariant
            i <= n,
            n == s@.len(),
            sub == date@,
            pat == date_placeholder(),
            spec_replace(s@, pat, sub) == out@ + spec_replace(s@.skip(i as int), pat, sub),
        decreases n - i,
    {
        let ghost rest = s@.skip(i as int);
        if n - i >= 8 && placeholder_at(s, i) {
            out.append(date);
            proof {
                assert(pat.len() == 8);
                assert(rest.take(8) =~= s@.subrange(i as int, i as int + 8));
                assert(rest.skip(8) =~= s@.skip(i as int + 8));
                assert(spec_replace(rest, pat, sub) == sub + spec_replace(
                    s@.skip(i as int + 8),
                    pat,
                    sub,
                ));
            }
            i = i + 8;
        } else {
            let part = s.substring_char(i, i + 1);
            out.append(part);
            proof {
                assert(pat.len() == 8);
                assert(part@ =~= seq![s@[i as int]]);
                assert(rest[0] == s@[i as int]);
                assert(rest.drop_first() =~= s@.skip(i as int + 1));
                if n - i >= 8 {
                    assert(rest.take(8) =~= s@.subrange(i as int, i as int + 8));
                    assert(rest.take(8) != pat);
                    assert(spec_replace(rest, pat, sub) == seq![s@[i as int]] + spec_replace(
                        s@.skip(i as int + 1),
                        pat,
                        sub,
                    ));
                } else {
                    assert(spec_replace(rest, pat, sub) == rest);
                    assert(spec_replace(s@.skip(i as int + 1), pat, sub) == s@.skip(i as int + 1));
                    assert(rest =~= seq![s@[i as int]] + s@.skip(i as int + 1));
                }
            }
            i = i + 1;
        }
    }
    proof {
        assert(s@.skip(n as int) =~= Seq::<char>::empty());
        assert(spec_replace(Seq::<char>::empty(), pat, sub) == Seq::<char>::empty());
        assert(out@ + Seq::<char>::empty() =~= out@);
    }
    out
}

} // verus!
