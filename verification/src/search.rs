//! Aggregating search results.
//!
//! Which lines match is the pattern engine's decision and stays outside the
//! library; everything around it is plain compute and verified here:
//! splitting content into lines, and formatting the matching lines with
//! their 1-based line numbers.

use vstd::prelude::*;

verus! {

/// A list of lines, as sequences.
pub open spec fn lines_view(ls: Seq<String>) -> Seq<Seq<char>> {
    ls.map_values(|l: String| l@)
}

/// A line's content without one trailing carriage return.
pub open spec fn strip_cr(l: Seq<char>) -> Seq<char> {
    if l.len() > 0 && l[l.len() - 1] == '\r' {
        l.drop_last()
    } else {
        l
    }
}

/// The position of the first '\n' at or past `i`, or the end.
pub open spec fn find_nl(s: Seq<char>, i: int) -> int
    decreases s.len() - i,
{
    if i < 0 || i >= s.len() {
        i
    } else if s[i] == '\n' {
        i
    } else {
        find_nl(s, i + 1)
    }
}

/// The scan for the first '\n' stays within the text, skips no newline,
/// and stops at one or at the end.
pub proof fn lemma_find_nl_bounds(s: Seq<char>, i: int)
    requires
        0 <= i <= s.len(),
    ensures
        i <= find_nl(s, i) <= s.len(),
        find_nl(s, i) == s.len() || s[find_nl(s, i)] == '\n',
        forall|j| i <= j < find_nl(s, i) ==> s[j] != '\n',
    decreases s.len() - i,
{
    if i < s.len() && s[i] != '\n' {
        lemma_find_nl_bounds(s, i + 1);
    }
}

/// The lines of a text, split at each '\n' with one carriage return before
/// it dropped; a trailing newline ends the last line rather than opening an
/// empty one, and a last line without a newline keeps any carriage return.
pub open spec fn spec_lines(s: Seq<char>) -> Seq<Seq<char>>
    decreases s.len(),
        via spec_lines_decreases
{
    if s.len() == 0 {
        Seq::empty()
    } else {
        let k = find_nl(s, 0);
        if k >= s.len() {
            seq![s]
        } else {
            seq![strip_cr(s.take(k))] + spec_lines(s.skip(k + 1))
        }
    }
}

#[via_fn]
proof fn spec_lines_decreases(s: Seq<char>) {
    if s.len() > 0 {
        lemma_find_nl_bounds(s, 0);
    }
}

/// A digit character.
pub open spec fn digit_char(d: nat) -> char
    recommends
        d < 10,
{
    ((48 + d) as u8) as char
}

/// A number in decimal notation.
pub open spec fn spec_decimal(n: nat) -> Seq<char>
    decreases n,
{
    if n < 10 {
        seq![digit_char(n)]
    } else {
        spec_decimal(n / 10) + seq![digit_char(n % 10)]
    }
}

/// One row of a search report: the 1-based line number, a colon and space,
/// then the line.
pub open spec fn spec_row(idx: nat, line: Seq<char>) -> Seq<char> {
    spec_decimal(idx) + ": "@ + line
}

/// The rows for the matching lines, numbering the first line `idx`.
pub open spec fn spec_match_rows(lines: Seq<Seq<char>>, matched: Seq<bool>, idx: nat) -> Seq<
    Seq<char>,
>
    decreases lines.len(),
{
    if lines.len() == 0 || matched.len() == 0 {
        Seq::empty()
    } else {
        (if matched[0] {
            seq![spec_row(idx, lines[0])]
        } else {
            Seq::empty()
        }) + spec_match_rows(lines.drop_first(), matched.drop_first(), idx + 1)
    }
}

/// The position of the first '\n' at or past `from`.
fn find_nl_exec(s: &str, from: usize) -> (r: usize)
    requires
        from <= s@.len(),
    ensures
        r == find_nl(s@, from as int),
        from <= r <= s@.len(),
{
    let n = s.unicode_len();
    let mut i = from;
    while i < n && s.get_char(i) != '\n'
        invariant
            from <= i <= n,
            n == s@.len(),
            find_nl(s@, from as int) == find_nl(s@, i as int),
        decreases n - i,
    {
        i = i + 1;
    }
    i
}

/// Splits content into its lines.
pub fn split_lines(content: &str) -> (r: Vec<String>)
    ensures
        lines_view(r@) == spec_lines(content@),
{
    let n = content.unicode_len();
    let mut out: Vec<String> = Vec::new();
    let mut i: usize = 0;
    proof {
        assert(content@.skip(0) =~= content@);
        assert(lines_view(out@) =~= Seq::<Seq<char>>::empty());
        assert(Seq::<Seq<char>>::empty() + spec_lines(content@) =~= spec_lines(content@));
    }
    while i < n
        invariant
            i <= n,
            n == content@.len(),
            spec_lines(content@) == lines_view(out@) + spec_lines(content@.skip(i as int)),
        decreases n - i,
    {
        let ghost rest = content@.skip(i as int);
        let k = find_nl_exec(content, i);
        proof {
            lemma_find_nl_shift(content@, i as int);
            assert(find_nl(rest, 0) == k - i);
        }
        if k >= n {
            let line = content.substring_char(i, n);
            out.push(line.to_owned());
            proof {
                assert(rest.len() > 0);
                assert(spec_lines(rest) == seq![rest]);
                assert(line@ == rest);
                lemma_lines_view_push(out@.drop_last(), out@[out@.len() - 1]);
                assert(lines_view(out@) =~= lines_view(out@.drop_last()) + seq![rest]);
                assert(content@.skip(n as int) =~= Seq::<char>::empty());
                assert(spec_lines(Seq::<char>::empty()) =~= Seq::<Seq<char>>::empty());
                assert(lines_view(out@) + spec_lines(content@.skip(n as int)) =~= lines_view(
                    out@.drop_last(),
                ) + spec_lines(rest));
            }
            i = n;
        } else {
            let line = if k > i && content.get_char(k - 1) == '\r' {
                content.substring_char(i, k - 1)
            } else {
                content.substring_char(i, k)
            };
            out.push(line.to_owned());
            proof {
                assert(rest.len() > 0);
                assert(rest.take(k - i) =~= content@.subrange(i as int, k as int));
                assert(rest.skip(k - i + 1) =~= content@.skip(k as int + 1));
                assert(spec_lines(rest) == seq![strip_cr(rest.take(k - i))] + spec_lines(
                    content@.skip(k as int + 1),
                ));
                assert(line@ == strip_cr(rest.take(k - i))) by {
                    if k > i && content@[k as int - 1] == '\r' {
                        assert(rest.take(k - i).drop_last() =~= content@.subrange(
                            i as int,
                            k as int - 1,
                        ));
                    }
                }
                lemma_lines_view_push(out@.drop_last(), out@[out@.len() - 1]);
                assert(lines_view(out@) =~= lines_view(out@.drop_last()) + seq![line@]);
                assert(lines_view(out@) + spec_lines(content@.skip(k as int + 1)) =~= lines_view(
                    out@.drop_last(),
                ) + spec_lines(rest));
            }
            i = k + 1;
        }
    }
    proof {
        assert(content@.skip(n as int) =~= Seq::<char>::empty());
        assert(spec_lines(Seq::<char>::empty()) =~= Seq::<Seq<char>>::empty());
        assert(lines_view(out@) + Seq::<Seq<char>>::empty() =~= lines_view(out@));
    }
    out
}

/// The scan for a newline in a suffix mirrors the scan in the whole text.
proof fn lemma_find_nl_shift(s: Seq<char>, i: int)
    requires
        0 <= i <= s.len(),
    ensures
        find_nl(s.skip(i), 0) == find_nl(s, i) - i,
{
    lemma_find_nl_bounds(s, i);
    let k = find_nl(s, i);
    assert forall|j| 0 <= j < k - i implies s.skip(i)[j] != '\n' by {
        assert(s.skip(i)[j] == s[i + j]);
    }
    if k < s.len() {
        assert(s.skip(i)[k - i] == s[k]);
    }
    lemma_find_nl_at(s.skip(i), k - i);
}

/// The first newline lies where the scan stopped.
proof fn lemma_find_nl_at(s: Seq<char>, k: int)
    requires
        0 <= k <= s.len(),
        forall|j| 0 <= j < k ==> s[j] != '\n',
        k < s.len() ==> s[k] == '\n',
    ensures
        find_nl(s, 0) == k,
{
    lemma_find_nl_from(s, 0, k);
}

proof fn lemma_find_nl_from(s: Seq<char>, i: int, k: int)
    requires
        0 <= i <= k <= s.len(),
        forall|j| i <= j < k ==> s[j] != '\n',
        k < s.len() ==> s[k] == '\n',
    ensures
        find_nl(s, i) == k,
    decreases k - i,
{
    if i < k {
        lemma_find_nl_from(s, i + 1, k);
    }
}

/// Pushing a line extends the view by its content.
proof fn lemma_lines_view_push(ls: Seq<String>, l: String)
    ensures
        lines_view(ls.push(l)) == lines_view(ls).push(l@),
{
    assert(lines_view(ls.push(l)) =~= lines_view(ls).push(l@));
}

/// A digit as text.
fn digit_str(d: usize) -> (r: &'static str)
    requires
        d < 10,
    ensures
        r@ == seq![digit_char(d as nat)],
{
    if d == 0 {
        proof {
            reveal_strlit("0");
            assert("0"@ =~= seq![digit_char(0)]);
        }
        "0"
    } else if d == 1 {
        proof {
            reveal_strlit("1");
            assert("1"@ =~= seq![digit_char(1)]);
        }
        "1"
    } else if d == 2 {
        proof {
            reveal_strlit("2");
            assert("2"@ =~= seq![digit_char(2)]);
        }
        "2"
    } else if d == 3 {
        proof {
            reveal_strlit("3");
            assert("3"@ =~= seq![digit_char(3)]);
        }
        "3"
    } else if d == 4 {
        proof {
            reveal_strlit("4");
            assert("4"@ =~= seq![digit_char(4)]);
        }
        "4"
    } else if d == 5 {
        proof {
            reveal_strlit("5");
            assert("5"@ =~= seq![digit_char(5)]);
        }
        "5"
    } else if d == 6 {
        proof {
            reveal_strlit("6");
            assert("6"@ =~= seq![digit_char(6)]);
        }
        "6"
    } else if d == 7 {
        proof {
            reveal_strlit("7");
            assert("7"@ =~= seq![digit_char(7)]);
        }
        "7"
    } else if d == 8 {
        proof {
            reveal_strlit("8");
            assert("8"@ =~= seq![digit_char(8)]);
        }
        "8"
    } else {
        proof {
            reveal_strlit("9");
            assert("9"@ =~= seq![digit_char(9)]);
        }
        "9"
    }
}

/// A number in decimal notation.
fn decimal_string(n: usize) -> (r: String)
    ensures
        r@ == spec_decimal(n as nat),
    decreases n,
{
    if n < 10 {
        digit_str(n).to_owned()
    } else {
        let mut s = decimal_string(n / 10);
        s.append(digit_str(n % 10));
        proof {
            assert(s@ =~= spec_decimal(n as nat));
        }
        s
    }
}

/// One more line extends the rows when it matched.
proof fn lemma_match_rows_push(
    lines: Seq<Seq<char>>,
    matched: Seq<bool>,
    idx: nat,
    l: Seq<char>,
    m: bool,
)
    requires
        lines.len() == matched.len(),
    ensures
        spec_match_rows(lines.push(l), matched.push(m), idx) == if m {
            spec_match_rows(lines, matched, idx).push(spec_row(idx + lines.len(), l))
        } else {
            spec_match_rows(lines, matched, idx)
        },
    decreases lines.len(),
{
    if lines.len() == 0 {
        assert(lines.push(l)[0] == l);
        assert(matched.push(m)[0] == m);
        assert(lines.push(l).drop_first() =~= Seq::<Seq<char>>::empty());
        assert(matched.push(m).drop_first() =~= Seq::<bool>::empty());
        assert(spec_match_rows(lines, matched, idx) == Seq::<Seq<char>>::empty());
        assert(spec_match_rows(Seq::<Seq<char>>::empty(), Seq::<bool>::empty(), idx + 1) == Seq::<
            Seq<char>,
        >::empty());
        assert(spec_match_rows(lines.push(l), matched.push(m), idx) == (if m {
            seq![spec_row(idx, l)]
        } else {
            Seq::<Seq<char>>::empty()
        }) + spec_match_rows(Seq::<Seq<char>>::empty(), Seq::<bool>::empty(), idx + 1));
        if m {
            assert(spec_match_rows(lines.push(l), matched.push(m), idx) =~= spec_match_rows(
                lines,
                matched,
                idx,
            ).push(spec_row(idx, l)));
        } else {
            assert(spec_match_rows(lines.push(l), matched.push(m), idx) =~= spec_match_rows(
                lines,
                matched,
                idx,
            ));
        }
    } else {
        assert(lines.push(l)[0] == lines[0]);
        assert(matched.push(m)[0] == matched[0]);
        assert(lines.push(l).drop_first() =~= lines.drop_first().push(l));
        assert(matched.push(m).drop_first() =~= matched.drop_first().push(m));
        lemma_match_rows_push(lines.drop_first(), matched.drop_first(), idx + 1, l, m);
        if m {
            assert(idx + 1 + lines.drop_first().len() == idx + lines.len());
            if matched[0] {
                assert(spec_match_rows(lines.push(l), matched.push(m), idx) =~= spec_match_rows(
                    lines,
                    matched,
                    idx,
                ).push(spec_row(idx + lines.len(), l)));
            } else {
                assert(spec_match_rows(lines.push(l), matched.push(m), idx) =~= spec_match_rows(
                    lines,
                    matched,
                    idx,
                ).push(spec_row(idx + lines.len(), l)));
            }
        } else {
            assert(spec_match_rows(lines.push(l), matched.push(m), idx) =~= spec_match_rows(
                lines,
                matched,
                idx,
            ));
        }
    }
}

/// The rows of a search report: every line whose flag is set, in order,
/// prefixed with its 1-based line number, a colon and a space.
pub fn format_matches(lines: &Vec<String>, matched: &Vec<bool>) -> (r: Vec<String>)
    requires
        lines@.len() == matched@.len(),
    ensures
        lines_view(r@) == spec_match_rows(lines_view(lines@), matched@, 1),
{
    let ghost lv = lines_view(lines@);
    let mut out: Vec<String> = Vec::new();
    let mut i: usize = 0;
    proof {
        assert(lv.take(0) =~= Seq::<Seq<char>>::empty());
        assert(matched@.take(0) =~= Seq::<bool>::empty());
        assert(lines_view(out@) =~= spec_match_rows(lv.take(0), matched@.take(0), 1));
    }
    while i < lines.len()
        invariant
            i <= lines@.len(),
            lines@.len() == matched@.len(),
            lv == lines_view(lines@),
            lv.len() == lines@.len(),
            lines_view(out@) == spec_match_rows(lv.take(i as int), matched@.take(i as int), 1),
        decreases lines@.len() - i,
    {
        proof {
            assert(lv[i as int] == lines@[i as int]@);
        }
        if matched[i] {
            let mut row = decimal_string(i + 1);
            row.append(": ");
            row.append(lines[i].as_str());
            proof {
                assert(row@ == spec_row((i + 1) as nat, lv[i as int]));
            }
            out.push(row);
            proof {
                lemma_match_rows_push(
                    lv.take(i as int),
                    matched@.take(i as int),
                    1,
                    lv[i as int],
                    true,
                );
                assert(lv.take(i as int).push(lv[i as int]) =~= lv.take(i as int + 1));
                assert(matched@.take(i as int).push(true) =~= matched@.take(i as int + 1));
                lemma_lines_view_push(out@.drop_last(), out@[out@.len() - 1]);
                assert(lines_view(out@) =~= spec_match_rows(
                    lv.take(i as int + 1),
                    matched@.take(i as int + 1),
                    1,
                ));
            }
        } else {
            proof {
                lemma_match_rows_push(
                    lv.take(i as int),
                    matched@.take(i as int),
                    1,
                    lv[i as int],
                    false,
                );
                assert(lv.take(i as int).push(lv[i as int]) =~= lv.take(i as int + 1));
                assert(matched@.take(i as int).push(false) =~= matched@.take(i as int + 1));
            }
        }
        i = i + 1;
    }
    proof {
        assert(lv.take(lv.len() as int) =~= lv);
        assert(matched@.take(matched@.len() as int) =~= matched@);
    }
    out
}

} // verus!
