//! Presenting results to the user as plain text.

use vstd::prelude::*;

use crate::fs::spec_filename;
use crate::fs::FileEntry;

verus! {

/// Output represents things that can be presented to the user.
pub enum Output {
    /// A workspace's name and the journals listed in it.
    WorkspaceJournals(String, Vec<FileEntry>),
    /// The result of performing an export.
    ExportResult { exported: Vec<String>, skipped: Vec<String> },
}

impl Output {
    /// The result of an export that considered nothing.
    pub fn empty_export() -> (r: Output)
        ensures
            r matches Output::ExportResult { exported, skipped } && exported@.len() == 0
                && skipped@.len() == 0,
    {
        Output::ExportResult { exported: Vec::new(), skipped: Vec::new() }
    }
}

/// The journal lines of a workspace listing: each name indented, one per
/// line.
pub open spec fn spec_journal_rows(names: Seq<Seq<char>>) -> Seq<char>
    decreases names.len(),
{
    if names.len() == 0 {
        Seq::empty()
    } else if names.len() == 1 {
        "    "@ + names[0]
    } else {
        "    "@ + names[0] + "\n"@ + spec_journal_rows(names.drop_first())
    }
}

/// A workspace listing: the workspace name, a slash, and its journals.
pub open spec fn spec_format_workspace(ws: Seq<char>, names: Seq<Seq<char>>) -> Seq<char> {
    ws + "/\n"@ + spec_journal_rows(names)
}

/// Rows of an export report: each item on a fresh indented line, with an
/// optional trailing text.
pub open spec fn spec_export_rows(items: Seq<Seq<char>>, trail: Seq<char>) -> Seq<char>
    decreases items.len(),
{
    if items.len() == 0 {
        Seq::empty()
    } else {
        "\n  "@ + items[0] + trail + spec_export_rows(items.drop_first(), trail)
    }
}

/// An export report: the exported block, the skipped block, or both.
pub open spec fn spec_format_export(exported: Seq<Seq<char>>, skipped: Seq<Seq<char>>) -> Seq<
    char,
> {
    let ex = "Exported files:"@ + spec_export_rows(exported, Seq::empty());
    let sk = "Skipped files:"@ + spec_export_rows(skipped, " "@);
    if exported.len() > 0 && skipped.len() > 0 {
        ex + "\n"@ + sk
    } else if exported.len() > 0 {
        ex
    } else if skipped.len() > 0 {
        sk
    } else {
        Seq::empty()
    }
}

/// The text an output formats to.
pub open spec fn spec_format(o: Output) -> Seq<char> {
    match o {
        Output::WorkspaceJournals(ws, entries) => spec_format_workspace(
            ws@,
            entries@.map_values(|e: FileEntry| spec_filename(e.path_view())),
        ),
        Output::ExportResult { exported, skipped } => spec_format_export(
            exported@.map_values(|s: String| s@),
            skipped@.map_values(|s: String| s@),
        ),
    }
}

/// Appending one more name adds one more indented line.
proof fn lemma_journal_rows_push(names: Seq<Seq<char>>, x: Seq<char>)
    ensures
        spec_journal_rows(names.push(x)) == if names.len() == 0 {
            "    "@ + x
        } else {
            spec_journal_rows(names) + "\n"@ + "    "@ + x
        },
    decreases names.len(),
{
    if names.len() == 0 {
        assert(names.push(x)[0] == x);
    } else {
        assert(names.push(x)[0] == names[0]);
        assert(names.push(x).drop_first() =~= names.drop_first().push(x));
        lemma_journal_rows_push(names.drop_first(), x);
        if names.len() == 1 {
            assert(spec_journal_rows(names.push(x)) =~= spec_journal_rows(names) + "\n"@ + "    "@
                + x);
        } else {
            assert(spec_journal_rows(names.push(x)) =~= spec_journal_rows(names) + "\n"@ + "    "@
                + x);
        }
    }
}

/// Appending one more item adds one more report row.
proof fn lemma_export_rows_push(items: Seq<Seq<char>>, trail: Seq<char>, x: Seq<char>)
    ensures
        spec_export_rows(items.push(x), trail) == spec_export_rows(items, trail) + "\n  "@ + x
            + trail,
    decreases items.len(),
{
    if items.len() == 0 {
        assert(items.push(x)[0] == x);
        assert(items.push(x).drop_first() =~= Seq::<Seq<char>>::empty());
        assert(spec_export_rows(Seq::<Seq<char>>::empty(), trail) == Seq::<char>::empty());
        assert(spec_export_rows(items, trail) == Seq::<char>::empty());
        assert(spec_export_rows(items.push(x), trail) == "\n  "@ + x + trail + Seq::<
            char,
        >::empty());
        assert(spec_export_rows(items.push(x), trail) =~= spec_export_rows(items, trail) + "\n  "@
            + x + trail);
    } else {
        assert(items.push(x)[0] == items[0]);
        assert(items.push(x).drop_first() =~= items.drop_first().push(x));
        lemma_export_rows_push(items.drop_first(), trail, x);
        assert(spec_export_rows(items.push(x), trail) =~= spec_export_rows(items, trail) + "\n  "@
            + x + trail);
    }
}

/// Formats outputs as plain text.
pub struct TextFormatter {}

impl TextFormatter {
    /// The text for an output: a workspace listing as the workspace name
    /// over its indented journals, an export report as the exported and
    /// skipped files under their headings.
    pub fn format(&self, output: Output) -> (r: String)
        ensures
            r@ == spec_format(output),
    {
        match output {
            Output::WorkspaceJournals(ws, entries) => {
                let ghost names = entries@.map_values(|e: FileEntry| spec_filename(e.path_view()));
                let ghost ws0 = ws@;
                let mut out = ws;
                out.append("/\n");
                let mut i: usize = 0;
                proof {
                    assert(names.take(0) =~= Seq::<Seq<char>>::empty());
                }
                while i < entries.len()
                    invariant
                        i <= entries@.len(),
                        names == entries@.map_values(
                            |e: FileEntry| spec_filename(e.path_view()),
                        ),
                        names.len() == entries@.len(),
                        out@ == ws0 + "/\n"@ + spec_journal_rows(names.take(i as int)),
                    decreases entries@.len() - i,
                {
                    if i > 0 {
                        out.append("\n");
                    }
                    out.append("    ");
                    let name = entries[i].filename();
                    out.append(name.as_str());
                    proof {
                        assert(names[i as int] == spec_filename(entries@[i as int].path_view()));
                        lemma_journal_rows_push(names.take(i as int), names[i as int]);
                        assert(names.take(i as int).push(names[i as int]) =~= names.take(
                            i as int + 1,
                        ));
                        assert(out@ =~= ws0 + "/\n"@ + spec_journal_rows(names.take(i as int + 1)));
                    }
                    i = i + 1;
                }
                proof {
                    assert(names.take(names.len() as int) =~= names);
                }
                out
            },
            Output::ExportResult { exported, skipped } => {
                let ghost ex = exported@.map_values(|s: String| s@);
                let ghost sk = skipped@.map_values(|s: String| s@);
                let mut out = String::new();
                if exported.len() > 0 {
                    out.append("Exported files:");
                    let mut i: usize = 0;
                    proof {
                        assert(ex.take(0) =~= Seq::<Seq<char>>::empty());
                        assert(out@ =~= "Exported files:"@ + spec_export_rows(
                            ex.take(0),
                            Seq::empty(),
                        ));
                    }
                    while i < exported.len()
                        invariant
                            i <= exported@.len(),
                            ex == exported@.map_values(|s: String| s@),
                            ex.len() == exported@.len(),
                            out@ == "Exported files:"@ + spec_export_rows(
                                ex.take(i as int),
                                Seq::empty(),
                            ),
                        decreases exported@.len() - i,
                    {
                        out.append("\n  ");
                        out.append(exported[i].as_str());
                        proof {
                            assert(ex[i as int] == exported@[i as int]@);
                            lemma_export_rows_push(ex.take(i as int), Seq::empty(), ex[i as int]);
                            assert(ex.take(i as int).push(ex[i as int]) =~= ex.take(i as int + 1));
                            assert(out@ =~= "Exported files:"@ + spec_export_rows(
                                ex.take(i as int + 1),
                                Seq::empty(),
                            ));
                        }
                        i = i + 1;
                    }
                    proof {
                        assert(ex.take(ex.len() as int) =~= ex);
                    }
                }
                if skipped.len() > 0 {
                    if exported.len() > 0 {
                        out.append("\n");
                    }
                    let ghost base = out@;
                    out.append("Skipped files:");
                    let mut i: usize = 0;
                    proof {
                        assert(sk.take(0) =~= Seq::<Seq<char>>::empty());
                        assert(out@ =~= base + ("Skipped files:"@ + spec_export_rows(
                            sk.take(0),
                            " "@,
                        )));
                    }
                    while i < skipped.len()
                        invariant
                            i <= skipped@.len(),
                            sk == skipped@.map_values(|s: String| s@),
                            sk.len() == skipped@.len(),
                            out@ == base + ("Skipped files:"@ + spec_export_rows(
                                sk.take(i as int),
                                " "@,
                            )),
                        decreases skipped@.len() - i,
                    {
                        out.append("\n  ");
                        out.append(skipped[i].as_str());
                        out.append(" ");
                        proof {
                            assert(sk[i as int] == skipped@[i as int]@);
                            lemma_export_rows_push(sk.take(i as int), " "@, sk[i as int]);
                            assert(sk.take(i as int).push(sk[i as int]) =~= sk.take(i as int + 1));
                            assert(out@ =~= base + ("Skipped files:"@ + spec_export_rows(
                                sk.take(i as int + 1),
                                " "@,
                            )));
                        }
                        i = i + 1;
                    }
                    proof {
                        assert(sk.take(sk.len() as int) =~= sk);
                    }
                }
                proof {
                    assert(out@ =~= spec_format_export(ex, sk));
                }
                out
            },
        }
    }
}

} // verus!
