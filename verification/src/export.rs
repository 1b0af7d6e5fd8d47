//! Incremental export planning over the manifest.
//!
//! For each file the current content digest is compared against the
//! manifest: a match means the target already holds that version (skip),
//! anything else means export and update the manifest entry. The manifest
//! is persisted only when its serialized form's digest changed — so a run
//! that changes nothing uploads nothing.

use vstd::prelude::*;

use crate::fs::digest_bytes;
use crate::fs::hex_bytes_of;
use crate::fs::sha256_of;
use crate::manifest::bytes_eq;
use crate::manifest::copy_bytes;
use crate::manifest::spec_lookup;
use crate::manifest::spec_print;
use crate::manifest::spec_set;
use crate::manifest::unique_keys;
use crate::manifest::Manifest;
use crate::types::Workspace;

verus! {

/// What diffing a file list against a manifest yields, in input order: the
/// updated manifest, the exported keys, and the skipped keys. A file whose
/// digest the manifest already holds under its key is skipped; any other
/// file is exported and its entry updated.
pub open spec fn spec_diff_files(
    m: Seq<(Seq<u8>, Seq<u8>)>,
    files: Seq<(Seq<u8>, Seq<u8>)>,
) -> (Seq<(Seq<u8>, Seq<u8>)>, Seq<Seq<u8>>, Seq<Seq<u8>>)
    decreases files.len(),
{
    if files.len() == 0 {
        (m, Seq::empty(), Seq::empty())
    } else {
        let k = files[0].0;
        let d = files[0].1;
        if spec_lookup(m, k) == Some(d) {
            let r = spec_diff_files(m, files.drop_first());
            (r.0, r.1, seq![k] + r.2)
        } else {
            let r = spec_diff_files(spec_set(m, k, d), files.drop_first());
            (r.0, seq![k] + r.1, r.2)
        }
    }
}

/// One file considered for export: its manifest key
/// (`"{workspace}/{filename}"`) and its current content digest.
pub struct ExportFile {
    /// The manifest key the file is stored under.
    pub key: Vec<u8>,
    /// The lowercase hex digest of the file's current content.
    pub digest: Vec<u8>,
}

/// Export files as pairs of sequences.
pub open spec fn files_view(files: Seq<ExportFile>) -> Seq<(Seq<u8>, Seq<u8>)> {
    files.map_values(|f: ExportFile| (f.key@, f.digest@))
}

/// A list of byte strings, as sequences.
pub open spec fn keys_view(ks: Seq<Vec<u8>>) -> Seq<Seq<u8>> {
    ks.map_values(|k: Vec<u8>| k@)
}

/// What one export run decided: the partition into exported and skipped
/// keys, the updated manifest with its serialized form, and whether that
/// form must be persisted.
pub struct ExportPlan {
    /// Keys whose content must be written to the target, in input order.
    pub exported: Vec<Vec<u8>>,
    /// Keys the target already holds at the current digest, in input order.
    pub skipped: Vec<Vec<u8>>,
    /// The manifest after recording every considered file.
    pub manifest: Manifest,
    /// The updated manifest, serialized.
    pub manifest_json: Vec<u8>,
    /// Whether the serialized manifest's digest differs from the old one's.
    pub changed: bool,
    /// Whether the serialized manifest must be written: it changed and this
    /// is not a dry run.
    pub persist: bool,
}

/// Diffs the files against the manifest, in input order: a file whose digest
/// the manifest already holds under its key is skipped; any other file is
/// exported and its manifest entry updated.
pub fn diff_files(manifest: &mut Manifest, files: &Vec<ExportFile>) -> (r: (
    Vec<Vec<u8>>,
    Vec<Vec<u8>>,
))
    ensures
        final(manifest).view() == spec_diff_files(old(manifest).view(), files_view(files@)).0,
        keys_view(r.0@) == spec_diff_files(old(manifest).view(), files_view(files@)).1,
        keys_view(r.1@) == spec_diff_files(old(manifest).view(), files_view(files@)).2,
        old(manifest).wf() ==> final(manifest).wf(),
{
    let ghost m0 = manifest.view();
    let ghost fv = files_view(files@);
    let ghost full = spec_diff_files(m0, fv);
    let mut exported: Vec<Vec<u8>> = Vec::new();
    let mut skipped: Vec<Vec<u8>> = Vec::new();
    let mut i: usize = 0;
    proof {
        assert(fv.skip(0) =~= fv);
        assert(keys_view(exported@) =~= Seq::<Seq<u8>>::empty());
        assert(keys_view(skipped@) =~= Seq::<Seq<u8>>::empty());
        assert(Seq::<Seq<u8>>::empty() + full.1 =~= full.1);
        assert(Seq::<Seq<u8>>::empty() + full.2 =~= full.2);
    }
    while i < files.len()
        invariant
            i <= fv.len(),
            fv == files_view(files@),
            fv.len() == files@.len(),
            full == spec_diff_files(m0, fv),
            spec_diff_files(manifest.view(), fv.skip(i as int)).0 == full.0,
            full.1 == keys_view(exported@) + spec_diff_files(manifest.view(), fv.skip(i as int)).1,
            full.2 == keys_view(skipped@) + spec_diff_files(manifest.view(), fv.skip(i as int)).2,
            old(manifest).wf() ==> manifest.wf(),
        decreases files@.len() - i,
    {
        let ghost mv = manifest.view();
        let ghost rest = fv.skip(i as int);
        proof {
            assert(fv[i as int] == (files@[i as int].key@, files@[i as int].digest@));
            assert(rest[0] == fv[i as int]);
            assert(rest.drop_first() =~= fv.skip(i as int + 1));
        }
        let f = &files[i];
        let matches_stored: bool = match manifest.lookup(f.key.as_slice()) {
            Some(d) => bytes_eq(d.as_slice(), f.digest.as_slice()),
            None => false,
        };
        if matches_stored {
            skipped.push(copy_bytes(&f.key));
            proof {
                assert(keys_view(skipped@) =~= keys_view(skipped@.drop_last()).push(f.key@));
                assert(keys_view(skipped@.drop_last()).push(f.key@) + spec_diff_files(
                    manifest.view(),
                    fv.skip(i as int + 1),
                ).2 =~= keys_view(skipped@.drop_last()) + (seq![f.key@] + spec_diff_files(
                    manifest.view(),
                    fv.skip(i as int + 1),
                ).2));
            }
        } else {
            manifest.set(copy_bytes(&f.key), copy_bytes(&f.digest));
            exported.push(copy_bytes(&f.key));
            proof {
                assert(manifest.view() == spec_set(mv, f.key@, f.digest@));
                assert(keys_view(exported@) =~= keys_view(exported@.drop_last()).push(f.key@));
                assert(keys_view(exported@.drop_last()).push(f.key@) + spec_diff_files(
                    manifest.view(),
                    fv.skip(i as int + 1),
                ).1 =~= keys_view(exported@.drop_last()) + (seq![f.key@] + spec_diff_files(
                    manifest.view(),
                    fv.skip(i as int + 1),
                ).1));
            }
        }
        i = i + 1;
    }
    proof {
        assert(fv.skip(fv.len() as int) =~= Seq::<(Seq<u8>, Seq<u8>)>::empty());
        assert(keys_view(exported@) + Seq::<Seq<u8>>::empty() =~= keys_view(exported@));
        assert(keys_view(skipped@) + Seq::<Seq<u8>>::empty() =~= keys_view(skipped@));
    }
    (exported, skipped)
}

/// Plans one export run: diffs the files against the previous manifest and
/// decides whether the updated manifest must be persisted.
///
/// The partition, the updated manifest and `changed` do not depend on
/// `dryrun`; a dry run differs only in never asking for persistence. The
/// manifest is persisted exactly when the serialized forms of the old and
/// new manifest have different digests, so a run that changed nothing — and
/// a dry run — writes nothing.
pub fn plan_export(old_manifest: &Manifest, files: &Vec<ExportFile>, dryrun: bool) -> (r:
    ExportPlan)
    ensures
        r.manifest.view() == spec_diff_files(old_manifest.view(), files_view(files@)).0,
        keys_view(r.exported@) == spec_diff_files(old_manifest.view(), files_view(files@)).1,
        keys_view(r.skipped@) == spec_diff_files(old_manifest.view(), files_view(files@)).2,
        r.manifest_json@ == spec_print(r.manifest.view()),
        r.changed == (hex_bytes_of(sha256_of(spec_print(old_manifest.view()))) != hex_bytes_of(
            sha256_of(spec_print(r.manifest.view())),
        )),
        r.persist == (r.changed && !dryrun),
        old_manifest.wf() ==> r.manifest.wf(),
{
    let mut manifest = old_manifest.duplicate();
    let (exported, skipped) = diff_files(&mut manifest, files);
    let old_json = old_manifest.to_json();
    let manifest_json = manifest.to_json();
    let old_digest = digest_bytes(old_json.as_slice());
    let new_digest = digest_bytes(manifest_json.as_slice());
    let changed = !bytes_eq(old_digest.as_slice(), new_digest.as_slice());
    let persist = changed && !dryrun;
    ExportPlan { exported, skipped, manifest, manifest_json, changed, persist }
}

/// Workspace names as sequences.
pub open spec fn names_view(ns: Seq<String>) -> Seq<Seq<char>> {
    ns.map_values(|n: String| n@)
}

/// Whether a workspace passes the configured filter: no filter keeps all,
/// a filter keeps exactly the listed names.
pub open spec fn spec_ws_kept(filter: Option<Seq<Seq<char>>>, w: Workspace) -> bool {
    match filter {
        None => true,
        Some(ns) => ns.contains(w.name@),
    }
}

/// The workspaces that pass the filter, in order.
pub open spec fn spec_filter_ws(filter: Option<Seq<Seq<char>>>, ws: Seq<Workspace>) -> Seq<
    Workspace,
>
    decreases ws.len(),
{
    if ws.len() == 0 {
        Seq::empty()
    } else if spec_ws_kept(filter, ws[0]) {
        seq![ws[0]] + spec_filter_ws(filter, ws.drop_first())
    } else {
        spec_filter_ws(filter, ws.drop_first())
    }
}

/// Whether a list of names holds `s`.
fn contains_string(ns: &Vec<String>, s: &String) -> (r: bool)
    ensures
        r == names_view(ns@).contains(s@),
{
    let ghost nv = names_view(ns@);
    let mut i: usize = 0;
    while i < ns.len()
        invariant
            i <= nv.len(),
            nv == names_view(ns@),
            nv.len() == ns@.len(),
            forall|j| 0 <= j < i ==> nv[j] != s@,
        decreases ns@.len() - i,
    {
        proof {
            assert(nv[i as int] == ns@[i as int]@);
        }
        if ns[i].eq(s) {
            return true;
        }
        i = i + 1;
    }
    proof {
        if nv.contains(s@) {
            let w = choose|w: int| 0 <= w < nv.len() && nv[w] == s@;
            assert(nv[w] != s@);
        }
    }
    false
}

/// One step of filtering appends the workspace when it passes.
proof fn lemma_filter_ws_push(filter: Option<Seq<Seq<char>>>, ws: Seq<Workspace>, w: Workspace)
    ensures
        spec_filter_ws(filter, ws.push(w)) == if spec_ws_kept(filter, w) {
            spec_filter_ws(filter, ws).push(w)
        } else {
            spec_filter_ws(filter, ws)
        },
    decreases ws.len(),
{
    if ws.len() == 0 {
        assert(ws.push(w)[0] == w);
        assert(ws.push(w).drop_first() =~= Seq::<Workspace>::empty());
        assert(spec_filter_ws(filter, Seq::<Workspace>::empty()) == Seq::<Workspace>::empty());
        assert(spec_filter_ws(filter, ws) == Seq::<Workspace>::empty());
        if spec_ws_kept(filter, w) {
            assert(spec_filter_ws(filter, ws.push(w)) == seq![w] + Seq::<Workspace>::empty());
            assert(seq![w] + Seq::<Workspace>::empty() =~= Seq::<Workspace>::empty().push(w));
        } else {
            assert(spec_filter_ws(filter, ws.push(w)) == Seq::<Workspace>::empty());
        }
    } else {
        assert(ws.push(w)[0] == ws[0]);
        assert(ws.push(w).drop_first() =~= ws.drop_first().push(w));
        lemma_filter_ws_push(filter, ws.drop_first(), w);
        if spec_ws_kept(filter, ws[0]) {
            assert(spec_filter_ws(filter, ws.push(w)) == seq![ws[0]] + spec_filter_ws(
                filter,
                ws.drop_first().push(w),
            ));
            assert(spec_filter_ws(filter, ws) == seq![ws[0]] + spec_filter_ws(
                filter,
                ws.drop_first(),
            ));
            if spec_ws_kept(filter, w) {
                assert(seq![ws[0]] + spec_filter_ws(filter, ws.drop_first()).push(w) =~= (seq![
                    ws[0],
                ] + spec_filter_ws(filter, ws.drop_first())).push(w));
            }
        } else {
            assert(spec_filter_ws(filter, ws.push(w)) == spec_filter_ws(
                filter,
                ws.drop_first().push(w),
            ));
            assert(spec_filter_ws(filter, ws) == spec_filter_ws(filter, ws.drop_first()));
        }
    }
}

/// The workspaces an export considers: all of them, or — when the
/// configuration names workspaces — exactly the named ones, in order.
pub fn filter_workspaces(filter: Option<&Vec<String>>, ws: Vec<Workspace>) -> (r: Vec<Workspace>)
    ensures
        ({
            let fv = match filter {
                None => None,
                Some(ns) => Some(names_view(ns@)),
            };
            r@ == spec_filter_ws(fv, ws@)
        }),
{
    let ghost fv = match filter {
        None => None,
        Some(ns) => Some(names_view(ns@)),
    };
    let ghost ws0 = ws@;
    let mut rest = ws;
    let mut out: Vec<Workspace> = Vec::new();
    proof {
        assert(ws0.take(0) =~= Seq::<Workspace>::empty());
    }
    while rest.len() > 0
        invariant
            rest@.len() <= ws0.len(),
            ws0.skip(ws0.len() - rest@.len()) == rest@,
            out@ == spec_filter_ws(fv, ws0.take(ws0.len() - rest@.len())),
            fv == match filter {
                None => None,
                Some(ns) => Some(names_view(ns@)),
            },
        decreases rest@.len(),
    {
        let ghost done = ws0.len() - rest@.len();
        let ghost prev = rest@;
        let w = rest.remove(0);
        proof {
            assert(w == ws0[done]);
            assert(rest@ =~= ws0.skip(done + 1));
        }
        let keep = match filter {
            None => true,
            Some(ns) => contains_string(ns, &w.name),
        };
        proof {
            lemma_filter_ws_push(fv, ws0.take(done), ws0[done]);
            assert(ws0.take(done).push(ws0[done]) =~= ws0.take(done + 1));
        }
        if keep {
            out.push(w);
        }
    }
    proof {
        assert(ws0.take(ws0.len() as int) =~= ws0);
    }
    out
}

/// Law: an export over files whose digests all match the manifest changes
/// nothing — no file is exported, every file is skipped in order, and the
/// manifest is left exactly as it was.
pub proof fn lemma_unchanged_export(m: Seq<(Seq<u8>, Seq<u8>)>, files: Seq<(Seq<u8>, Seq<u8>)>)
    requires
        forall|t| 0 <= t < files.len() ==> spec_lookup(m, files[t].0) == Some(files[t].1),
    ensures
        spec_diff_files(m, files).0 == m,
        spec_diff_files(m, files).1 == Seq::<Seq<u8>>::empty(),
        spec_diff_files(m, files).2 == files.map_values(|f: (Seq<u8>, Seq<u8>)| f.0),
    decreases files.len(),
{
    if files.len() == 0 {
        assert(spec_diff_files(m, files).2 =~= files.map_values(|f: (Seq<u8>, Seq<u8>)| f.0));
    } else {
        assert(files[0] == (files[0].0, files[0].1));
        assert forall|t| 0 <= t < files.drop_first().len() implies spec_lookup(
            m,
            #[trigger] files.drop_first()[t].0,
        ) == Some(files.drop_first()[t].1) by {
            assert(files.drop_first()[t] == files[t + 1]);
        }
        lemma_unchanged_export(m, files.drop_first());
        assert(seq![files[0].0] + files.drop_first().map_values(|f: (Seq<u8>, Seq<u8>)| f.0)
            =~= files.map_values(|f: (Seq<u8>, Seq<u8>)| f.0));
    }
}

/// Law: two consecutive exports with no file changes behave idly the second
/// time. The persisted manifest parses back to itself; diffing the same
/// digests against it exports nothing and leaves it unchanged, so its
/// serialized form — and that form's digest — is identical and nothing is
/// persisted again.
pub proof fn lemma_second_export_idle(es: Seq<(Seq<u8>, Seq<u8>)>, files: Seq<(Seq<u8>, Seq<u8>)>)
    requires
        unique_keys(es),
        forall|t| 0 <= t < files.len() ==> spec_lookup(es, files[t].0) == Some(files[t].1),
    ensures
        crate::manifest::spec_parse(spec_print(es)) == Some(es),
        crate::manifest::spec_fold(Seq::empty(), es) == es,
        spec_diff_files(es, files).0 == es,
        spec_diff_files(es, files).1 == Seq::<Seq<u8>>::empty(),
        spec_print(spec_diff_files(es, files).0) == spec_print(es),
{
    crate::manifest::lemma_print_parse_round_trip(es);
    lemma_unchanged_export(es, files);
}

} // verus!
