use journal::export::{plan_export, ExportFile};
use journal::fs::digest_bytes;
use journal::manifest::Manifest;

fn file(key: &str, content: &[u8]) -> ExportFile {
    ExportFile { key: key.as_bytes().to_vec(), digest: digest_bytes(content) }
}

#[test]
fn unchanged_file_is_skipped_and_changed_file_exported() {
    // The previous manifest already records ws/a at its current digest.
    let mut prev = Manifest::new();
    prev.set(b"ws/a".to_vec(), digest_bytes(b"content one"));

    let files = vec![file("ws/a", b"content one")];
    let plan = plan_export(&prev, &files, false);
    assert_eq!(plan.exported, Vec::<Vec<u8>>::new());
    assert_eq!(plan.skipped, vec![b"ws/a".to_vec()]);
    assert!(!plan.changed);
    assert!(!plan.persist);

    // Mutating the file's bytes moves it to exported and updates the entry.
    let files = vec![file("ws/a", b"content two")];
    let plan = plan_export(&prev, &files, false);
    assert_eq!(plan.exported, vec![b"ws/a".to_vec()]);
    assert_eq!(plan.skipped, Vec::<Vec<u8>>::new());
    assert_eq!(plan.manifest.lookup(b"ws/a").unwrap(), &digest_bytes(b"content two"));
    assert!(plan.changed);
    assert!(plan.persist);
}

#[test]
fn new_file_is_exported_and_recorded() {
    let prev = Manifest::new();
    let files = vec![file("ws/a", b"aaa"), file("ws/b", b"bbb")];
    let plan = plan_export(&prev, &files, false);
    assert_eq!(plan.exported, vec![b"ws/a".to_vec(), b"ws/b".to_vec()]);
    assert!(plan.skipped.is_empty());
    assert_eq!(plan.manifest.lookup(b"ws/a").unwrap(), &digest_bytes(b"aaa"));
    assert_eq!(plan.manifest.lookup(b"ws/b").unwrap(), &digest_bytes(b"bbb"));
    assert!(plan.persist);
}

#[test]
fn second_export_with_no_changes_writes_nothing() {
    let files = vec![file("ws/a", b"aaa"), file("ws/b", b"bbb")];

    // First run: everything exported, manifest persisted.
    let first = plan_export(&Manifest::new(), &files, false);
    assert_eq!(first.exported.len(), 2);
    assert!(first.persist);

    // Second run: fetch what was persisted, diff the same digests.
    let fetched = Manifest::from_json(&first.manifest_json).unwrap();
    let second = plan_export(&fetched, &files, false);
    assert!(second.exported.is_empty());
    assert_eq!(second.skipped, vec![b"ws/a".to_vec(), b"ws/b".to_vec()]);
    assert_eq!(second.manifest_json, first.manifest_json);
    assert!(!second.changed);
    assert!(!second.persist);
}

#[test]
fn dry_run_partitions_identically_but_never_persists() {
    let mut prev = Manifest::new();
    prev.set(b"ws/a".to_vec(), digest_bytes(b"same"));
    let files = vec![file("ws/a", b"same"), file("ws/b", b"fresh")];

    let wet = plan_export(&prev, &files, false);
    let dry = plan_export(&prev, &files, true);
    assert_eq!(dry.exported, wet.exported);
    assert_eq!(dry.skipped, wet.skipped);
    assert_eq!(dry.changed, wet.changed);
    assert!(wet.persist);
    assert!(!dry.persist);
}

#[test]
fn digest_has_known_values() {
    // SHA-256 test vectors, as lowercase hex.
    assert_eq!(
        journal::fs::digest(b"abc").unwrap(),
        "ba7816bf8f01cfea414140de5dae2223b00361a396177a9cb410ff61f20015ad"
    );
    assert_eq!(
        String::from_utf8(digest_bytes(b"")).unwrap(),
        "e3b0c44298fc1c149afbf4c8996fb92427ae41e4649b934ca495991b7852b855"
    );
}
