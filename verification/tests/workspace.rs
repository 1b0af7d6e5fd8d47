use journal::config::Config;
use journal::export::filter_workspaces;
use journal::format::{Output, TextFormatter};
use journal::fs::FileEntry;
use journal::template;
use journal::types::Workspace;
use journal::validate::valid_workspace_name;

#[test]
fn valid_workspace_names() {
    let names = ["abc", "Abettername", "work", "work_space", "work-space"];
    for name in names {
        let res = valid_workspace_name(name);
        assert!(res.is_ok());
    }
}

#[test]
fn invalid_workspace_names() {
    let names = ["", " ", "a", ".", "!#1238"];
    for name in names {
        let res = valid_workspace_name(name);
        assert!(res.is_err());
    }
}

#[test]
fn workspace_names_are_trimmed() {
    assert_eq!(valid_workspace_name("  work  ").unwrap(), "work");
    // The whole Unicode whitespace set is trimmed, as str::trim does.
    assert_eq!(valid_workspace_name("\u{000B}work\u{3000}").unwrap(), "work");
    assert_eq!(
        valid_workspace_name("a b").unwrap_err(),
        "workspace name contains invalid characters"
    );
    assert_eq!(valid_workspace_name("x").unwrap_err(), "too short workspace name");
    assert_eq!(
        valid_workspace_name("abcdefghijklmnopqrstuvwxyz").unwrap_err(),
        "too long workspace name"
    );
}

#[test]
fn file_entry_names_and_joins() {
    let e = FileEntry::new("ws/notes/one.md".to_string(), false);
    assert_eq!(e.filename(), "one.md");
    assert_eq!(e.extension(), Some("md".to_string()));
    assert_eq!(e.path().as_str(), "ws/notes/one.md");
    assert!(!e.is_dir());

    let dir = FileEntry::new("root".to_string(), true);
    let joined = dir.push("child.md", false);
    assert_eq!(joined.path().as_str(), "root/child.md");
    let absolute = dir.push("/other", false);
    assert_eq!(absolute.path().as_str(), "/other");

    // Trailing slashes do not name a component.
    let trailing = FileEntry::new("a/b/".to_string(), true);
    assert_eq!(trailing.filename(), "b");
    let root_dir = FileEntry::new("root///".to_string(), true);
    assert_eq!(root_dir.filename(), "root");

    let dotfile = FileEntry::new("ws/.gitignore".to_string(), false);
    assert_eq!(dotfile.extension(), None);
    let plain = FileEntry::new("ws/readme".to_string(), false);
    assert_eq!(plain.extension(), None);
}

#[test]
fn workspace_binds_name_and_files() {
    let files = vec![FileEntry::new("ws/a.md".to_string(), false)];
    let ws = Workspace::new("ws".to_string(), files);
    assert_eq!(ws.name, "ws");
    assert_eq!(ws.files.len(), 1);
}

#[test]
fn format_workspace_listing() {
    let fmt = TextFormatter {};
    let entries = vec![
        FileEntry::new("ws/one.md".to_string(), false),
        FileEntry::new("ws/two.md".to_string(), false),
    ];
    let out = fmt.format(Output::WorkspaceJournals("work".to_string(), entries));
    assert_eq!(out, "work/\n    one.md\n    two.md");
}

#[test]
fn format_export_report() {
    let fmt = TextFormatter {};
    let out = fmt.format(Output::ExportResult {
        exported: vec!["ws/a.md".to_string()],
        skipped: vec!["ws/b.md".to_string()],
    });
    assert_eq!(out, "Exported files:\n  ws/a.md\nSkipped files:\n  ws/b.md ");

    let only_skipped = fmt.format(Output::ExportResult {
        exported: vec![],
        skipped: vec!["ws/b.md".to_string()],
    });
    assert_eq!(only_skipped, "Skipped files:\n  ws/b.md ");

    let empty = fmt.format(Output::empty_export());
    assert_eq!(empty, "");
}

#[test]
fn template_expands_date_placeholder() {
    let text = "# Entry {{DATE}}\n\nwritten on {{DATE}}".to_string();
    let out = template::create(Some(&text), "2024-01-02");
    assert_eq!(out, "# Entry 2024-01-02\n\nwritten on 2024-01-02");
    assert_eq!(template::create(None, "2024-01-02"), "");
    let plain = "no placeholder".to_string();
    assert_eq!(template::create(Some(&plain), "2024-01-02"), "no placeholder");
}

#[test]
fn config_template_lookup() {
    let cfg = Config {
        root: None,
        default_workspace: None,
        template: Some(vec![("md".to_string(), "# {{DATE}}".to_string())]),
    };
    assert_eq!(cfg.template_for(&"md".to_string()), Some(&"# {{DATE}}".to_string()));
    assert_eq!(cfg.template_for(&"txt".to_string()), None);
    assert_eq!(Config::empty().template_for(&"md".to_string()), None);
}

#[test]
fn filter_workspaces_keeps_listed_names() {
    let ws = vec![
        Workspace::new("alpha".to_string(), vec![]),
        Workspace::new("beta".to_string(), vec![]),
    ];
    let all = filter_workspaces(None, ws);
    assert_eq!(all.len(), 2);

    let ws = vec![
        Workspace::new("alpha".to_string(), vec![]),
        Workspace::new("beta".to_string(), vec![]),
    ];
    let only = filter_workspaces(Some(&vec!["beta".to_string()]), ws);
    assert_eq!(only.len(), 1);
    assert_eq!(only[0].name, "beta");
}
