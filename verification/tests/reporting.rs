use vole::config::{Rule, RuleKind};
use vole::fspath::FsPath;
use vole::fstree::{FsTree, RootSnapshot, RootState};
use vole::options::{DownloadsChoice, ScanOptions};
use vole::report::{dry_run_output, dry_run_report_path, path_is_under_any, summarize_download_dirs, u64_dec};
use vole::scan::scan_rule;
use vole::snapshot::SnapshotOutcome;

fn p(parts: &[&str]) -> FsPath {
    FsPath { parts: parts.iter().map(|s| s.to_string()).collect() }
}

fn rule(kind: RuleKind) -> Rule {
    Rule {
        id: "dl".to_string(),
        label: "Downloads".to_string(),
        description: None,
        kind,
        paths: vec!["/home/u/Downloads".to_string()],
        requires_sudo: false,
        enabled_by_default: true,
        distros: vec![],
        exclude_globs: vec![],
        older_than_days: None,
    }
}

fn file(name: &str, size: u64) -> FsTree {
    FsTree::File { name: name.to_string(), size, mtime: Some(1) }
}

fn dir(name: &str, entries: Vec<FsTree>) -> FsTree {
    FsTree::Dir { name: name.to_string(), device: 1, entries }
}

#[test]
fn dry_run_summarizes_nested_download_folders() {
    let roots = vec![RootSnapshot {
        path: p(&["", "home", "u", "Downloads"]),
        state: RootState::Dir {
            device: 1,
            entries: vec![
                file("app.zip", 100),
                dir(
                    "app",
                    vec![
                        dir("bin", vec![file("tool", 10)]),
                        dir("lib", vec![file("libx.so", 20)]),
                    ],
                ),
            ],
        },
    }];
    let scan = scan_rule(
        &rule(RuleKind::Downloads),
        &ScanOptions { downloads_choice: Some(DownloadsChoice::Folders), now_secs: 0 },
        &roots,
    );
    let out = dry_run_output(&vec![scan]);
    let text = out.details.as_str();
    assert!(text.contains("Rule: Downloads (dl)"));
    // one dir line for the top-level folder, none for what nests under it
    assert!(text.contains("  dir: /home/u/Downloads/app\n"));
    assert!(!text.contains("  dir: /home/u/Downloads/app/bin"));
    assert!(!text.contains("  dir: /home/u/Downloads/app/lib"));
    assert!(!text.contains("  file: /home/u/Downloads/app/bin/tool"));
    assert!(!text.contains("  file: /home/u/Downloads/app/lib/libx.so"));
    assert!(text.contains("  (contents omitted for Downloads folders)"));
    assert_eq!(out.report.files_listed, 2);
    assert_eq!(out.report.dirs_listed, 3);
    assert_eq!(out.report.bytes_listed, 30);
    assert_eq!(out.report.errors, 0);
}

#[test]
fn dry_run_lists_everything_verbatim_for_other_kinds() {
    let mut r = rule(RuleKind::Paths);
    r.label = "Caches".to_string();
    r.id = "caches".to_string();
    let roots = vec![RootSnapshot {
        path: p(&["", "base"]),
        state: RootState::Dir {
            device: 1,
            entries: vec![file("one.txt", 7), dir("sub", vec![file("two.txt", 9)])],
        },
    }];
    let scan = scan_rule(&r, &ScanOptions { downloads_choice: None, now_secs: 0 }, &roots);
    let out = dry_run_output(&vec![scan]);
    let text = out.details.as_str();
    assert!(text.starts_with("Dry-run details (no files will be deleted):\n"));
    assert!(text.contains("Note: directories are only removed if empty after file removal.\n"));
    assert!(text.contains("Rule: Caches (caches)\n"));
    assert!(text.contains("  file: /base/one.txt\n"));
    assert!(text.contains("  file: /base/sub/two.txt\n"));
    assert!(text.contains("  dir: /base/sub\n"));
    assert_eq!(out.report.files_listed, 2);
    assert_eq!(out.report.dirs_listed, 1);
    assert_eq!(out.report.bytes_listed, 16);
}

#[test]
fn dry_run_marks_empty_scans_and_counts_errors() {
    let mut r = rule(RuleKind::Paths);
    r.exclude_globs = vec!["[".to_string()];
    let roots: Vec<RootSnapshot> = vec![];
    let scan = scan_rule(&r, &ScanOptions { downloads_choice: None, now_secs: 0 }, &roots);
    let out = dry_run_output(&vec![scan]);
    let text = out.details.as_str();
    assert!(text.contains("  (no entries)\n"));
    assert!(text.contains("  errors: 1\n"));
    assert!(text.contains("  error: Invalid exclude glob '['"));
    assert_eq!(out.report.errors, 1);
}

#[test]
fn summarize_keeps_only_top_level_directories() {
    let dirs = vec![
        p(&["", "d", "app", "bin"]),
        p(&["", "d", "app"]),
        p(&["", "d", "app", "lib"]),
        p(&["", "d", "other"]),
    ];
    let top = summarize_download_dirs(&dirs);
    let views: Vec<Vec<String>> = top.iter().map(|q| q.parts.clone()).collect();
    assert_eq!(views, vec![
        vec!["".to_string(), "d".to_string(), "app".to_string()],
        vec!["".to_string(), "d".to_string(), "other".to_string()],
    ]);
}

#[test]
fn path_is_under_any_is_component_wise() {
    let roots = vec![p(&["", "a", "b"])];
    assert!(path_is_under_any(&p(&["", "a", "b", "c"]), &roots));
    assert!(path_is_under_any(&p(&["", "a", "b"]), &roots));
    // "bc" is not under "b": components, not text prefixes
    assert!(!path_is_under_any(&p(&["", "a", "bc"]), &roots));
}

#[test]
fn dry_run_report_path_is_fixed_under_home() {
    let home = p(&["", "home", "u"]);
    let path = dry_run_report_path(&home);
    assert_eq!(path.parts, vec![
        "".to_string(),
        "home".to_string(),
        "u".to_string(),
        "vole-dry-run.txt".to_string()
    ]);
    assert_eq!(path.render(), "/home/u/vole-dry-run.txt");
}

#[test]
fn decimal_rendering_matches_expected_text() {
    assert_eq!(u64_dec(0), "0");
    assert_eq!(u64_dec(7), "7");
    assert_eq!(u64_dec(10), "10");
    assert_eq!(u64_dec(86400), "86400");
    assert_eq!(u64_dec(u64::MAX), "18446744073709551615");
}

#[test]
fn snapshot_outcome_display() {
    let with_path = SnapshotOutcome {
        provider: "Btrfs".to_string(),
        location: Some("/home/u/.snap/x".to_string()),
    };
    assert_eq!(with_path.display(), "Btrfs snapshot at /home/u/.snap/x");
    let bare = SnapshotOutcome { provider: "Timeshift".to_string(), location: None };
    assert_eq!(bare.display(), "Timeshift snapshot created");
}

#[test]
fn fspath_render_joins_components() {
    assert_eq!(p(&["", "a", "b"]).render(), "/a/b");
    assert_eq!(p(&["rel", "x"]).render(), "rel/x");
    assert_eq!(p(&[]).render(), "");
}
