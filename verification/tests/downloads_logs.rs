use vole::downloads::archive_base_name;
use vole::fspath::FsPath;
use vole::fstree::{FsTree, RootSnapshot, RootState};
use vole::logs::{cutoff_from_days, is_log_file_name};
use vole::config::{Rule, RuleKind};
use vole::options::{DownloadsChoice, ScanOptions};
use vole::scan::scan_rule;

fn p(parts: &[&str]) -> FsPath {
    FsPath { parts: parts.iter().map(|s| s.to_string()).collect() }
}

fn rule(kind: RuleKind) -> Rule {
    Rule {
        id: "dl".to_string(),
        label: "Downloads".to_string(),
        description: None,
        kind,
        paths: vec!["/home/u/Downloads".to_string()],
        requires_sudo: false,
        enabled_by_default: true,
        distros: vec![],
        exclude_globs: vec![],
        older_than_days: None,
    }
}

fn file(name: &str, size: u64) -> FsTree {
    FsTree::File { name: name.to_string(), size, mtime: Some(1000) }
}

fn file_at(name: &str, size: u64, mtime: u64) -> FsTree {
    FsTree::File { name: name.to_string(), size, mtime: Some(mtime) }
}

fn dir(name: &str, entries: Vec<FsTree>) -> FsTree {
    FsTree::Dir { name: name.to_string(), device: 1, entries }
}

fn downloads_root(entries: Vec<FsTree>) -> Vec<RootSnapshot> {
    vec![RootSnapshot {
        path: p(&["", "home", "u", "Downloads"]),
        state: RootState::Dir { device: 1, entries },
    }]
}

fn choice_opts(c: DownloadsChoice) -> ScanOptions {
    ScanOptions { downloads_choice: Some(c), now_secs: 1_000_000 }
}

fn paths_of(v: &[FsPath]) -> Vec<Vec<String>> {
    v.iter().map(|q| q.parts.clone()).collect()
}

fn sp(parts: &[&str]) -> Vec<String> {
    parts.iter().map(|s| s.to_string()).collect()
}

#[test]
fn archive_pairs_with_same_named_directory() {
    let roots = downloads_root(vec![
        file("project.tar.gz", 100),
        dir("project", vec![file("readme", 5)]),
    ]);
    let scan = scan_rule(
        &rule(RuleKind::Downloads),
        &choice_opts(DownloadsChoice::Archives),
        &roots,
    );
    assert_eq!(
        paths_of(&scan.files),
        vec![sp(&["", "home", "u", "Downloads", "project.tar.gz"])]
    );
    assert_eq!(scan.bytes, 100);
    assert_eq!(scan.dirs.len(), 0);
}

#[test]
fn unpaired_archive_is_ignored_entirely() {
    let roots = downloads_root(vec![file("proj.zip", 70)]);
    let archives = scan_rule(
        &rule(RuleKind::Downloads),
        &choice_opts(DownloadsChoice::Archives),
        &roots,
    );
    assert_eq!(archives.files.len(), 0);
    assert_eq!(archives.dirs.len(), 0);
    let roots = downloads_root(vec![file("proj.zip", 70)]);
    let folders = scan_rule(
        &rule(RuleKind::Downloads),
        &choice_opts(DownloadsChoice::Folders),
        &roots,
    );
    assert_eq!(folders.files.len(), 0);
    assert_eq!(folders.dirs.len(), 0);
}

#[test]
fn archives_choice_never_populates_dirs() {
    let roots = downloads_root(vec![
        file("a.zip", 1),
        dir("a", vec![file("x", 2)]),
        file("b.rar", 3),
        dir("b", vec![]),
    ]);
    let scan = scan_rule(
        &rule(RuleKind::Downloads),
        &choice_opts(DownloadsChoice::Archives),
        &roots,
    );
    assert_eq!(scan.dirs.len(), 0);
    assert_eq!(scan.files.len(), 2);
}

#[test]
fn folders_choice_lists_directory_and_descendants_not_archive() {
    let roots = downloads_root(vec![
        file("project.tar.gz", 100),
        dir("project", vec![file("readme", 5), dir("src", vec![file("main.c", 9)])]),
    ]);
    let scan = scan_rule(
        &rule(RuleKind::Downloads),
        &choice_opts(DownloadsChoice::Folders),
        &roots,
    );
    let files = paths_of(&scan.files);
    let dirs = paths_of(&scan.dirs);
    assert!(!files.contains(&sp(&["", "home", "u", "Downloads", "project.tar.gz"])));
    assert!(dirs.contains(&sp(&["", "home", "u", "Downloads", "project"])));
    assert!(dirs.contains(&sp(&["", "home", "u", "Downloads", "project", "src"])));
    assert!(files.contains(&sp(&["", "home", "u", "Downloads", "project", "readme"])));
    assert!(files.contains(&sp(&["", "home", "u", "Downloads", "project", "src", "main.c"])));
    assert_eq!(scan.bytes, 14);
}

#[test]
fn paired_directory_is_walked_at_most_once() {
    // two archives with the same base name resolve to one directory
    let roots = downloads_root(vec![
        file("x.zip", 1),
        file("x.tar.gz", 2),
        dir("x", vec![file("inner", 8)]),
    ]);
    let scan = scan_rule(
        &rule(RuleKind::Downloads),
        &choice_opts(DownloadsChoice::Folders),
        &roots,
    );
    assert_eq!(paths_of(&scan.dirs), vec![sp(&["", "home", "u", "Downloads", "x"])]);
    assert_eq!(scan.files.len(), 1);
    assert_eq!(scan.bytes, 8);
}

#[test]
fn downloads_without_choice_contributes_empty_scan() {
    let roots = downloads_root(vec![file("a.zip", 1), dir("a", vec![])]);
    let scan = scan_rule(
        &rule(RuleKind::Downloads),
        &ScanOptions { downloads_choice: None, now_secs: 0 },
        &roots,
    );
    assert_eq!(scan.files.len(), 0);
    assert_eq!(scan.dirs.len(), 0);
    assert_eq!(scan.bytes, 0);
    assert_eq!(scan.errors, 0);
}

#[test]
fn downloads_missing_root_is_an_error() {
    let roots = vec![RootSnapshot { path: p(&["", "gone"]), state: RootState::Missing }];
    let scan = scan_rule(
        &rule(RuleKind::Downloads),
        &choice_opts(DownloadsChoice::Archives),
        &roots,
    );
    assert_eq!(scan.errors, 1);
    assert!(scan.error_messages[0].contains("Failed to read metadata for /gone"));
}

#[test]
fn downloads_symlink_children_are_ignored() {
    let roots = downloads_root(vec![
        file("a.zip", 1),
        FsTree::Symlink { name: "a".to_string() },
    ]);
    let scan = scan_rule(
        &rule(RuleKind::Downloads),
        &choice_opts(DownloadsChoice::Archives),
        &roots,
    );
    // the symlink is not a directory: the archive stays unpaired
    assert_eq!(scan.files.len(), 0);
}

#[test]
fn archive_base_name_strips_recognized_suffixes() {
    assert_eq!(archive_base_name("project.tar.gz"), Some("project".to_string()));
    assert_eq!(archive_base_name("a.TGZ"), Some("a".to_string()));
    assert_eq!(archive_base_name("b.tar.xz"), Some("b".to_string()));
    assert_eq!(archive_base_name("c.tar.zst"), Some("c".to_string()));
    assert_eq!(archive_base_name("d.Zip"), Some("d".to_string()));
    assert_eq!(archive_base_name("e.7z"), Some("e".to_string()));
    assert_eq!(archive_base_name("f.rar"), Some("f".to_string()));
    assert_eq!(archive_base_name("plain.txt"), None);
    // stripping the suffix must leave something
    assert_eq!(archive_base_name(".zip"), None);
    // the original case of the base is kept
    assert_eq!(archive_base_name("MixedCase.ZIP"), Some("MixedCase".to_string()));
}

#[test]
fn log_cutoff_boundary_is_inclusive() {
    let now: u64 = 10_000_000;
    let mut r = rule(RuleKind::Logs);
    r.older_than_days = Some(7);
    let boundary = now - 7 * 24 * 60 * 60;
    let roots = vec![RootSnapshot {
        path: p(&["", "var", "log"]),
        state: RootState::Dir {
            device: 1,
            entries: vec![
                file_at("exact.log", 10, boundary),
                file_at("fresh.log", 20, boundary + 1),
            ],
        },
    }];
    let scan = scan_rule(&r, &ScanOptions { downloads_choice: None, now_secs: now }, &roots);
    let files = paths_of(&scan.files);
    // modified exactly 7×24h ago: included; one second newer: excluded
    assert_eq!(files, vec![sp(&["", "var", "log", "exact.log"])]);
    assert_eq!(scan.bytes, 10);
}

#[test]
fn log_scan_without_threshold_takes_all_log_files() {
    let r = rule(RuleKind::Logs);
    let roots = vec![RootSnapshot {
        path: p(&["", "var", "log"]),
        state: RootState::Dir {
            device: 1,
            entries: vec![
                file("app.log", 1),
                file("app.log.1", 2),
                file("notes.txt", 4),
                dir("nested", vec![file("deep.err", 8)]),
                FsTree::Symlink { name: "linked.log".to_string() },
            ],
        },
    }];
    let scan = scan_rule(&r, &opts_now(0), &roots);
    assert_eq!(scan.bytes, 11);
    assert_eq!(scan.files.len(), 3);
    assert_eq!(scan.dirs.len(), 0);
}

fn opts_now(now: u64) -> ScanOptions {
    ScanOptions { downloads_choice: None, now_secs: now }
}

#[test]
fn log_name_predicate_matches_documented_shapes() {
    assert!(is_log_file_name("xsession-errors"));
    assert!(is_log_file_name("XSESSION-ERRORS"));
    assert!(is_log_file_name("xsession-errors.old"));
    assert!(is_log_file_name("app.log"));
    assert!(is_log_file_name("app.LOG"));
    assert!(is_log_file_name("app.log.1"));
    assert!(is_log_file_name("worker.err"));
    assert!(is_log_file_name("worker.error"));
    assert!(!is_log_file_name("notes.txt"));
    assert!(!is_log_file_name("logbook"));
    assert!(!is_log_file_name("xsession-errorsX"));
}

#[test]
fn log_scan_reports_unreadable_mtime_and_excludes_the_file() {
    let mut r = rule(RuleKind::Logs);
    r.older_than_days = Some(1);
    let roots = vec![RootSnapshot {
        path: p(&["", "var", "log"]),
        state: RootState::Dir {
            device: 1,
            entries: vec![FsTree::File { name: "odd.log".to_string(), size: 3, mtime: None }],
        },
    }];
    let scan = scan_rule(&r, &opts_now(1_000_000), &roots);
    assert_eq!(scan.files.len(), 0);
    assert_eq!(scan.errors, 1);
    assert!(scan.error_messages[0].contains("Failed to read modified time for /var/log/odd.log"));
}

#[test]
fn log_scan_applies_predicate_to_single_file_root() {
    let r = rule(RuleKind::Logs);
    let roots = vec![
        RootSnapshot {
            path: p(&["", "home", "u", "trace.log"]),
            state: RootState::File { size: 6, mtime: Some(1) },
        },
        RootSnapshot {
            path: p(&["", "home", "u", "notes.txt"]),
            state: RootState::File { size: 9, mtime: Some(1) },
        },
        RootSnapshot {
            path: p(&["", "home", "u", "sym.log"]),
            state: RootState::Symlink { size: 9 },
        },
    ];
    let scan = scan_rule(&r, &opts_now(0), &roots);
    assert_eq!(paths_of(&scan.files), vec![sp(&["", "home", "u", "trace.log"])]);
    assert_eq!(scan.bytes, 6);
}

#[test]
fn cutoff_saturates_on_huge_thresholds() {
    // the day count saturates; a cutoff before the epoch means no filtering
    assert_eq!(cutoff_from_days(u64::MAX, 1_000_000), None);
    assert_eq!(cutoff_from_days(7, 1_000_000), Some(1_000_000 - 7 * 86400));
    assert_eq!(cutoff_from_days(0, 55), Some(55));
}

#[test]
fn downloads_listing_errors_are_counted() {
    let roots = downloads_root(vec![
        FsTree::Unreadable { message: "Non-utf8 filename in /home/u/Downloads".to_string() },
        file("a.zip", 1),
        dir("a", vec![]),
    ]);
    let scan = scan_rule(
        &rule(RuleKind::Downloads),
        &choice_opts(DownloadsChoice::Archives),
        &roots,
    );
    assert_eq!(scan.errors, 1);
    assert_eq!(scan.files.len(), 1);
}

#[test]
fn logs_exclusion_applies_per_file_without_pruning() {
    let mut r = rule(RuleKind::Logs);
    r.exclude_globs = vec!["skip.log".to_string()];
    let roots = vec![RootSnapshot {
        path: p(&["", "var", "log"]),
        state: RootState::Dir {
            device: 1,
            entries: vec![file("skip.log", 1), file("keep.log", 2)],
        },
    }];
    let scan = scan_rule(&r, &ScanOptions { downloads_choice: None, now_secs: 0 }, &roots);
    assert_eq!(paths_of(&scan.files), vec![sp(&["", "var", "log", "keep.log"])]);
}
