use vole::apply::{apply_report, removal_order, removal_plan, RemovalOutcome, RemovalStep};
use vole::globs::build_globset;
use vole::config::{Config, Distro, Rule, RuleKind};
use vole::fspath::FsPath;
use vole::fstree::{FsTree, RootSnapshot, RootState};
use vole::options::{DownloadsChoice, ScanOptions};
use vole::scan::{scan_rule, scan_rules, RuleScan};

fn p(parts: &[&str]) -> FsPath {
    FsPath { parts: parts.iter().map(|s| s.to_string()).collect() }
}

fn rule(kind: RuleKind) -> Rule {
    Rule {
        id: "r1".to_string(),
        label: "Rule One".to_string(),
        description: None,
        kind,
        paths: vec!["/base".to_string()],
        requires_sudo: false,
        enabled_by_default: true,
        distros: vec![],
        exclude_globs: vec![],
        older_than_days: None,
    }
}

fn file(name: &str, size: u64) -> FsTree {
    FsTree::File { name: name.to_string(), size, mtime: Some(1000) }
}

fn dir(name: &str, entries: Vec<FsTree>) -> FsTree {
    FsTree::Dir { name: name.to_string(), device: 1, entries }
}

fn dir_root(entries: Vec<FsTree>) -> RootState {
    RootState::Dir { device: 1, entries }
}

fn opts() -> ScanOptions {
    ScanOptions { downloads_choice: None, now_secs: 1_000_000 }
}

fn paths_of(v: &[FsPath]) -> Vec<Vec<String>> {
    v.iter().map(|q| q.parts.clone()).collect()
}

#[test]
fn paths_scan_bytes_are_sum_of_file_sizes() {
    let r = rule(RuleKind::Paths);
    let roots = vec![RootSnapshot {
        path: p(&["", "base"]),
        state: dir_root(vec![
            file("a.txt", 10),
            dir("sub", vec![file("b.txt", 32)]),
            file("c.txt", 100),
        ]),
    }];
    let scan = scan_rule(&r, &opts(), &roots);
    assert_eq!(scan.bytes, 142);
    assert_eq!(scan.entries, 3);
    assert_eq!(scan.files.len(), 3);
    assert_eq!(scan.dirs.len(), 1);
    assert_eq!(scan.errors, 0);
}

#[test]
fn paths_scan_files_and_dirs_are_disjoint_and_exclude_root() {
    let r = rule(RuleKind::Paths);
    let roots = vec![RootSnapshot {
        path: p(&["", "base"]),
        state: dir_root(vec![dir("sub", vec![file("b.txt", 1)]), file("a", 2)]),
    }];
    let scan = scan_rule(&r, &opts(), &roots);
    let files = paths_of(&scan.files);
    let dirs = paths_of(&scan.dirs);
    for f in &files {
        assert!(!dirs.contains(f));
        assert_ne!(f, &vec!["".to_string(), "base".to_string()]);
    }
    for d in &dirs {
        assert_ne!(d, &vec!["".to_string(), "base".to_string()]);
    }
    assert!(files.contains(&vec!["".to_string(), "base".to_string(), "a".to_string()]));
    assert!(files.contains(&vec![
        "".to_string(),
        "base".to_string(),
        "sub".to_string(),
        "b.txt".to_string()
    ]));
    assert!(dirs.contains(&vec!["".to_string(), "base".to_string(), "sub".to_string()]));
}

#[test]
fn paths_scan_skips_symlinks_and_prunes_other_devices() {
    let r = rule(RuleKind::Paths);
    let roots = vec![RootSnapshot {
        path: p(&["", "base"]),
        state: dir_root(vec![
            FsTree::Symlink { name: "link".to_string() },
            FsTree::Dir {
                name: "mnt".to_string(),
                device: 2,
                entries: vec![file("inside.txt", 5)],
            },
        ]),
    }];
    let scan = scan_rule(&r, &opts(), &roots);
    assert_eq!(scan.files.len(), 0);
    // the mount point itself is recorded, its contents are not
    assert_eq!(paths_of(&scan.dirs), vec![vec![
        "".to_string(),
        "base".to_string(),
        "mnt".to_string()
    ]]);
    assert_eq!(scan.bytes, 0);
}

#[test]
fn paths_scan_records_file_root_directly() {
    let r = rule(RuleKind::Paths);
    let roots = vec![RootSnapshot {
        path: p(&["", "base", "one.txt"]),
        state: RootState::File { size: 7, mtime: Some(5) },
    }];
    let scan = scan_rule(&r, &opts(), &roots);
    assert_eq!(scan.files.len(), 1);
    assert_eq!(scan.bytes, 7);
    assert_eq!(scan.dirs.len(), 0);
}

#[test]
fn missing_root_is_skipped_silently_for_paths() {
    let r = rule(RuleKind::Paths);
    let roots = vec![RootSnapshot { path: p(&["", "gone"]), state: RootState::Missing }];
    let scan = scan_rule(&r, &opts(), &roots);
    assert_eq!(scan.files.len(), 0);
    assert_eq!(scan.dirs.len(), 0);
    assert_eq!(scan.errors, 0);
}

#[test]
fn unreadable_entry_is_counted_and_walk_continues() {
    let r = rule(RuleKind::Paths);
    let roots = vec![RootSnapshot {
        path: p(&["", "base"]),
        state: dir_root(vec![
            FsTree::Unreadable { message: "Failed to read entry /base/x: denied".to_string() },
            file("ok.txt", 3),
        ]),
    }];
    let scan = scan_rule(&r, &opts(), &roots);
    assert_eq!(scan.errors, 1);
    assert_eq!(scan.error_messages.len(), 1);
    assert_eq!(scan.files.len(), 1);
    assert_eq!(scan.bytes, 3);
}

#[test]
fn exclusion_glob_excludes_exact_match_only() {
    let mut r = rule(RuleKind::Paths);
    r.exclude_globs = vec!["*.bak".to_string()];
    let roots = vec![RootSnapshot {
        path: p(&["", "x"]),
        state: dir_root(vec![file("notes.bak", 1), file("notes.bak.txt", 2)]),
    }];
    let scan = scan_rule(&r, &opts(), &roots);
    let files = paths_of(&scan.files);
    assert!(!files.contains(&vec!["".to_string(), "x".to_string(), "notes.bak".to_string()]));
    assert!(files.contains(&vec![
        "".to_string(),
        "x".to_string(),
        "notes.bak.txt".to_string()
    ]));
    assert_eq!(scan.bytes, 2);
}

#[test]
fn excluded_directory_is_pruned_not_just_omitted() {
    let mut r = rule(RuleKind::Paths);
    r.exclude_globs = vec!["skipme".to_string()];
    let roots = vec![RootSnapshot {
        path: p(&["", "x"]),
        state: dir_root(vec![dir("skipme", vec![file("inner.txt", 50)]), file("keep.txt", 4)]),
    }];
    let scan = scan_rule(&r, &opts(), &roots);
    assert_eq!(scan.dirs.len(), 0);
    assert_eq!(paths_of(&scan.files), vec![vec![
        "".to_string(),
        "x".to_string(),
        "keep.txt".to_string()
    ]]);
    assert_eq!(scan.bytes, 4);
}

#[test]
fn invalid_exclude_glob_is_reported_and_skipped() {
    let mut r = rule(RuleKind::Paths);
    r.exclude_globs = vec!["[".to_string(), "*.bak".to_string()];
    let roots = vec![RootSnapshot {
        path: p(&["", "x"]),
        state: dir_root(vec![file("a.bak", 1), file("b.txt", 2)]),
    }];
    let scan = scan_rule(&r, &opts(), &roots);
    assert_eq!(scan.errors, 1);
    assert!(scan.error_messages[0].contains("Invalid exclude glob '['"));
    // the valid pattern still applies
    assert_eq!(scan.files.len(), 1);
    assert_eq!(scan.bytes, 2);
}

#[test]
fn scan_rules_scans_each_rule_in_order() {
    let r1 = rule(RuleKind::Paths);
    let mut r2 = rule(RuleKind::Paths);
    r2.id = "r2".to_string();
    let roots = vec![
        vec![RootSnapshot {
            path: p(&["", "a"]),
            state: dir_root(vec![file("f", 1)]),
        }],
        vec![RootSnapshot {
            path: p(&["", "b"]),
            state: dir_root(vec![file("g", 2)]),
        }],
    ];
    let scans = scan_rules(&vec![r1, r2], &opts(), &roots);
    assert_eq!(scans.len(), 2);
    assert_eq!(scans[0].bytes, 1);
    assert_eq!(scans[1].bytes, 2);
    assert_eq!(scans[0].rule.id, "r1");
    assert_eq!(scans[1].rule.id, "r2");
}

fn scan_with(files: &[&[&str]], dirs: &[&[&str]]) -> RuleScan {
    RuleScan {
        rule: rule(RuleKind::Paths),
        bytes: 0,
        entries: files.len(),
        files: files.iter().map(|f| p(f)).collect(),
        dirs: dirs.iter().map(|d| p(d)).collect(),
        errors: 0,
        error_messages: vec![],
    }
}

#[test]
fn apply_attempts_child_directory_before_ancestor() {
    let scan = scan_with(&[], &[&["", "a"], &["", "a", "b"]]);
    let order = removal_order(&scan);
    let paths: Vec<Vec<String>> =
        order.iter().map(|s: &RemovalStep| s.path.parts.clone()).collect();
    let child = paths
        .iter()
        .position(|q| q == &vec!["".to_string(), "a".to_string(), "b".to_string()])
        .unwrap();
    let parent = paths.iter().position(|q| q == &vec!["".to_string(), "a".to_string()]).unwrap();
    assert!(child < parent);
    // both removals are still attempted even if the deeper one fails:
    // a failure is only an outcome, never a reordering, and both count as errors
    let outcomes = vec![RemovalOutcome::Failed, RemovalOutcome::Failed];
    let report = apply_report(&order, &outcomes);
    assert_eq!(report.errors, 2);
    assert_eq!(report.dirs_removed, 0);
}

#[test]
fn apply_twice_is_idempotent() {
    let scan = scan_with(&[&["", "a", "f1"], &["", "a", "f2"]], &[&["", "a"]]);
    let plan = removal_plan(&vec![scan]);
    // the second pass finds everything already gone
    let outcomes: Vec<RemovalOutcome> = plan.iter().map(|_| RemovalOutcome::AlreadyGone).collect();
    let report = apply_report(&plan, &outcomes);
    assert_eq!(report.files_removed, 0);
    assert_eq!(report.dirs_removed, 0);
    assert_eq!(report.bytes_freed, 0);
    assert_eq!(report.errors, 0);
}

#[test]
fn apply_report_totals_removals_and_errors() {
    let scan = scan_with(&[&["", "f1"], &["", "f2"], &["", "f3"]], &[&["", "d"]]);
    let plan = removal_plan(&vec![scan]);
    assert_eq!(plan.len(), 4);
    let outcomes = vec![
        RemovalOutcome::Removed { bytes: 10 },
        RemovalOutcome::AlreadyGone,
        RemovalOutcome::Failed,
        RemovalOutcome::Removed { bytes: 0 },
    ];
    let report = apply_report(&plan, &outcomes);
    assert_eq!(report.files_removed, 1);
    assert_eq!(report.dirs_removed, 1);
    assert_eq!(report.bytes_freed, 10);
    assert_eq!(report.errors, 1);
}

#[test]
fn files_are_planned_before_directories_within_a_scan() {
    let scan = scan_with(&[&["", "a", "f"]], &[&["", "a"]]);
    let order = removal_order(&scan);
    assert!(!order[0].is_dir);
    assert!(order[1].is_dir);
}

#[test]
fn available_rules_filters_by_distro() {
    let mut r1 = rule(RuleKind::Paths);
    r1.distros = vec!["Debian".to_string()];
    let mut r2 = rule(RuleKind::Paths);
    r2.id = "r2".to_string();
    r2.distros = vec![];
    let mut r3 = rule(RuleKind::Paths);
    r3.id = "r3".to_string();
    r3.distros = vec!["arch".to_string()];
    let config = Config { version: 1, rules: vec![r1, r2, r3] };
    let distro = Distro { id: Some("Debian".to_string()), id_like: vec![] };
    let kept = config.available_rules(&distro);
    let ids: Vec<&str> = kept.iter().map(|r| r.id.as_str()).collect();
    assert_eq!(ids, vec!["r1", "r2"]);
}

#[test]
fn identifiers_lowercase_id_and_id_like() {
    let distro = Distro {
        id: Some("Ubuntu".to_string()),
        id_like: vec!["Debian".to_string(), "GNU".to_string()],
    };
    let ids = distro.identifiers();
    assert_eq!(ids, vec!["ubuntu".to_string(), "debian".to_string(), "gnu".to_string()]);
}

#[test]
fn ensure_supported_accepts_only_version_one() {
    let config = Config { version: 1, rules: vec![] };
    assert!(config.ensure_supported().is_ok());
    let config = Config { version: 2, rules: vec![] };
    assert_eq!(config.ensure_supported(), Err(2));
}

#[test]
fn downloads_choice_as_str() {
    assert_eq!(DownloadsChoice::Archives.as_str(), "archives");
    assert_eq!(DownloadsChoice::Folders.as_str(), "folders");
}

#[test]
fn removal_plan_keeps_scans_separate_and_in_order() {
    // a shallow dir in the first scan must still be attempted before the
    // deeper dirs of the second scan: ordering is scoped per scan
    let first = scan_with(&[], &[&["", "a"]]);
    let second = scan_with(&[], &[&["", "x", "y", "z"], &["", "x"]]);
    let plan = removal_plan(&vec![first, second]);
    let paths: Vec<Vec<String>> = plan.iter().map(|s| s.path.parts.clone()).collect();
    assert_eq!(paths, vec![
        vec!["".to_string(), "a".to_string()],
        vec!["".to_string(), "x".to_string(), "y".to_string(), "z".to_string()],
        vec!["".to_string(), "x".to_string()],
    ]);
}

#[test]
fn paths_scan_walks_multiple_roots_in_order() {
    let r = rule(RuleKind::Paths);
    let roots = vec![
        RootSnapshot {
            path: p(&["", "one"]),
            state: dir_root(vec![file("a", 1)]),
        },
        RootSnapshot {
            path: p(&["", "two"]),
            state: dir_root(vec![file("b", 2)]),
        },
    ];
    let scan = scan_rule(&r, &opts(), &roots);
    assert_eq!(paths_of(&scan.files), vec![
        vec!["".to_string(), "one".to_string(), "a".to_string()],
        vec!["".to_string(), "two".to_string(), "b".to_string()],
    ]);
    assert_eq!(scan.bytes, 3);
}

#[test]
fn empty_exclusion_list_excludes_nothing_and_reports_nothing() {
    let r = rule(RuleKind::Paths);
    assert!(r.exclude_globs.is_empty());
    let roots = vec![RootSnapshot {
        path: p(&["", "base"]),
        state: dir_root(vec![file("anything.bak", 3)]),
    }];
    let scan = scan_rule(&r, &opts(), &roots);
    assert_eq!(scan.files.len(), 1);
    assert_eq!(scan.errors, 0);
}

#[test]
fn matches_distro_is_case_insensitive_and_open_by_default() {
    let mut r = rule(RuleKind::Paths);
    let ids = vec!["debian".to_string(), "ubuntu".to_string()];
    assert!(r.matches_distro(&ids));
    r.distros = vec!["UBUNTU".to_string()];
    assert!(r.matches_distro(&ids));
    r.distros = vec!["fedora".to_string()];
    assert!(!r.matches_distro(&ids));
}

#[test]
fn each_invalid_glob_gets_its_own_message_in_order() {
    let patterns = vec!["[".to_string(), "*.ok".to_string(), "[z".to_string()];
    let (excluder, errors) = build_globset(&patterns);
    assert_eq!(errors.len(), 2);
    assert!(errors[0].starts_with("Invalid exclude glob '['"));
    assert!(errors[1].starts_with("Invalid exclude glob '[z'"));
    // the pattern that parsed still applies
    assert!(excluder.matches(&p(&["a.ok"])));
    assert!(!excluder.matches(&p(&["a.txt"])));
}

#[test]
fn all_patterns_compile_when_all_parse() {
    let patterns = vec!["*.bak".to_string(), "cache".to_string()];
    let (excluder, errors) = build_globset(&patterns);
    assert_eq!(errors.len(), 0);
    assert!(excluder.matches(&p(&["x.bak"])));
    assert!(excluder.matches(&p(&["cache"])));
    assert!(!excluder.matches(&p(&["cache", "y"])));
}
