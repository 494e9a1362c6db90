use vstd::prelude::*;

use crate::ascii::{
    ascii_lower, begins_with, begins_with_ignore_ascii, contains_ignore_ascii, contains_seq,
    ends_with, ends_with_ignore_ascii, eq_ignore_ascii,
};
use crate::config::{same_rule, Rule};
use crate::fspath::{join_parts, str_views, FsPath};
use crate::fstree::{FsTree, RootSnapshot, RootState};
use crate::globs::{build_globset, compile_outcome, excluded, Excluder};
use crate::scan::{
    file_paths, lemma_scan_extends_refl, lemma_scan_extends_trans, record_error, sat64,
    scan_extends, sum_sizes, RuleScan,
};

verus! {

/// Whether a file name is log-like: exactly `xsession-errors`, or prefixed
/// `xsession-errors.`, or ending in `.log`, or containing `.log.`, or ending
/// in `.err` or `.error` — all compared without regard to ASCII case.
pub open spec fn is_log_name(s: Seq<char>) -> bool {
    let l = ascii_lower(s);
    ||| l == ascii_lower("xsession-errors"@)
    ||| begins_with(l, ascii_lower("xsession-errors."@))
    ||| ends_with(l, ascii_lower(".log"@))
    ||| contains_seq(l, ascii_lower(".log."@))
    ||| ends_with(l, ascii_lower(".err"@))
    ||| ends_with(l, ascii_lower(".error"@))
}

/// Whether the file name is log-like.
pub fn is_log_file_name(name: &str) -> (r: bool)
    ensures
        r == is_log_name(name@),
{
    if eq_ignore_ascii(name, "xsession-errors") {
        return true;
    }
    if begins_with_ignore_ascii(name, "xsession-errors.") {
        return true;
    }
    if ends_with_ignore_ascii(name, ".log") {
        return true;
    }
    if contains_ignore_ascii(name, ".log.") {
        return true;
    }
    if ends_with_ignore_ascii(name, ".err") {
        return true;
    }
    ends_with_ignore_ascii(name, ".error")
}

pub const SECONDS_PER_DAY: u64 = 86400;

/// The cutoff instant for an age threshold of `days`, measured back from
/// `now_secs`: `now − days·24h`, with the day count saturating; `None` when
/// the cutoff would lie before the epoch, in which case no age filtering
/// happens.
pub open spec fn cutoff_of(days: u64, now_secs: u64) -> Option<u64> {
    let secs = sat64(days * SECONDS_PER_DAY);
    if secs > now_secs {
        None
    } else {
        Some((now_secs - secs) as u64)
    }
}

/// Computes the cutoff instant for an age threshold.
pub fn cutoff_from_days(days: u64, now_secs: u64) -> (r: Option<u64>)
    ensures
        r == cutoff_of(days, now_secs),
{
    let wide: u128 = (days as u128) * 86400u128;
    let secs: u64 = if wide > u64::MAX as u128 {
        u64::MAX
    } else {
        wide as u64
    };
    proof {
        assert(secs == sat64(days * SECONDS_PER_DAY));
    }
    if secs > now_secs {
        None
    } else {
        Some(now_secs - secs)
    }
}

/// The cutoff a Logs-kind rule asks for, if any.
pub open spec fn rule_cutoff(rule: Rule, now_secs: u64) -> Option<u64> {
    match rule.older_than_days {
        None => None,
        Some(d) => cutoff_of(d, now_secs),
    }
}

/// A file qualifies when there is no cutoff, or its modification time is
/// known and at or before the cutoff (the boundary is inclusive).
pub open spec fn age_ok(cutoff: Option<u64>, mtime: Option<u64>) -> bool {
    match cutoff {
        None => true,
        Some(c) => mtime is Some && mtime->0 <= c,
    }
}

/// The error message kept when a file's modification time cannot be read
/// while a cutoff is in force.
pub open spec fn mtime_err_msg(p: Seq<Seq<char>>) -> Seq<char> {
    "Failed to read modified time for "@ + join_parts(p)
}

/// The error, if any, that deciding a file's age leaves behind.
pub open spec fn age_errs(cutoff: Option<u64>, mtime: Option<u64>, p: Seq<Seq<char>>) -> Seq<
    Seq<char>,
> {
    if cutoff is Some && mtime is None {
        seq![mtime_err_msg(p)]
    } else {
        Seq::empty()
    }
}

/// Decides whether a file's modification time passes the cutoff; an
/// unreadable modification time is a recorded error and does not qualify.
pub fn is_older_than(
    mtime: &Option<u64>,
    cutoff: &Option<u64>,
    path: &FsPath,
    scan: &mut RuleScan,
) -> (r: bool)
    requires
        old(scan).wf(),
    ensures
        r == age_ok(*cutoff, *mtime),
        scan_extends(
            *final(scan),
            *old(scan),
            Seq::<(Seq<Seq<char>>, u64)>::empty(),
            Seq::<Seq<Seq<char>>>::empty(),
            age_errs(*cutoff, *mtime, path@),
        ),
{
    match cutoff {
        None => {
            proof {
                lemma_scan_extends_refl(*scan);
            }
            true
        },
        Some(c) => {
            match mtime {
                Some(m) => {
                    proof {
                        lemma_scan_extends_refl(*scan);
                    }
                    *m <= *c
                },
                None => {
                    let mut msg = String::new();
                    msg.append("Failed to read modified time for ");
                    let rendered = path.render();
                    msg.append(rendered.as_str());
                    proof {
                        assert(msg@ =~= mtime_err_msg(path@));
                    }
                    record_error(scan, msg);
                    false
                },
            }
        },
    }
}

// The functional model of the log walk: only regular files with log-like
// names qualify, subject to per-entry exclusion (no pruning of excluded
// directories: directories are skipped anyway) and to the age cutoff;
// symlinks are neither followed nor recorded; directories on another device
// are not descended into; no directory is ever recorded.
pub open spec fn tree_log_files(
    t: FsTree,
    base: Seq<Seq<char>>,
    rel: Seq<Seq<char>>,
    pats: Seq<Seq<char>>,
    dev: u64,
    cutoff: Option<u64>,
) -> Seq<(Seq<Seq<char>>, u64)>
    decreases t, 0nat,
{
    match t {
        FsTree::File { name, size, mtime } => {
            if !excluded(pats, rel.push(name@)) && is_log_name(name@) && age_ok(cutoff, mtime) {
                seq![(base.push(name@), size)]
            } else {
                Seq::empty()
            }
        },
        FsTree::Dir { name, device, entries } => {
            if device != dev {
                Seq::empty()
            } else {
                list_log_files(entries@, 0, base.push(name@), rel.push(name@), pats, dev, cutoff)
            }
        },
        _ => Seq::empty(),
    }
}

pub open spec fn list_log_files(
    es: Seq<FsTree>,
    i: int,
    base: Seq<Seq<char>>,
    rel: Seq<Seq<char>>,
    pats: Seq<Seq<char>>,
    dev: u64,
    cutoff: Option<u64>,
) -> Seq<(Seq<Seq<char>>, u64)>
    decreases es, es.len() - i, 1nat,
{
    if 0 <= i < es.len() {
        tree_log_files(es[i], base, rel, pats, dev, cutoff) + list_log_files(
            es,
            i + 1,
            base,
            rel,
            pats,
            dev,
            cutoff,
        )
    } else {
        Seq::empty()
    }
}

pub open spec fn tree_log_errs(
    t: FsTree,
    base: Seq<Seq<char>>,
    rel: Seq<Seq<char>>,
    pats: Seq<Seq<char>>,
    dev: u64,
    cutoff: Option<u64>,
) -> Seq<Seq<char>>
    decreases t, 0nat,
{
    match t {
        FsTree::File { name, size, mtime } => {
            if !excluded(pats, rel.push(name@)) && is_log_name(name@) {
                age_errs(cutoff, mtime, base.push(name@))
            } else {
                Seq::empty()
            }
        },
        FsTree::Unreadable { message } => seq![message@],
        FsTree::Dir { name, device, entries } => {
            if device != dev {
                Seq::empty()
            } else {
                list_log_errs(entries@, 0, base.push(name@), rel.push(name@), pats, dev, cutoff)
            }
        },
        _ => Seq::empty(),
    }
}

pub open spec fn list_log_errs(
    es: Seq<FsTree>,
    i: int,
    base: Seq<Seq<char>>,
    rel: Seq<Seq<char>>,
    pats: Seq<Seq<char>>,
    dev: u64,
    cutoff: Option<u64>,
) -> Seq<Seq<char>>
    decreases es, es.len() - i, 1nat,
{
    if 0 <= i < es.len() {
        tree_log_errs(es[i], base, rel, pats, dev, cutoff) + list_log_errs(
            es,
            i + 1,
            base,
            rel,
            pats,
            dev,
            cutoff,
        )
    } else {
        Seq::empty()
    }
}

/// Walks one snapshot entry for a Logs-kind rule.
fn walk_log_tree(
    t: &FsTree,
    base: &FsPath,
    rel: &FsPath,
    exclude: &Excluder,
    dev: u64,
    cutoff: Option<u64>,
    scan: &mut RuleScan,
)
    requires
        old(scan).wf(),
        exclude.wf(),
    ensures
        scan_extends(
            *final(scan),
            *old(scan),
            tree_log_files(*t, base@, rel@, exclude.patterns(), dev, cutoff),
            Seq::<Seq<Seq<char>>>::empty(),
            tree_log_errs(*t, base@, rel@, exclude.patterns(), dev, cutoff),
        ),
    decreases *t, 0nat,
{
    let ghost pats = exclude.patterns();
    match t {
        FsTree::File { name, size, mtime } => {
            let r = rel.child(name);
            if exclude.matches(&r) {
                proof {
                    lemma_scan_extends_refl(*scan);
                }
            } else if !is_log_file_name(name.as_str()) {
                proof {
                    lemma_scan_extends_refl(*scan);
                }
            } else {
                let p = base.child(name);
                let ghost pre = *scan;
                let older = is_older_than(mtime, &cutoff, &p, scan);
                if older {
                    let ghost mid = *scan;
                    scan.push_file(p, *size);
                    proof {
                        lemma_scan_extends_trans(
                            *scan,
                            mid,
                            pre,
                            Seq::<(Seq<Seq<char>>, u64)>::empty(),
                            Seq::<Seq<Seq<char>>>::empty(),
                            age_errs(cutoff, *mtime, base@.push(name@)),
                            seq![(base@.push(name@), *size)],
                            Seq::<Seq<Seq<char>>>::empty(),
                            Seq::<Seq<char>>::empty(),
                        );
                        assert(Seq::<(Seq<Seq<char>>, u64)>::empty() + seq![
                            (base@.push(name@), *size),
                        ] =~= tree_log_files(*t, base@, rel@, pats, dev, cutoff));
                        assert(Seq::<Seq<Seq<char>>>::empty() + Seq::<Seq<Seq<char>>>::empty()
                            =~= Seq::<Seq<Seq<char>>>::empty());
                        assert(age_errs(cutoff, *mtime, base@.push(name@)) + Seq::<
                            Seq<char>,
                        >::empty() =~= tree_log_errs(*t, base@, rel@, pats, dev, cutoff));
                    }
                } else {
                    proof {
                        assert(tree_log_files(*t, base@, rel@, pats, dev, cutoff) =~= Seq::<
                            (Seq<Seq<char>>, u64),
                        >::empty());
                        assert(age_errs(cutoff, *mtime, base@.push(name@)) =~= tree_log_errs(
                            *t,
                            base@,
                            rel@,
                            pats,
                            dev,
                            cutoff,
                        ));
                    }
                }
            }
        },
        FsTree::Dir { name, device, entries } => {
            if *device == dev {
                let b = base.child(name);
                let r = rel.child(name);
                walk_log_entries(entries, &b, &r, exclude, dev, cutoff, scan);
            } else {
                proof {
                    lemma_scan_extends_refl(*scan);
                }
            }
        },
        FsTree::Symlink { .. } => {
            proof {
                lemma_scan_extends_refl(*scan);
            }
        },
        FsTree::Other { .. } => {
            proof {
                lemma_scan_extends_refl(*scan);
            }
        },
        FsTree::Unreadable { message } => {
            record_error(scan, message.clone());
        },
    }
}

/// Walks the entries of one directory listing for a Logs-kind rule.
fn walk_log_entries(
    entries: &Vec<FsTree>,
    base: &FsPath,
    rel: &FsPath,
    exclude: &Excluder,
    dev: u64,
    cutoff: Option<u64>,
    scan: &mut RuleScan,
)
    requires
        old(scan).wf(),
        exclude.wf(),
    ensures
        scan_extends(
            *final(scan),
            *old(scan),
            list_log_files(entries@, 0, base@, rel@, exclude.patterns(), dev, cutoff),
            Seq::<Seq<Seq<char>>>::empty(),
            list_log_errs(entries@, 0, base@, rel@, exclude.patterns(), dev, cutoff),
        ),
    decreases entries@, 0nat, 1nat,
{
    let ghost pats = exclude.patterns();
    let ghost scan0 = *scan;
    let ghost mut fdone: Seq<(Seq<Seq<char>>, u64)> = Seq::empty();
    let ghost mut edone: Seq<Seq<char>> = Seq::empty();
    proof {
        lemma_scan_extends_refl(*scan);
    }
    let mut i: usize = 0;
    while i < entries.len()
        invariant
            i <= entries.len(),
            exclude.wf(),
            pats == exclude.patterns(),
            scan.wf(),
            scan_extends(*scan, scan0, fdone, Seq::<Seq<Seq<char>>>::empty(), edone),
            fdone + list_log_files(entries@, i as int, base@, rel@, pats, dev, cutoff)
                == list_log_files(entries@, 0, base@, rel@, pats, dev, cutoff),
            edone + list_log_errs(entries@, i as int, base@, rel@, pats, dev, cutoff)
                == list_log_errs(entries@, 0, base@, rel@, pats, dev, cutoff),
        decreases entries@.len() - i,
    {
        let ghost pre = *scan;
        walk_log_tree(&entries[i], base, rel, exclude, dev, cutoff, scan);
        proof {
            let tf = tree_log_files(entries@[i as int], base@, rel@, pats, dev, cutoff);
            let te = tree_log_errs(entries@[i as int], base@, rel@, pats, dev, cutoff);
            lemma_scan_extends_trans(
                *scan,
                pre,
                scan0,
                fdone,
                Seq::<Seq<Seq<char>>>::empty(),
                edone,
                tf,
                Seq::<Seq<Seq<char>>>::empty(),
                te,
            );
            assert(Seq::<Seq<Seq<char>>>::empty() + Seq::<Seq<Seq<char>>>::empty() =~= Seq::<
                Seq<Seq<char>>,
            >::empty());
            assert(fdone + (tf + list_log_files(entries@, i + 1, base@, rel@, pats, dev, cutoff))
                =~= (fdone + tf) + list_log_files(entries@, i + 1, base@, rel@, pats, dev, cutoff));
            assert(edone + (te + list_log_errs(entries@, i + 1, base@, rel@, pats, dev, cutoff))
                =~= (edone + te) + list_log_errs(entries@, i + 1, base@, rel@, pats, dev, cutoff));
            fdone = fdone + tf;
            edone = edone + te;
        }
        i = i + 1;
    }
    proof {
        assert(fdone + Seq::<(Seq<Seq<char>>, u64)>::empty() =~= fdone);
        assert(edone + Seq::<Seq<char>>::empty() =~= edone);
    }
}

// The model of one whole root of a Logs-kind rule. A root that is itself a
// regular file goes through the same predicate chain directly, with
// exclusion judged against its bare name; symlink roots are skipped.
pub open spec fn root_log_files(r: RootSnapshot, pats: Seq<Seq<char>>, cutoff: Option<u64>) -> Seq<
    (Seq<Seq<char>>, u64),
> {
    match r.state {
        RootState::File { size, mtime } => {
            if r.path@.len() > 0 && !excluded(pats, seq![r.path@.last()]) && is_log_name(
                r.path@.last(),
            ) && age_ok(cutoff, mtime) {
                seq![(r.path@, size)]
            } else {
                Seq::empty()
            }
        },
        RootState::Dir { device, entries } => {
            list_log_files(entries@, 0, r.path@, Seq::empty(), pats, device, cutoff)
        },
        _ => Seq::empty(),
    }
}

pub open spec fn root_log_errs(r: RootSnapshot, pats: Seq<Seq<char>>, cutoff: Option<u64>) -> Seq<
    Seq<char>,
> {
    match r.state {
        RootState::File { size, mtime } => {
            if r.path@.len() > 0 && !excluded(pats, seq![r.path@.last()]) && is_log_name(
                r.path@.last(),
            ) {
                age_errs(cutoff, mtime, r.path@)
            } else {
                Seq::empty()
            }
        },
        RootState::Unreadable { message } => seq![message@],
        RootState::Dir { device, entries } => {
            list_log_errs(entries@, 0, r.path@, Seq::empty(), pats, device, cutoff)
        },
        _ => Seq::empty(),
    }
}

/// Selects the qualifying log files under one root.
fn scan_log_root(root: &RootSnapshot, exclude: &Excluder, cutoff: Option<u64>, scan: &mut RuleScan)
    requires
        old(scan).wf(),
        exclude.wf(),
    ensures
        scan_extends(
            *final(scan),
            *old(scan),
            root_log_files(*root, exclude.patterns(), cutoff),
            Seq::<Seq<Seq<char>>>::empty(),
            root_log_errs(*root, exclude.patterns(), cutoff),
        ),
{
    let ghost pats = exclude.patterns();
    match &root.state {
        RootState::Missing => {
            proof {
                lemma_scan_extends_refl(*scan);
            }
        },
        RootState::Other => {
            proof {
                lemma_scan_extends_refl(*scan);
            }
        },
        RootState::Symlink { .. } => {
            proof {
                lemma_scan_extends_refl(*scan);
            }
        },
        RootState::Unreadable { message } => {
            record_error(scan, message.clone());
        },
        RootState::File { size, mtime } => {
            match root.path.last_part() {
                None => {
                    proof {
                        lemma_scan_extends_refl(*scan);
                    }
                },
                Some(name) => {
                    let rel = FsPath::empty().child(name);
                    proof {
                        assert(rel@ =~= seq![root.path@.last()]);
                    }
                    if exclude.matches(&rel) {
                        proof {
                            lemma_scan_extends_refl(*scan);
                        }
                    } else if !is_log_file_name(name.as_str()) {
                        proof {
                            lemma_scan_extends_refl(*scan);
                        }
                    } else {
                        let p = root.path.clone();
                        let ghost pre = *scan;
                        let older = is_older_than(mtime, &cutoff, &p, scan);
                        if older {
                            let ghost mid = *scan;
                            scan.push_file(p, *size);
                            proof {
                                lemma_scan_extends_trans(
                                    *scan,
                                    mid,
                                    pre,
                                    Seq::<(Seq<Seq<char>>, u64)>::empty(),
                                    Seq::<Seq<Seq<char>>>::empty(),
                                    age_errs(cutoff, *mtime, root.path@),
                                    seq![(root.path@, *size)],
                                    Seq::<Seq<Seq<char>>>::empty(),
                                    Seq::<Seq<char>>::empty(),
                                );
                                assert(Seq::<(Seq<Seq<char>>, u64)>::empty() + seq![
                                    (root.path@, *size),
                                ] =~= root_log_files(*root, pats, cutoff));
                                assert(Seq::<Seq<Seq<char>>>::empty() + Seq::<
                                    Seq<Seq<char>>,
                                >::empty() =~= Seq::<Seq<Seq<char>>>::empty());
                                assert(age_errs(cutoff, *mtime, root.path@) + Seq::<
                                    Seq<char>,
                                >::empty() =~= root_log_errs(*root, pats, cutoff));
                            }
                        } else {
                            proof {
                                assert(root_log_files(*root, pats, cutoff) =~= Seq::<
                                    (Seq<Seq<char>>, u64),
                                >::empty());
                                assert(age_errs(cutoff, *mtime, root.path@) =~= root_log_errs(
                                    *root,
                                    pats,
                                    cutoff,
                                ));
                            }
                        }
                    }
                },
            }
        },
        RootState::Dir { device, entries } => {
            let relbase = FsPath::empty();
            walk_log_entries(entries, &root.path, &relbase, exclude, *device, cutoff, scan);
        },
    }
}

pub open spec fn roots_log_files(
    roots: Seq<RootSnapshot>,
    i: int,
    pats: Seq<Seq<char>>,
    cutoff: Option<u64>,
) -> Seq<(Seq<Seq<char>>, u64)>
    decreases roots.len() - i,
{
    if 0 <= i < roots.len() {
        root_log_files(roots[i], pats, cutoff) + roots_log_files(roots, i + 1, pats, cutoff)
    } else {
        Seq::empty()
    }
}

pub open spec fn roots_log_errs(
    roots: Seq<RootSnapshot>,
    i: int,
    pats: Seq<Seq<char>>,
    cutoff: Option<u64>,
) -> Seq<Seq<char>>
    decreases roots.len() - i,
{
    if 0 <= i < roots.len() {
        root_log_errs(roots[i], pats, cutoff) + roots_log_errs(roots, i + 1, pats, cutoff)
    } else {
        Seq::empty()
    }
}

/// What a scan of a Logs-kind rule holds, for the exclusion patterns that
/// compiled and the glob errors that arose: the glob errors, then the
/// qualifying log files of every root. A Logs-kind scan never records a
/// directory.
pub open spec fn logs_scan_shape(
    scan: RuleScan,
    rule: Rule,
    roots: Seq<RootSnapshot>,
    now_secs: u64,
    pats: Seq<Seq<char>>,
    gerrs: Seq<Seq<char>>,
) -> bool {
    let cutoff = rule_cutoff(rule, now_secs);
    &&& scan.wf()
    &&& compile_outcome(pats, gerrs, rule.exclude_globs@)
    &&& scan.file_views() == file_paths(roots_log_files(roots, 0, pats, cutoff))
    &&& scan.bytes == sat64(sum_sizes(roots_log_files(roots, 0, pats, cutoff)))
    &&& scan.dir_views() == Seq::<Seq<Seq<char>>>::empty()
    &&& scan.error_views() == gerrs + roots_log_errs(roots, 0, pats, cutoff)
}

pub open spec fn is_logs_scan(
    scan: RuleScan,
    rule: Rule,
    roots: Seq<RootSnapshot>,
    now_secs: u64,
) -> bool {
    exists|pats: Seq<Seq<char>>, gerrs: Seq<Seq<char>>|
        #[trigger] logs_scan_shape(scan, rule, roots, now_secs, pats, gerrs)
}

/// Scans a Logs-kind rule: compiles its exclusions, reports their errors,
/// then selects log-like, old-enough files under each root in order.
pub fn scan_logs_rule(rule: &Rule, roots: &Vec<RootSnapshot>, now_secs: u64) -> (r: RuleScan)
    ensures
        r.wf(),
        same_rule(r.rule, *rule),
        is_logs_scan(r, *rule, roots@, now_secs),
{
    let mut scan = RuleScan::new(rule);
    let ghost scan0 = scan;
    proof {
        lemma_scan_extends_refl(scan);
    }
    let (excluder, gerrs) = build_globset(&rule.exclude_globs);
    let ghost pats = excluder.patterns();
    let ghost gv = str_views(gerrs@);

    let cutoff: Option<u64> = match rule.older_than_days {
        None => None,
        Some(d) => cutoff_from_days(d, now_secs),
    };
    proof {
        assert(cutoff == rule_cutoff(*rule, now_secs));
    }

    let ghost mut edone: Seq<Seq<char>> = Seq::empty();
    let mut i: usize = 0;
    while i < gerrs.len()
        invariant
            i <= gerrs.len(),
            scan.wf(),
            scan_extends(
                scan,
                scan0,
                Seq::<(Seq<Seq<char>>, u64)>::empty(),
                Seq::<Seq<Seq<char>>>::empty(),
                edone,
            ),
            edone == str_views(gerrs@).take(i as int),
        decreases gerrs@.len() - i,
    {
        let ghost pre = scan;
        record_error(&mut scan, gerrs[i].clone());
        proof {
            lemma_scan_extends_trans(
                scan,
                pre,
                scan0,
                Seq::<(Seq<Seq<char>>, u64)>::empty(),
                Seq::<Seq<Seq<char>>>::empty(),
                edone,
                Seq::<(Seq<Seq<char>>, u64)>::empty(),
                Seq::<Seq<Seq<char>>>::empty(),
                seq![gerrs@[i as int]@],
            );
            assert(Seq::<(Seq<Seq<char>>, u64)>::empty() + Seq::<(Seq<Seq<char>>, u64)>::empty()
                =~= Seq::<(Seq<Seq<char>>, u64)>::empty());
            assert(Seq::<Seq<Seq<char>>>::empty() + Seq::<Seq<Seq<char>>>::empty() =~= Seq::<
                Seq<Seq<char>>,
            >::empty());
            edone = edone + seq![gerrs@[i as int]@];
            assert(edone =~= str_views(gerrs@).take(i + 1));
        }
        i = i + 1;
    }
    proof {
        assert(str_views(gerrs@).take(gerrs@.len() as int) =~= gv);
    }

    let ghost scan1 = scan;
    let ghost mut fdone: Seq<(Seq<Seq<char>>, u64)> = Seq::empty();
    let ghost mut wdone: Seq<Seq<char>> = Seq::empty();
    proof {
        lemma_scan_extends_refl(scan);
    }
    let mut j: usize = 0;
    while j < roots.len()
        invariant
            j <= roots.len(),
            excluder.wf(),
            pats == excluder.patterns(),
            cutoff == rule_cutoff(*rule, now_secs),
            scan.wf(),
            scan_extends(scan, scan1, fdone, Seq::<Seq<Seq<char>>>::empty(), wdone),
            fdone + roots_log_files(roots@, j as int, pats, cutoff) == roots_log_files(
                roots@,
                0,
                pats,
                cutoff,
            ),
            wdone + roots_log_errs(roots@, j as int, pats, cutoff) == roots_log_errs(
                roots@,
                0,
                pats,
                cutoff,
            ),
        decreases roots@.len() - j,
    {
        let ghost pre = scan;
        scan_log_root(&roots[j], &excluder, cutoff, &mut scan);
        proof {
            let rf = root_log_files(roots@[j as int], pats, cutoff);
            let re = root_log_errs(roots@[j as int], pats, cutoff);
            lemma_scan_extends_trans(
                scan,
                pre,
                scan1,
                fdone,
                Seq::<Seq<Seq<char>>>::empty(),
                wdone,
                rf,
                Seq::<Seq<Seq<char>>>::empty(),
                re,
            );
            assert(Seq::<Seq<Seq<char>>>::empty() + Seq::<Seq<Seq<char>>>::empty() =~= Seq::<
                Seq<Seq<char>>,
            >::empty());
            assert(fdone + (rf + roots_log_files(roots@, j + 1, pats, cutoff)) =~= (fdone + rf)
                + roots_log_files(roots@, j + 1, pats, cutoff));
            assert(wdone + (re + roots_log_errs(roots@, j + 1, pats, cutoff)) =~= (wdone + re)
                + roots_log_errs(roots@, j + 1, pats, cutoff));
            fdone = fdone + rf;
            wdone = wdone + re;
        }
        j = j + 1;
    }
    proof {
        assert(fdone + Seq::<(Seq<Seq<char>>, u64)>::empty() =~= fdone);
        assert(wdone + Seq::<Seq<char>>::empty() =~= wdone);
        lemma_scan_extends_trans(
            scan,
            scan1,
            scan0,
            Seq::<(Seq<Seq<char>>, u64)>::empty(),
            Seq::<Seq<Seq<char>>>::empty(),
            gv,
            fdone,
            Seq::<Seq<Seq<char>>>::empty(),
            wdone,
        );
        assert(Seq::<(Seq<Seq<char>>, u64)>::empty() + fdone =~= fdone);
        assert(Seq::<Seq<Seq<char>>>::empty() + Seq::<Seq<Seq<char>>>::empty() =~= Seq::<
            Seq<Seq<char>>,
        >::empty());
        assert(scan.file_views() =~= file_paths(
            roots_log_files(roots@, 0, pats, rule_cutoff(*rule, now_secs)),
        ));
        assert(scan.dir_views() =~= Seq::<Seq<Seq<char>>>::empty());
        assert(scan.error_views() =~= gv + roots_log_errs(
            roots@,
            0,
            pats,
            rule_cutoff(*rule, now_secs),
        ));
        assert(logs_scan_shape(scan, *rule, roots@, now_secs, pats, gv));
    }
    scan
}

} // verus!
