use vstd::prelude::*;

use crate::config::{same_rule, Rule};
use crate::fspath::{str_views, FsPath};
use crate::fstree::{FsTree, RootSnapshot, RootState};
use crate::globs::{build_globset, compile_outcome, excluded, Excluder};
use crate::scan::{
    file_paths, lemma_scan_extends_refl, lemma_scan_extends_trans, record_error, sat64,
    scan_extends, sum_sizes, RuleScan,
};

verus! {

// The functional model of the tree walk: which files (with sizes),
// directories and error messages one subtree contributes, given the absolute
// path `base` and root-relative path `rel` of its parent, the exclusion
// patterns and the device the walk is confined to.
//
// A file or directory whose root-relative path matches an exclusion pattern
// is pruned: nothing below it is visited. Symlinks are neither followed nor
// recorded; a directory on another device is recorded but not descended
// into; unreadable entries contribute their error message.
pub open spec fn tree_files(
    t: FsTree,
    base: Seq<Seq<char>>,
    rel: Seq<Seq<char>>,
    pats: Seq<Seq<char>>,
    dev: u64,
) -> Seq<(Seq<Seq<char>>, u64)>
    decreases t, 0nat,
{
    match t {
        FsTree::File { name, size, .. } => {
            if excluded(pats, rel.push(name@)) {
                Seq::empty()
            } else {
                seq![(base.push(name@), size)]
            }
        },
        FsTree::Dir { name, device, entries } => {
            if excluded(pats, rel.push(name@)) || device != dev {
                Seq::empty()
            } else {
                list_files(entries@, 0, base.push(name@), rel.push(name@), pats, dev)
            }
        },
        _ => Seq::empty(),
    }
}

pub open spec fn list_files(
    es: Seq<FsTree>,
    i: int,
    base: Seq<Seq<char>>,
    rel: Seq<Seq<char>>,
    pats: Seq<Seq<char>>,
    dev: u64,
) -> Seq<(Seq<Seq<char>>, u64)>
    decreases es, es.len() - i, 1nat,
{
    if 0 <= i < es.len() {
        tree_files(es[i], base, rel, pats, dev) + list_files(es, i + 1, base, rel, pats, dev)
    } else {
        Seq::empty()
    }
}

pub open spec fn tree_dirs(
    t: FsTree,
    base: Seq<Seq<char>>,
    rel: Seq<Seq<char>>,
    pats: Seq<Seq<char>>,
    dev: u64,
) -> Seq<Seq<Seq<char>>>
    decreases t, 0nat,
{
    match t {
        FsTree::Dir { name, device, entries } => {
            if excluded(pats, rel.push(name@)) {
                Seq::empty()
            } else if device != dev {
                seq![base.push(name@)]
            } else {
                seq![base.push(name@)] + list_dirs(
                    entries@,
                    0,
                    base.push(name@),
                    rel.push(name@),
                    pats,
                    dev,
                )
            }
        },
        _ => Seq::empty(),
    }
}

pub open spec fn list_dirs(
    es: Seq<FsTree>,
    i: int,
    base: Seq<Seq<char>>,
    rel: Seq<Seq<char>>,
    pats: Seq<Seq<char>>,
    dev: u64,
) -> Seq<Seq<Seq<char>>>
    decreases es, es.len() - i, 1nat,
{
    if 0 <= i < es.len() {
        tree_dirs(es[i], base, rel, pats, dev) + list_dirs(es, i + 1, base, rel, pats, dev)
    } else {
        Seq::empty()
    }
}

pub open spec fn tree_errs(
    t: FsTree,
    base: Seq<Seq<char>>,
    rel: Seq<Seq<char>>,
    pats: Seq<Seq<char>>,
    dev: u64,
) -> Seq<Seq<char>>
    decreases t, 0nat,
{
    match t {
        FsTree::Unreadable { message } => seq![message@],
        FsTree::Dir { name, device, entries } => {
            if excluded(pats, rel.push(name@)) || device != dev {
                Seq::empty()
            } else {
                list_errs(entries@, 0, base.push(name@), rel.push(name@), pats, dev)
            }
        },
        _ => Seq::empty(),
    }
}

pub open spec fn list_errs(
    es: Seq<FsTree>,
    i: int,
    base: Seq<Seq<char>>,
    rel: Seq<Seq<char>>,
    pats: Seq<Seq<char>>,
    dev: u64,
) -> Seq<Seq<char>>
    decreases es, es.len() - i, 1nat,
{
    if 0 <= i < es.len() {
        tree_errs(es[i], base, rel, pats, dev) + list_errs(es, i + 1, base, rel, pats, dev)
    } else {
        Seq::empty()
    }
}

/// Walks one snapshot entry, recording what the model says.
fn walk_tree(
    t: &FsTree,
    base: &FsPath,
    rel: &FsPath,
    exclude: &Excluder,
    dev: u64,
    scan: &mut RuleScan,
)
    requires
        old(scan).wf(),
        exclude.wf(),
    ensures
        scan_extends(
            *final(scan),
            *old(scan),
            tree_files(*t, base@, rel@, exclude.patterns(), dev),
            tree_dirs(*t, base@, rel@, exclude.patterns(), dev),
            tree_errs(*t, base@, rel@, exclude.patterns(), dev),
        ),
    decreases *t, 0nat,
{
    let ghost pats = exclude.patterns();
    match t {
        FsTree::File { name, size, .. } => {
            let r = rel.child(name);
            if !exclude.matches(&r) {
                let p = base.child(name);
                scan.push_file(p, *size);
            } else {
                proof {
                    lemma_scan_extends_refl(*scan);
                }
            }
        },
        FsTree::Dir { name, device, entries } => {
            let r = rel.child(name);
            if !exclude.matches(&r) {
                let b = base.child(name);
                let ghost pre = *scan;
                scan.push_dir(b.clone());
                if *device == dev {
                    let ghost mid = *scan;
                    walk_entries(entries, &b, &r, exclude, dev, scan);
                    proof {
                        lemma_scan_extends_trans(
                            *scan,
                            mid,
                            pre,
                            Seq::<(Seq<Seq<char>>, u64)>::empty(),
                            seq![b@],
                            Seq::<Seq<char>>::empty(),
                            list_files(entries@, 0, b@, r@, pats, dev),
                            list_dirs(entries@, 0, b@, r@, pats, dev),
                            list_errs(entries@, 0, b@, r@, pats, dev),
                        );
                        assert(Seq::<(Seq<Seq<char>>, u64)>::empty() + list_files(
                            entries@,
                            0,
                            b@,
                            r@,
                            pats,
                            dev,
                        ) =~= tree_files(*t, base@, rel@, pats, dev));
                        assert(seq![b@] + list_dirs(entries@, 0, b@, r@, pats, dev) =~= tree_dirs(
                            *t,
                            base@,
                            rel@,
                            pats,
                            dev,
                        ));
                        assert(Seq::<Seq<char>>::empty() + list_errs(entries@, 0, b@, r@, pats, dev)
                            =~= tree_errs(*t, base@, rel@, pats, dev));
                    }
                } else {
                    proof {
                        assert(tree_files(*t, base@, rel@, pats, dev) =~= Seq::<
                            (Seq<Seq<char>>, u64),
                        >::empty());
                        assert(tree_dirs(*t, base@, rel@, pats, dev) =~= seq![b@]);
                        assert(tree_errs(*t, base@, rel@, pats, dev) =~= Seq::<Seq<char>>::empty());
                    }
                }
            } else {
                proof {
                    lemma_scan_extends_refl(*scan);
                }
            }
        },
        FsTree::Symlink { .. } => {
            proof {
                lemma_scan_extends_refl(*scan);
            }
        },
        FsTree::Other { .. } => {
            proof {
                lemma_scan_extends_refl(*scan);
            }
        },
        FsTree::Unreadable { message } => {
            record_error(scan, message.clone());
        },
    }
}

/// Walks the entries of one directory listing in order.
pub(crate) fn walk_entries(
    entries: &Vec<FsTree>,
    base: &FsPath,
    rel: &FsPath,
    exclude: &Excluder,
    dev: u64,
    scan: &mut RuleScan,
)
    requires
        old(scan).wf(),
        exclude.wf(),
    ensures
        scan_extends(
            *final(scan),
            *old(scan),
            list_files(entries@, 0, base@, rel@, exclude.patterns(), dev),
            list_dirs(entries@, 0, base@, rel@, exclude.patterns(), dev),
            list_errs(entries@, 0, base@, rel@, exclude.patterns(), dev),
        ),
    decreases entries@, 0nat, 1nat,
{
    let ghost pats = exclude.patterns();
    let ghost scan0 = *scan;
    let ghost mut fdone: Seq<(Seq<Seq<char>>, u64)> = Seq::empty();
    let ghost mut ddone: Seq<Seq<Seq<char>>> = Seq::empty();
    let ghost mut edone: Seq<Seq<char>> = Seq::empty();
    proof {
        lemma_scan_extends_refl(*scan);
    }
    let mut i: usize = 0;
    while i < entries.len()
        invariant
            i <= entries.len(),
            exclude.wf(),
            pats == exclude.patterns(),
            scan.wf(),
            scan_extends(*scan, scan0, fdone, ddone, edone),
            fdone + list_files(entries@, i as int, base@, rel@, pats, dev) == list_files(
                entries@,
                0,
                base@,
                rel@,
                pats,
                dev,
            ),
            ddone + list_dirs(entries@, i as int, base@, rel@, pats, dev) == list_dirs(
                entries@,
                0,
                base@,
                rel@,
                pats,
                dev,
            ),
            edone + list_errs(entries@, i as int, base@, rel@, pats, dev) == list_errs(
                entries@,
                0,
                base@,
                rel@,
                pats,
                dev,
            ),
        decreases entries@.len() - i,
    {
        proof {
            assert(fdone + Seq::<(Seq<Seq<char>>, u64)>::empty() =~= fdone);
            assert(ddone + Seq::<Seq<Seq<char>>>::empty() =~= ddone);
            assert(edone + Seq::<Seq<char>>::empty() =~= edone);
        }
        let ghost pre = *scan;
        walk_tree(&entries[i], base, rel, exclude, dev, scan);
        proof {
            let tf = tree_files(entries@[i as int], base@, rel@, pats, dev);
            let td = tree_dirs(entries@[i as int], base@, rel@, pats, dev);
            let te = tree_errs(entries@[i as int], base@, rel@, pats, dev);
            lemma_scan_extends_trans(*scan, pre, scan0, fdone, ddone, edone, tf, td, te);
            assert(fdone + (tf + list_files(entries@, i + 1, base@, rel@, pats, dev)) =~= (fdone
                + tf) + list_files(entries@, i + 1, base@, rel@, pats, dev));
            assert(ddone + (td + list_dirs(entries@, i + 1, base@, rel@, pats, dev)) =~= (ddone
                + td) + list_dirs(entries@, i + 1, base@, rel@, pats, dev));
            assert(edone + (te + list_errs(entries@, i + 1, base@, rel@, pats, dev)) =~= (edone
                + te) + list_errs(entries@, i + 1, base@, rel@, pats, dev));
            fdone = fdone + tf;
            ddone = ddone + td;
            edone = edone + te;
        }
        i = i + 1;
    }
    proof {
        assert(fdone + Seq::<(Seq<Seq<char>>, u64)>::empty() =~= fdone);
        assert(ddone + Seq::<Seq<Seq<char>>>::empty() =~= ddone);
        assert(edone + Seq::<Seq<char>>::empty() =~= edone);
    }
}

// The model of a whole root: a missing root contributes nothing; an
// unreadable one only its error; a root that is itself a file or symlink is
// recorded directly, subject to exclusion against the empty relative path; a
// directory root contributes its listing, walked on its own device, and
// never itself.
pub open spec fn root_files(r: RootSnapshot, pats: Seq<Seq<char>>) -> Seq<(Seq<Seq<char>>, u64)> {
    match r.state {
        RootState::File { size, .. } => {
            if excluded(pats, Seq::empty()) {
                Seq::empty()
            } else {
                seq![(r.path@, size)]
            }
        },
        RootState::Symlink { size } => {
            if excluded(pats, Seq::empty()) {
                Seq::empty()
            } else {
                seq![(r.path@, size)]
            }
        },
        RootState::Dir { device, entries } => {
            list_files(entries@, 0, r.path@, Seq::empty(), pats, device)
        },
        _ => Seq::empty(),
    }
}

pub open spec fn root_dirs(r: RootSnapshot, pats: Seq<Seq<char>>) -> Seq<Seq<Seq<char>>> {
    match r.state {
        RootState::Dir { device, entries } => {
            list_dirs(entries@, 0, r.path@, Seq::empty(), pats, device)
        },
        _ => Seq::empty(),
    }
}

pub open spec fn root_errs(r: RootSnapshot, pats: Seq<Seq<char>>) -> Seq<Seq<char>> {
    match r.state {
        RootState::Unreadable { message } => seq![message@],
        RootState::Dir { device, entries } => {
            list_errs(entries@, 0, r.path@, Seq::empty(), pats, device)
        },
        _ => Seq::empty(),
    }
}

/// Enumerates everything under one root, classifying files and directories
/// while honouring exclusions, symlink policy and device boundaries. The
/// root itself is never part of its own result; if the root is itself a file
/// or symlink it is recorded directly as a single file entry.
pub fn scan_root(root: &RootSnapshot, exclude: &Excluder, scan: &mut RuleScan)
    requires
        old(scan).wf(),
        exclude.wf(),
    ensures
        scan_extends(
            *final(scan),
            *old(scan),
            root_files(*root, exclude.patterns()),
            root_dirs(*root, exclude.patterns()),
            root_errs(*root, exclude.patterns()),
        ),
{
    let ghost pats = exclude.patterns();
    match &root.state {
        RootState::Missing => {
            proof {
                lemma_scan_extends_refl(*scan);
            }
        },
        RootState::Other => {
            proof {
                lemma_scan_extends_refl(*scan);
            }
        },
        RootState::Unreadable { message } => {
            record_error(scan, message.clone());
        },
        RootState::File { size, .. } => {
            let relself = FsPath::empty();
            if !exclude.matches(&relself) {
                scan.push_file(root.path.clone(), *size);
            } else {
                proof {
                    lemma_scan_extends_refl(*scan);
                }
            }
        },
        RootState::Symlink { size } => {
            let relself = FsPath::empty();
            if !exclude.matches(&relself) {
                scan.push_file(root.path.clone(), *size);
            } else {
                proof {
                    lemma_scan_extends_refl(*scan);
                }
            }
        },
        RootState::Dir { device, entries } => {
            let relbase = FsPath::empty();
            walk_entries(entries, &root.path, &relbase, exclude, *device, scan);
        },
    }
}

// The model over a rule's whole root list, in order.
pub open spec fn roots_files(
    roots: Seq<RootSnapshot>,
    i: int,
    pats: Seq<Seq<char>>,
) -> Seq<(Seq<Seq<char>>, u64)>
    decreases roots.len() - i,
{
    if 0 <= i < roots.len() {
        root_files(roots[i], pats) + roots_files(roots, i + 1, pats)
    } else {
        Seq::empty()
    }
}

pub open spec fn roots_dirs(roots: Seq<RootSnapshot>, i: int, pats: Seq<Seq<char>>) -> Seq<
    Seq<Seq<char>>,
>
    decreases roots.len() - i,
{
    if 0 <= i < roots.len() {
        root_dirs(roots[i], pats) + roots_dirs(roots, i + 1, pats)
    } else {
        Seq::empty()
    }
}

pub open spec fn roots_errs(roots: Seq<RootSnapshot>, i: int, pats: Seq<Seq<char>>) -> Seq<
    Seq<char>,
>
    decreases roots.len() - i,
{
    if 0 <= i < roots.len() {
        root_errs(roots[i], pats) + roots_errs(roots, i + 1, pats)
    } else {
        Seq::empty()
    }
}

/// What a scan of a Paths-kind rule holds, for the exclusion patterns that
/// compiled (`pats`) and the glob error messages that arose (`gerrs`): first
/// the glob errors, then everything the walk over the given roots found.
pub open spec fn paths_scan_shape(
    scan: RuleScan,
    rule: Rule,
    roots: Seq<RootSnapshot>,
    pats: Seq<Seq<char>>,
    gerrs: Seq<Seq<char>>,
) -> bool {
    &&& scan.wf()
    &&& compile_outcome(pats, gerrs, rule.exclude_globs@)
    &&& scan.file_views() == file_paths(roots_files(roots, 0, pats))
    &&& scan.bytes == sat64(sum_sizes(roots_files(roots, 0, pats)))
    &&& scan.dir_views() == roots_dirs(roots, 0, pats)
    &&& scan.error_views() == gerrs + roots_errs(roots, 0, pats)
}

/// The scan is a faithful Paths-kind scan of the given roots, for some
/// compiled subset of the rule's exclusion patterns.
pub open spec fn is_paths_scan(scan: RuleScan, rule: Rule, roots: Seq<RootSnapshot>) -> bool {
    exists|pats: Seq<Seq<char>>, gerrs: Seq<Seq<char>>|
        #[trigger] paths_scan_shape(scan, rule, roots, pats, gerrs)
}

/// Scans a Paths-kind rule: compiles its exclusions, reports their errors,
/// then walks each root in order.
pub fn scan_paths_rule(rule: &Rule, roots: &Vec<RootSnapshot>) -> (r: RuleScan)
    ensures
        r.wf(),
        same_rule(r.rule, *rule),
        is_paths_scan(r, *rule, roots@),
{
    let mut scan = RuleScan::new(rule);
    let ghost scan0 = scan;
    proof {
        lemma_scan_extends_refl(scan);
        assert(scan0.file_views() =~= Seq::<Seq<Seq<char>>>::empty());
    }
    let (excluder, gerrs) = build_globset(&rule.exclude_globs);
    let ghost pats = excluder.patterns();
    let ghost gv = str_views(gerrs@);

    let ghost mut edone: Seq<Seq<char>> = Seq::empty();
    let mut i: usize = 0;
    while i < gerrs.len()
        invariant
            i <= gerrs.len(),
            scan.wf(),
            scan_extends(
                scan,
                scan0,
                Seq::<(Seq<Seq<char>>, u64)>::empty(),
                Seq::<Seq<Seq<char>>>::empty(),
                edone,
            ),
            edone == str_views(gerrs@).take(i as int),
        decreases gerrs@.len() - i,
    {
        let ghost pre = scan;
        record_error(&mut scan, gerrs[i].clone());
        proof {
            lemma_scan_extends_trans(
                scan,
                pre,
                scan0,
                Seq::<(Seq<Seq<char>>, u64)>::empty(),
                Seq::<Seq<Seq<char>>>::empty(),
                edone,
                Seq::<(Seq<Seq<char>>, u64)>::empty(),
                Seq::<Seq<Seq<char>>>::empty(),
                seq![gerrs@[i as int]@],
            );
            assert(Seq::<(Seq<Seq<char>>, u64)>::empty() + Seq::<(Seq<Seq<char>>, u64)>::empty()
                =~= Seq::<(Seq<Seq<char>>, u64)>::empty());
            assert(Seq::<Seq<Seq<char>>>::empty() + Seq::<Seq<Seq<char>>>::empty() =~= Seq::<
                Seq<Seq<char>>,
            >::empty());
            edone = edone + seq![gerrs@[i as int]@];
            assert(edone =~= str_views(gerrs@).take(i + 1));
        }
        i = i + 1;
    }
    proof {
        assert(str_views(gerrs@).take(gerrs@.len() as int) =~= gv);
    }

    let ghost scan1 = scan;
    let ghost mut fdone: Seq<(Seq<Seq<char>>, u64)> = Seq::empty();
    let ghost mut ddone: Seq<Seq<Seq<char>>> = Seq::empty();
    let ghost mut wdone: Seq<Seq<char>> = Seq::empty();
    proof {
        lemma_scan_extends_refl(scan);
    }
    let mut j: usize = 0;
    while j < roots.len()
        invariant
            j <= roots.len(),
            excluder.wf(),
            pats == excluder.patterns(),
            scan.wf(),
            scan_extends(scan, scan1, fdone, ddone, wdone),
            fdone + roots_files(roots@, j as int, pats) == roots_files(roots@, 0, pats),
            ddone + roots_dirs(roots@, j as int, pats) == roots_dirs(roots@, 0, pats),
            wdone + roots_errs(roots@, j as int, pats) == roots_errs(roots@, 0, pats),
        decreases roots@.len() - j,
    {
        let ghost pre = scan;
        scan_root(&roots[j], &excluder, &mut scan);
        proof {
            let rf = root_files(roots@[j as int], pats);
            let rd = root_dirs(roots@[j as int], pats);
            let re = root_errs(roots@[j as int], pats);
            lemma_scan_extends_trans(scan, pre, scan1, fdone, ddone, wdone, rf, rd, re);
            assert(fdone + (rf + roots_files(roots@, j + 1, pats)) =~= (fdone + rf) + roots_files(
                roots@,
                j + 1,
                pats,
            ));
            assert(ddone + (rd + roots_dirs(roots@, j + 1, pats)) =~= (ddone + rd) + roots_dirs(
                roots@,
                j + 1,
                pats,
            ));
            assert(wdone + (re + roots_errs(roots@, j + 1, pats)) =~= (wdone + re) + roots_errs(
                roots@,
                j + 1,
                pats,
            ));
            fdone = fdone + rf;
            ddone = ddone + rd;
            wdone = wdone + re;
        }
        j = j + 1;
    }
    proof {
        assert(fdone + Seq::<(Seq<Seq<char>>, u64)>::empty() =~= fdone);
        assert(ddone + Seq::<Seq<Seq<char>>>::empty() =~= ddone);
        assert(wdone + Seq::<Seq<char>>::empty() =~= wdone);
        lemma_scan_extends_trans(
            scan,
            scan1,
            scan0,
            Seq::<(Seq<Seq<char>>, u64)>::empty(),
            Seq::<Seq<Seq<char>>>::empty(),
            gv,
            fdone,
            ddone,
            wdone,
        );
        assert(Seq::<(Seq<Seq<char>>, u64)>::empty() + fdone =~= fdone);
        assert(Seq::<Seq<Seq<char>>>::empty() + ddone =~= ddone);
        assert(scan.file_views() =~= file_paths(roots_files(roots@, 0, pats)));
        assert(scan.dir_views() =~= roots_dirs(roots@, 0, pats));
        assert(scan.error_views() =~= gv + roots_errs(roots@, 0, pats));
        assert(paths_scan_shape(scan, *rule, roots@, pats, gv));
    }
    scan
}

} // verus!
