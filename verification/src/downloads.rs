use vstd::prelude::*;

use crate::ascii::{ascii_lower, ends_with, ends_with_ignore_ascii};
use crate::config::{same_rule, Rule};
use crate::fspath::{join_parts, lemma_str_views_push, str_views, FsPath};
use crate::fstree::{tree_name, FsTree, RootSnapshot, RootState};
use crate::globs::Excluder;
use crate::options::DownloadsChoice;
use crate::scan::{
    file_paths, lemma_scan_extends_refl, lemma_scan_extends_trans, record_error, sat64,
    scan_extends, sum_sizes, RuleScan,
};
use crate::walk::{list_dirs, list_errs, list_files, walk_entries};

verus! {

/// The base name an archive file name yields for the given suffix: `None`
/// when stripping the suffix would leave nothing.
pub open spec fn base_or_none(s: Seq<char>, extlen: int) -> Option<Seq<char>> {
    if s.len() == extlen {
        None
    } else {
        Some(s.take(s.len() - extlen))
    }
}

/// The base name of an archive-looking file name: the name with the first
/// recognized archive suffix stripped (suffixes compared without regard to
/// ASCII case), or `None` if no suffix matches or nothing would remain.
pub open spec fn archive_base(s: Seq<char>) -> Option<Seq<char>> {
    let l = ascii_lower(s);
    if ends_with(l, ascii_lower(".tar.gz"@)) {
        base_or_none(s, ".tar.gz"@.len() as int)
    } else if ends_with(l, ascii_lower(".tgz"@)) {
        base_or_none(s, ".tgz"@.len() as int)
    } else if ends_with(l, ascii_lower(".tar.xz"@)) {
        base_or_none(s, ".tar.xz"@.len() as int)
    } else if ends_with(l, ascii_lower(".tar.zst"@)) {
        base_or_none(s, ".tar.zst"@.len() as int)
    } else if ends_with(l, ascii_lower(".zip"@)) {
        base_or_none(s, ".zip"@.len() as int)
    } else if ends_with(l, ascii_lower(".7z"@)) {
        base_or_none(s, ".7z"@.len() as int)
    } else if ends_with(l, ascii_lower(".rar"@)) {
        base_or_none(s, ".rar"@.len() as int)
    } else {
        None
    }
}

/// Strips `ext` from the end of `name` if it ends with it (ASCII
/// case-insensitively): `None` when it does not end with `ext`, `Some(None)`
/// when stripping leaves nothing, `Some(Some(base))` otherwise.
fn strip_suffix_ci(name: &str, ext: &str) -> (r: Option<Option<String>>)
    ensures
        match r {
            None => !ends_with(ascii_lower(name@), ascii_lower(ext@)),
            Some(o) => ends_with(ascii_lower(name@), ascii_lower(ext@)) && (match o {
                None => name@.len() == ext@.len(),
                Some(b) => name@.len() > ext@.len() && b@ == name@.take(
                    name@.len() - ext@.len(),
                ),
            }),
        },
{
    if !ends_with_ignore_ascii(name, ext) {
        return None;
    }
    let nl = name.unicode_len();
    let el = ext.unicode_len();
    if nl == el {
        Some(None)
    } else {
        let sub = name.substring_char(0, nl - el);
        proof {
            assert(sub@ =~= name@.take(name@.len() - ext@.len()));
        }
        Some(Some(sub.to_owned()))
    }
}

/// The base name of an archive file name, if it carries a recognized
/// archive suffix and stripping it leaves something.
pub fn archive_base_name(file_name: &str) -> (r: Option<String>)
    ensures
        match r {
            None => archive_base(file_name@) is None,
            Some(b) => archive_base(file_name@) == Some(b@),
        },
{
    match strip_suffix_ci(file_name, ".tar.gz") {
        Some(o) => {
            return o;
        },
        None => {},
    }
    match strip_suffix_ci(file_name, ".tgz") {
        Some(o) => {
            return o;
        },
        None => {},
    }
    match strip_suffix_ci(file_name, ".tar.xz") {
        Some(o) => {
            return o;
        },
        None => {},
    }
    match strip_suffix_ci(file_name, ".tar.zst") {
        Some(o) => {
            return o;
        },
        None => {},
    }
    match strip_suffix_ci(file_name, ".zip") {
        Some(o) => {
            return o;
        },
        None => {},
    }
    match strip_suffix_ci(file_name, ".7z") {
        Some(o) => {
            return o;
        },
        None => {},
    }
    match strip_suffix_ci(file_name, ".rar") {
        Some(o) => {
            return o;
        },
        None => {},
    }
    None
}

// The single-level classification of a Downloads directory listing: the
// archive candidates in listing order, and the listing's error messages.
pub open spec fn dl_archives(es: Seq<FsTree>, i: int) -> Seq<(Seq<char>, Seq<char>, u64)>
    decreases es.len() - i,
{
    if 0 <= i < es.len() {
        (match es[i] {
            FsTree::File { name, size, .. } => {
                match archive_base(name@) {
                    Some(b) => seq![(b, name@, size)],
                    None => Seq::empty(),
                }
            },
            _ => Seq::empty(),
        }) + dl_archives(es, i + 1)
    } else {
        Seq::empty()
    }
}

pub open spec fn dl_list_errs(es: Seq<FsTree>, i: int) -> Seq<Seq<char>>
    decreases es.len() - i,
{
    if 0 <= i < es.len() {
        (match es[i] {
            FsTree::Unreadable { message } => seq![message@],
            _ => Seq::empty(),
        }) + dl_list_errs(es, i + 1)
    } else {
        Seq::empty()
    }
}

/// The index of the first directory entry named `name`, or `-1`.
pub open spec fn find_dir_idx(es: Seq<FsTree>, i: int, name: Seq<char>) -> int
    decreases es.len() - i,
{
    if 0 <= i < es.len() {
        if es[i] is Dir && tree_name(es[i]) == Some(name) {
            i
        } else {
            find_dir_idx(es, i + 1, name)
        }
    } else {
        -1
    }
}

// What walking one paired directory entry contributes: the full recursive
// walk of its contents (no exclusions, confined to the directory's own
// device); the directory itself is recorded by the caller afterwards.
pub open spec fn paired_files(es: Seq<FsTree>, k: int, dirpath: Seq<Seq<char>>) -> Seq<
    (Seq<Seq<char>>, u64),
> {
    match es[k] {
        FsTree::Dir { device, entries, .. } => {
            list_files(entries@, 0, dirpath, Seq::empty(), Seq::empty(), device)
        },
        _ => Seq::empty(),
    }
}

pub open spec fn paired_dirs(es: Seq<FsTree>, k: int, dirpath: Seq<Seq<char>>) -> Seq<
    Seq<Seq<char>>,
> {
    match es[k] {
        FsTree::Dir { device, entries, .. } => {
            list_dirs(entries@, 0, dirpath, Seq::empty(), Seq::empty(), device)
        },
        _ => Seq::empty(),
    }
}

pub open spec fn paired_errs(es: Seq<FsTree>, k: int, dirpath: Seq<Seq<char>>) -> Seq<Seq<char>> {
    match es[k] {
        FsTree::Dir { device, entries, .. } => {
            list_errs(entries@, 0, dirpath, Seq::empty(), Seq::empty(), device)
        },
        _ => Seq::empty(),
    }
}

// The Archives choice: for every archive whose base name has a matching
// directory, the archive file itself, in listing order. Unpaired archives
// are left alone.
pub open spec fn dl_archive_files(
    archs: Seq<(Seq<char>, Seq<char>, u64)>,
    i: int,
    es: Seq<FsTree>,
    rootpath: Seq<Seq<char>>,
) -> Seq<(Seq<Seq<char>>, u64)>
    decreases archs.len() - i,
{
    if 0 <= i < archs.len() {
        (if find_dir_idx(es, 0, archs[i].0) >= 0 {
            seq![(rootpath.push(archs[i].1), archs[i].2)]
        } else {
            Seq::empty()
        }) + dl_archive_files(archs, i + 1, es, rootpath)
    } else {
        Seq::empty()
    }
}

// The Folders choice: for every archive whose base name has a matching
// directory not walked yet, the full contents of that directory, followed by
// the directory itself; each distinct paired directory is walked at most
// once.
pub open spec fn dl_folder_files(
    archs: Seq<(Seq<char>, Seq<char>, u64)>,
    i: int,
    es: Seq<FsTree>,
    rootpath: Seq<Seq<char>>,
    seen: Seq<Seq<char>>,
) -> Seq<(Seq<Seq<char>>, u64)>
    decreases archs.len() - i,
{
    if 0 <= i < archs.len() {
        let base = archs[i].0;
        let k = find_dir_idx(es, 0, base);
        if k >= 0 && !seen.contains(base) {
            paired_files(es, k, rootpath.push(base)) + dl_folder_files(
                archs,
                i + 1,
                es,
                rootpath,
                seen.push(base),
            )
        } else {
            dl_folder_files(archs, i + 1, es, rootpath, seen)
        }
    } else {
        Seq::empty()
    }
}

pub open spec fn dl_folder_dirs(
    archs: Seq<(Seq<char>, Seq<char>, u64)>,
    i: int,
    es: Seq<FsTree>,
    rootpath: Seq<Seq<char>>,
    seen: Seq<Seq<char>>,
) -> Seq<Seq<Seq<char>>>
    decreases archs.len() - i,
{
    if 0 <= i < archs.len() {
        let base = archs[i].0;
        let k = find_dir_idx(es, 0, base);
        if k >= 0 && !seen.contains(base) {
            (paired_dirs(es, k, rootpath.push(base)) + seq![rootpath.push(base)])
                + dl_folder_dirs(archs, i + 1, es, rootpath, seen.push(base))
        } else {
            dl_folder_dirs(archs, i + 1, es, rootpath, seen)
        }
    } else {
        Seq::empty()
    }
}

pub open spec fn dl_folder_errs(
    archs: Seq<(Seq<char>, Seq<char>, u64)>,
    i: int,
    es: Seq<FsTree>,
    rootpath: Seq<Seq<char>>,
    seen: Seq<Seq<char>>,
) -> Seq<Seq<char>>
    decreases archs.len() - i,
{
    if 0 <= i < archs.len() {
        let base = archs[i].0;
        let k = find_dir_idx(es, 0, base);
        if k >= 0 && !seen.contains(base) {
            paired_errs(es, k, rootpath.push(base)) + dl_folder_errs(
                archs,
                i + 1,
                es,
                rootpath,
                seen.push(base),
            )
        } else {
            dl_folder_errs(archs, i + 1, es, rootpath, seen)
        }
    } else {
        Seq::empty()
    }
}

/// The error message kept when a Downloads root's metadata cannot be read.
pub open spec fn dl_missing_msg(p: Seq<Seq<char>>) -> Seq<char> {
    "Failed to read metadata for "@ + join_parts(p)
}

// The model of one whole Downloads root: a root whose metadata cannot be
// read contributes an error; a symlink or non-directory root is skipped;
// a directory root is classified at a single level and resolved against the
// caller's choice.
pub open spec fn dl_root_files(r: RootSnapshot, choice: DownloadsChoice) -> Seq<
    (Seq<Seq<char>>, u64),
> {
    match r.state {
        RootState::Dir { entries, .. } => {
            let archs = dl_archives(entries@, 0);
            match choice {
                DownloadsChoice::Archives => dl_archive_files(archs, 0, entries@, r.path@),
                DownloadsChoice::Folders => dl_folder_files(
                    archs,
                    0,
                    entries@,
                    r.path@,
                    Seq::empty(),
                ),
            }
        },
        _ => Seq::empty(),
    }
}

pub open spec fn dl_root_dirs(r: RootSnapshot, choice: DownloadsChoice) -> Seq<Seq<Seq<char>>> {
    match r.state {
        RootState::Dir { entries, .. } => {
            match choice {
                DownloadsChoice::Archives => Seq::empty(),
                DownloadsChoice::Folders => dl_folder_dirs(
                    dl_archives(entries@, 0),
                    0,
                    entries@,
                    r.path@,
                    Seq::empty(),
                ),
            }
        },
        _ => Seq::empty(),
    }
}

pub open spec fn dl_root_errs(r: RootSnapshot, choice: DownloadsChoice) -> Seq<Seq<char>> {
    match r.state {
        RootState::Missing => seq![dl_missing_msg(r.path@)],
        RootState::Unreadable { message } => seq![message@],
        RootState::Dir { entries, .. } => {
            dl_list_errs(entries@, 0) + (match choice {
                DownloadsChoice::Archives => Seq::<Seq<char>>::empty(),
                DownloadsChoice::Folders => dl_folder_errs(
                    dl_archives(entries@, 0),
                    0,
                    entries@,
                    r.path@,
                    Seq::empty(),
                ),
            })
        },
        _ => Seq::empty(),
    }
}

/// The views of collected archive candidates.
pub open spec fn arch_views(s: Seq<(String, String, u64)>) -> Seq<(Seq<char>, Seq<char>, u64)> {
    s.map_values(|t: (String, String, u64)| (t.0@, t.1@, t.2))
}

/// Wherever `find_dir_idx` points, a directory of that name stands.
pub proof fn lemma_find_dir_idx(es: Seq<FsTree>, i: int, name: Seq<char>)
    requires
        0 <= i,
        find_dir_idx(es, i, name) >= 0,
    ensures
        i <= find_dir_idx(es, i, name) < es.len(),
        es[find_dir_idx(es, i, name)] is Dir,
        tree_name(es[find_dir_idx(es, i, name)]) == Some(name),
    decreases es.len() - i,
{
    if i < es.len() {
        if !(es[i] is Dir && tree_name(es[i]) == Some(name)) {
            lemma_find_dir_idx(es, i + 1, name);
        }
    }
}

/// Finds the first directory entry with the given name.
fn find_dir_in(entries: &Vec<FsTree>, name: &String) -> (r: Option<usize>)
    ensures
        match r {
            Some(k) => 0 <= k < entries@.len() && find_dir_idx(entries@, 0, name@) == k,
            None => find_dir_idx(entries@, 0, name@) == -1,
        },
{
    let mut j: usize = 0;
    while j < entries.len()
        invariant
            j <= entries@.len(),
            find_dir_idx(entries@, 0, name@) == find_dir_idx(entries@, j as int, name@),
        decreases entries@.len() - j,
    {
        match &entries[j] {
            FsTree::Dir { name: dname, .. } => {
                if *dname == *name {
                    proof {
                        assert(tree_name(entries@[j as int]) == Some(name@));
                        assert(find_dir_idx(entries@, j as int, name@) == j);
                    }
                    return Some(j);
                }
                proof {
                    assert(tree_name(entries@[j as int]) == Some(dname@));
                    assert(find_dir_idx(entries@, j as int, name@) == find_dir_idx(
                        entries@,
                        j + 1,
                        name@,
                    ));
                }
            },
            _ => {
                proof {
                    assert(find_dir_idx(entries@, j as int, name@) == find_dir_idx(
                        entries@,
                        j + 1,
                        name@,
                    ));
                }
            },
        }
        j = j + 1;
    }
    None
}

/// Whether `seen` already holds `s`.
fn seen_contains(seen: &Vec<String>, s: &String) -> (r: bool)
    ensures
        r == str_views(seen@).contains(s@),
{
    let mut j: usize = 0;
    while j < seen.len()
        invariant
            j <= seen@.len(),
            forall|k: int| 0 <= k < j ==> str_views(seen@)[k] != s@,
        decreases seen@.len() - j,
    {
        if seen[j] == *s {
            proof {
                assert(str_views(seen@)[j as int] == s@);
            }
            return true;
        }
        proof {
            assert(str_views(seen@)[j as int] == seen@[j as int]@);
        }
        j = j + 1;
    }
    proof {
        assert(!str_views(seen@).contains(s@));
    }
    false
}

/// Scans one Downloads root: classifies its immediate children, then
/// resolves archive/folder pairs against the caller's choice.
fn scan_downloads_root(root: &RootSnapshot, choice: DownloadsChoice, scan: &mut RuleScan)
    requires
        old(scan).wf(),
    ensures
        scan_extends(
            *final(scan),
            *old(scan),
            dl_root_files(*root, choice),
            dl_root_dirs(*root, choice),
            dl_root_errs(*root, choice),
        ),
{
    match &root.state {
        RootState::Missing => {
            let mut msg = String::new();
            msg.append("Failed to read metadata for ");
            let rendered = root.path.render();
            msg.append(rendered.as_str());
            proof {
                assert(msg@ =~= dl_missing_msg(root.path@));
            }
            record_error(scan, msg);
        },
        RootState::Unreadable { message } => {
            record_error(scan, message.clone());
        },
        RootState::File { .. } => {
            proof {
                lemma_scan_extends_refl(*scan);
            }
        },
        RootState::Symlink { .. } => {
            proof {
                lemma_scan_extends_refl(*scan);
            }
        },
        RootState::Other => {
            proof {
                lemma_scan_extends_refl(*scan);
            }
        },
        RootState::Dir { entries, .. } => {
            let ghost es = entries@;
            let ghost scan0 = *scan;

            // Single level: classify children, record listing errors.
            let mut archs: Vec<(String, String, u64)> = Vec::new();
            let ghost mut edone: Seq<Seq<char>> = Seq::empty();
            proof {
                lemma_scan_extends_refl(*scan);
                assert(arch_views(archs@) =~= Seq::<(Seq<char>, Seq<char>, u64)>::empty());
                assert(arch_views(archs@) + dl_archives(es, 0) =~= dl_archives(es, 0));
                assert(edone + dl_list_errs(es, 0) =~= dl_list_errs(es, 0));
            }
            let mut j: usize = 0;
            while j < entries.len()
                invariant
                    j <= es.len(),
                    es == entries@,
                    scan.wf(),
                    scan_extends(
                        *scan,
                        scan0,
                        Seq::<(Seq<Seq<char>>, u64)>::empty(),
                        Seq::<Seq<Seq<char>>>::empty(),
                        edone,
                    ),
                    arch_views(archs@) + dl_archives(es, j as int) == dl_archives(es, 0),
                    edone + dl_list_errs(es, j as int) == dl_list_errs(es, 0),
                decreases es.len() - j,
            {
                match &entries[j] {
                    FsTree::File { name, size, .. } => {
                        match archive_base_name(name.as_str()) {
                            Some(b) => {
                                let ghost pre = archs@;
                                archs.push((b, name.clone(), *size));
                                proof {
                                    let x = (archs@.last().0@, name@, *size);
                                    assert(arch_views(archs@) =~= arch_views(pre) + seq![x]);
                                    assert(dl_archives(es, j as int) == seq![x] + dl_archives(
                                        es,
                                        j + 1,
                                    ));
                                    assert((arch_views(pre) + seq![x]) + dl_archives(es, j + 1)
                                        =~= arch_views(pre) + (seq![x] + dl_archives(es, j + 1)));
                                }
                            },
                            None => {
                                proof {
                                    assert(dl_archives(es, j as int) =~= dl_archives(es, j + 1));
                                }
                            },
                        }
                        proof {
                            assert(dl_list_errs(es, j as int) =~= dl_list_errs(es, j + 1));
                        }
                    },
                    FsTree::Unreadable { message } => {
                        let ghost m = message@;
                        let ghost pre = *scan;
                        record_error(scan, message.clone());
                        proof {
                            lemma_scan_extends_trans(
                                *scan,
                                pre,
                                scan0,
                                Seq::<(Seq<Seq<char>>, u64)>::empty(),
                                Seq::<Seq<Seq<char>>>::empty(),
                                edone,
                                Seq::<(Seq<Seq<char>>, u64)>::empty(),
                                Seq::<Seq<Seq<char>>>::empty(),
                                seq![m],
                            );
                            assert(Seq::<(Seq<Seq<char>>, u64)>::empty() + Seq::<
                                (Seq<Seq<char>>, u64),
                            >::empty() =~= Seq::<(Seq<Seq<char>>, u64)>::empty());
                            assert(Seq::<Seq<Seq<char>>>::empty() + Seq::<
                                Seq<Seq<char>>,
                            >::empty() =~= Seq::<Seq<Seq<char>>>::empty());
                            assert(dl_list_errs(es, j as int) == seq![m] + dl_list_errs(es, j + 1));
                            assert((edone + seq![m]) + dl_list_errs(es, j + 1) =~= edone + (seq![m]
                                + dl_list_errs(es, j + 1)));
                            edone = edone + seq![m];
                            assert(dl_archives(es, j as int) =~= dl_archives(es, j + 1));
                        }
                    },
                    _ => {
                        proof {
                            assert(dl_archives(es, j as int) =~= dl_archives(es, j + 1));
                            assert(dl_list_errs(es, j as int) =~= dl_list_errs(es, j + 1));
                        }
                    },
                }
                j = j + 1;
            }
            let ghost av = arch_views(archs@);
            proof {
                assert(av + Seq::<(Seq<char>, Seq<char>, u64)>::empty() =~= av);
                assert(av == dl_archives(es, 0));
                assert(edone + Seq::<Seq<char>>::empty() =~= edone);
                assert(edone == dl_list_errs(es, 0));
            }

            // Pairing: resolve each archive against a same-named directory.
            let ghost scan1 = *scan;
            let mut seen: Vec<String> = Vec::new();
            let none_excl = Excluder::none();
            let ghost mut fdone: Seq<(Seq<Seq<char>>, u64)> = Seq::empty();
            let ghost mut ddone: Seq<Seq<Seq<char>>> = Seq::empty();
            let ghost mut wdone: Seq<Seq<char>> = Seq::empty();
            proof {
                lemma_scan_extends_refl(*scan);
                assert(str_views(seen@) =~= Seq::<Seq<char>>::empty());
                assert(fdone + dl_archive_files(av, 0, es, root.path@) =~= dl_archive_files(
                    av,
                    0,
                    es,
                    root.path@,
                ));
                assert(fdone + dl_folder_files(av, 0, es, root.path@, str_views(seen@))
                    =~= dl_folder_files(av, 0, es, root.path@, Seq::empty()));
                assert(ddone + dl_folder_dirs(av, 0, es, root.path@, str_views(seen@))
                    =~= dl_folder_dirs(av, 0, es, root.path@, Seq::empty()));
                assert(wdone + dl_folder_errs(av, 0, es, root.path@, str_views(seen@))
                    =~= dl_folder_errs(av, 0, es, root.path@, Seq::empty()));
            }
            let mut i: usize = 0;
            while i < archs.len()
                invariant
                    i <= archs@.len(),
                    av == arch_views(archs@),
                    es == entries@,
                    none_excl.wf(),
                    none_excl.patterns() == Seq::<Seq<char>>::empty(),
                    scan.wf(),
                    scan_extends(*scan, scan1, fdone, ddone, wdone),
                    choice is Archives ==> fdone + dl_archive_files(av, i as int, es, root.path@)
                        == dl_archive_files(av, 0, es, root.path@),
                    choice is Archives ==> ddone == Seq::<Seq<Seq<char>>>::empty(),
                    choice is Archives ==> wdone == Seq::<Seq<char>>::empty(),
                    choice is Folders ==> fdone + dl_folder_files(
                        av,
                        i as int,
                        es,
                        root.path@,
                        str_views(seen@),
                    ) == dl_folder_files(av, 0, es, root.path@, Seq::empty()),
                    choice is Folders ==> ddone + dl_folder_dirs(
                        av,
                        i as int,
                        es,
                        root.path@,
                        str_views(seen@),
                    ) == dl_folder_dirs(av, 0, es, root.path@, Seq::empty()),
                    choice is Folders ==> wdone + dl_folder_errs(
                        av,
                        i as int,
                        es,
                        root.path@,
                        str_views(seen@),
                    ) == dl_folder_errs(av, 0, es, root.path@, Seq::empty()),
                decreases archs@.len() - i,
            {
                proof {
                    assert(av[i as int] == (archs@[i as int].0@, archs@[i as int].1@, archs@[i as int].2));
                }
                let found = find_dir_in(entries, &archs[i].0);
                match found {
                    None => {
                        proof {
                            if choice is Archives {
                                assert(dl_archive_files(av, i as int, es, root.path@)
                                    =~= dl_archive_files(av, i + 1, es, root.path@));
                            } else {
                                assert(dl_folder_files(av, i as int, es, root.path@, str_views(seen@))
                                    =~= dl_folder_files(av, i + 1, es, root.path@, str_views(seen@)));
                                assert(dl_folder_dirs(av, i as int, es, root.path@, str_views(seen@))
                                    =~= dl_folder_dirs(av, i + 1, es, root.path@, str_views(seen@)));
                                assert(dl_folder_errs(av, i as int, es, root.path@, str_views(seen@))
                                    =~= dl_folder_errs(av, i + 1, es, root.path@, str_views(seen@)));
                            }
                        }
                    },
                    Some(k) => {
                        match choice {
                            DownloadsChoice::Archives => {
                                let ghost pre = *scan;
                                let p = root.path.child(&archs[i].1);
                                scan.push_file(p, archs[i].2);
                                proof {
                                    lemma_scan_extends_trans(
                                        *scan,
                                        pre,
                                        scan1,
                                        fdone,
                                        ddone,
                                        wdone,
                                        seq![(root.path@.push(av[i as int].1), av[i as int].2)],
                                        Seq::<Seq<Seq<char>>>::empty(),
                                        Seq::<Seq<char>>::empty(),
                                    );
                                    assert(ddone + Seq::<Seq<Seq<char>>>::empty() =~= ddone);
                                    assert(wdone + Seq::<Seq<char>>::empty() =~= wdone);
                                    assert(dl_archive_files(av, i as int, es, root.path@) == seq![
                                        (root.path@.push(av[i as int].1), av[i as int].2),
                                    ] + dl_archive_files(av, i + 1, es, root.path@));
                                    assert((fdone + seq![
                                        (root.path@.push(av[i as int].1), av[i as int].2),
                                    ]) + dl_archive_files(av, i + 1, es, root.path@) =~= fdone + (
                                    seq![(root.path@.push(av[i as int].1), av[i as int].2)]
                                        + dl_archive_files(av, i + 1, es, root.path@)));
                                    fdone = fdone + seq![
                                        (root.path@.push(av[i as int].1), av[i as int].2),
                                    ];
                                }
                            },
                            DownloadsChoice::Folders => {
                                let already = seen_contains(&seen, &archs[i].0);
                                if !already {
                                    let ghost preseen = seen@;
                                    seen.push(archs[i].0.clone());
                                    proof {
                                        lemma_str_views_push(preseen, seen@.last());
                                        assert(str_views(seen@) =~= str_views(preseen).push(
                                            av[i as int].0,
                                        ));
                                    }
                                    let dirpath = root.path.child(&archs[i].0);
                                    let ghost pre = *scan;
                                    proof {
                                        lemma_find_dir_idx(es, 0, av[i as int].0);
                                    }
                                    match &entries[k] {
                                        FsTree::Dir { device, entries: sub, .. } => {
                                            let relbase = FsPath::empty();
                                            walk_entries(
                                                sub,
                                                &dirpath,
                                                &relbase,
                                                &none_excl,
                                                *device,
                                                scan,
                                            );
                                            proof {
                                                assert(paired_files(es, k as int, root.path@.push(av[i as int].0))
                                                    == list_files(sub@, 0, dirpath@, Seq::empty(), Seq::empty(), *device));
                                                assert(paired_dirs(es, k as int, root.path@.push(av[i as int].0))
                                                    == list_dirs(sub@, 0, dirpath@, Seq::empty(), Seq::empty(), *device));
                                                assert(paired_errs(es, k as int, root.path@.push(av[i as int].0))
                                                    == list_errs(sub@, 0, dirpath@, Seq::empty(), Seq::empty(), *device));
                                            }
                                        },
                                        _ => {
                                            proof {
                                                assert(false);
                                            }
                                        },
                                    }
                                    let ghost mid = *scan;
                                    scan.push_dir(dirpath);
                                    proof {
                                        let dp = root.path@.push(av[i as int].0);
                                        lemma_scan_extends_trans(
                                            *scan,
                                            mid,
                                            pre,
                                            paired_files(es, k as int, dp),
                                            paired_dirs(es, k as int, dp),
                                            paired_errs(es, k as int, dp),
                                            Seq::<(Seq<Seq<char>>, u64)>::empty(),
                                            seq![dp],
                                            Seq::<Seq<char>>::empty(),
                                        );
                                        assert(paired_files(es, k as int, dp) + Seq::<
                                            (Seq<Seq<char>>, u64),
                                        >::empty() =~= paired_files(es, k as int, dp));
                                        assert(paired_errs(es, k as int, dp) + Seq::<
                                            Seq<char>,
                                        >::empty() =~= paired_errs(es, k as int, dp));
                                        lemma_scan_extends_trans(
                                            *scan,
                                            pre,
                                            scan1,
                                            fdone,
                                            ddone,
                                            wdone,
                                            paired_files(es, k as int, dp),
                                            paired_dirs(es, k as int, dp) + seq![dp],
                                            paired_errs(es, k as int, dp),
                                        );
                                        let svold = str_views(preseen);
                                        let svnew = str_views(seen@);
                                        assert(svnew == svold.push(av[i as int].0));
                                        assert(dl_folder_files(av, i as int, es, root.path@, svold)
                                            == paired_files(es, k as int, dp) + dl_folder_files(
                                            av,
                                            i + 1,
                                            es,
                                            root.path@,
                                            svnew,
                                        ));
                                        assert(dl_folder_dirs(av, i as int, es, root.path@, svold)
                                            == (paired_dirs(es, k as int, dp) + seq![dp])
                                            + dl_folder_dirs(av, i + 1, es, root.path@, svnew));
                                        assert(dl_folder_errs(av, i as int, es, root.path@, svold)
                                            == paired_errs(es, k as int, dp) + dl_folder_errs(
                                            av,
                                            i + 1,
                                            es,
                                            root.path@,
                                            svnew,
                                        ));
                                        assert((fdone + paired_files(es, k as int, dp))
                                            + dl_folder_files(av, i + 1, es, root.path@, svnew)
                                            =~= fdone + (paired_files(es, k as int, dp)
                                            + dl_folder_files(av, i + 1, es, root.path@, svnew)));
                                        assert((ddone + (paired_dirs(es, k as int, dp) + seq![dp]))
                                            + dl_folder_dirs(av, i + 1, es, root.path@, svnew)
                                            =~= ddone + ((paired_dirs(es, k as int, dp) + seq![dp])
                                            + dl_folder_dirs(av, i + 1, es, root.path@, svnew)));
                                        assert((wdone + paired_errs(es, k as int, dp))
                                            + dl_folder_errs(av, i + 1, es, root.path@, svnew)
                                            =~= wdone + (paired_errs(es, k as int, dp)
                                            + dl_folder_errs(av, i + 1, es, root.path@, svnew)));
                                        fdone = fdone + paired_files(es, k as int, dp);
                                        ddone = ddone + (paired_dirs(es, k as int, dp) + seq![dp]);
                                        wdone = wdone + paired_errs(es, k as int, dp);
                                    }
                                } else {
                                    proof {
                                        assert(str_views(seen@).contains(av[i as int].0));
                                        assert(dl_folder_files(av, i as int, es, root.path@, str_views(seen@))
                                            =~= dl_folder_files(av, i + 1, es, root.path@, str_views(seen@)));
                                        assert(dl_folder_dirs(av, i as int, es, root.path@, str_views(seen@))
                                            =~= dl_folder_dirs(av, i + 1, es, root.path@, str_views(seen@)));
                                        assert(dl_folder_errs(av, i as int, es, root.path@, str_views(seen@))
                                            =~= dl_folder_errs(av, i + 1, es, root.path@, str_views(seen@)));
                                    }
                                }
                            },
                        }
                    },
                }
                i = i + 1;
            }
            proof {
                assert(fdone + Seq::<(Seq<Seq<char>>, u64)>::empty() =~= fdone);
                assert(ddone + Seq::<Seq<Seq<char>>>::empty() =~= ddone);
                assert(wdone + Seq::<Seq<char>>::empty() =~= wdone);
                lemma_scan_extends_trans(
                    *scan,
                    scan1,
                    scan0,
                    Seq::<(Seq<Seq<char>>, u64)>::empty(),
                    Seq::<Seq<Seq<char>>>::empty(),
                    edone,
                    fdone,
                    ddone,
                    wdone,
                );
                assert(Seq::<(Seq<Seq<char>>, u64)>::empty() + fdone =~= fdone);
                assert(Seq::<Seq<Seq<char>>>::empty() + ddone =~= ddone);
                assert(fdone =~= dl_root_files(*root, choice));
                assert(ddone =~= dl_root_dirs(*root, choice));
                assert(edone + wdone =~= dl_root_errs(*root, choice));
            }
        },
    }
}

pub open spec fn dl_roots_files(
    roots: Seq<RootSnapshot>,
    i: int,
    choice: DownloadsChoice,
) -> Seq<(Seq<Seq<char>>, u64)>
    decreases roots.len() - i,
{
    if 0 <= i < roots.len() {
        dl_root_files(roots[i], choice) + dl_roots_files(roots, i + 1, choice)
    } else {
        Seq::empty()
    }
}

pub open spec fn dl_roots_dirs(roots: Seq<RootSnapshot>, i: int, choice: DownloadsChoice) -> Seq<
    Seq<Seq<char>>,
>
    decreases roots.len() - i,
{
    if 0 <= i < roots.len() {
        dl_root_dirs(roots[i], choice) + dl_roots_dirs(roots, i + 1, choice)
    } else {
        Seq::empty()
    }
}

pub open spec fn dl_roots_errs(roots: Seq<RootSnapshot>, i: int, choice: DownloadsChoice) -> Seq<
    Seq<char>,
>
    decreases roots.len() - i,
{
    if 0 <= i < roots.len() {
        dl_root_errs(roots[i], choice) + dl_roots_errs(roots, i + 1, choice)
    } else {
        Seq::empty()
    }
}

/// What a scan of a Downloads-kind rule holds. Without a resolved choice the
/// scan is empty; with one, exactly what the pairing heuristic selects over
/// every root.
pub open spec fn downloads_scan_shape(
    scan: RuleScan,
    roots: Seq<RootSnapshot>,
    choice: Option<DownloadsChoice>,
) -> bool {
    match choice {
        None => {
            &&& scan.file_views() == Seq::<Seq<Seq<char>>>::empty()
            &&& scan.bytes == 0
            &&& scan.dir_views() == Seq::<Seq<Seq<char>>>::empty()
            &&& scan.error_views() == Seq::<Seq<char>>::empty()
        },
        Some(c) => {
            &&& scan.file_views() == file_paths(dl_roots_files(roots, 0, c))
            &&& scan.bytes == sat64(sum_sizes(dl_roots_files(roots, 0, c)))
            &&& scan.dir_views() == dl_roots_dirs(roots, 0, c)
            &&& scan.error_views() == dl_roots_errs(roots, 0, c)
        },
    }
}

/// Scans a Downloads-kind rule. Without a resolved choice the rule
/// contributes an empty scan; the caller is expected to have prompted for
/// the choice upstream.
pub fn scan_downloads_rule(
    rule: &Rule,
    choice: Option<DownloadsChoice>,
    roots: &Vec<RootSnapshot>,
) -> (r: RuleScan)
    ensures
        r.wf(),
        same_rule(r.rule, *rule),
        downloads_scan_shape(r, roots@, choice),
{
    let mut scan = RuleScan::new(rule);
    let ghost scan0 = scan;
    let c = match choice {
        None => {
            proof {
                assert(scan.bytes == 0);
            }
            return scan;
        },
        Some(c) => c,
    };
    let ghost mut fdone: Seq<(Seq<Seq<char>>, u64)> = Seq::empty();
    let ghost mut ddone: Seq<Seq<Seq<char>>> = Seq::empty();
    let ghost mut wdone: Seq<Seq<char>> = Seq::empty();
    proof {
        lemma_scan_extends_refl(scan);
    }
    let mut j: usize = 0;
    while j < roots.len()
        invariant
            j <= roots.len(),
            scan.wf(),
            scan_extends(scan, scan0, fdone, ddone, wdone),
            fdone + dl_roots_files(roots@, j as int, c) == dl_roots_files(roots@, 0, c),
            ddone + dl_roots_dirs(roots@, j as int, c) == dl_roots_dirs(roots@, 0, c),
            wdone + dl_roots_errs(roots@, j as int, c) == dl_roots_errs(roots@, 0, c),
        decreases roots@.len() - j,
    {
        let ghost pre = scan;
        scan_downloads_root(&roots[j], c, &mut scan);
        proof {
            let rf = dl_root_files(roots@[j as int], c);
            let rd = dl_root_dirs(roots@[j as int], c);
            let re = dl_root_errs(roots@[j as int], c);
            lemma_scan_extends_trans(scan, pre, scan0, fdone, ddone, wdone, rf, rd, re);
            assert(fdone + (rf + dl_roots_files(roots@, j + 1, c)) =~= (fdone + rf)
                + dl_roots_files(roots@, j + 1, c));
            assert(ddone + (rd + dl_roots_dirs(roots@, j + 1, c)) =~= (ddone + rd)
                + dl_roots_dirs(roots@, j + 1, c));
            assert(wdone + (re + dl_roots_errs(roots@, j + 1, c)) =~= (wdone + re)
                + dl_roots_errs(roots@, j + 1, c));
            fdone = fdone + rf;
            ddone = ddone + rd;
            wdone = wdone + re;
        }
        j = j + 1;
    }
    proof {
        assert(fdone + Seq::<(Seq<Seq<char>>, u64)>::empty() =~= fdone);
        assert(ddone + Seq::<Seq<Seq<char>>>::empty() =~= ddone);
        assert(wdone + Seq::<Seq<char>>::empty() =~= wdone);
        assert(scan.file_views() =~= file_paths(dl_roots_files(roots@, 0, c)));
        assert(scan.dir_views() =~= dl_roots_dirs(roots@, 0, c));
        assert(scan.error_views() =~= dl_roots_errs(roots@, 0, c));
    }
    scan
}

} // verus!
