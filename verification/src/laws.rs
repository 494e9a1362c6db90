use vstd::prelude::*;

use crate::config::Rule;
use crate::fspath::is_prefix_of;
use crate::fstree::{
    tree_name, wf_entries, wf_root, wf_roots, wf_tree, FsTree, RootSnapshot, RootState,
};
use crate::downloads::{
    dl_archives, dl_folder_dirs, dl_folder_files, dl_root_dirs, dl_root_files, dl_roots_dirs,
    dl_roots_files, downloads_scan_shape, find_dir_idx, paired_dirs, paired_files,
};
use crate::logs::{logs_scan_shape, roots_log_files};
use crate::options::DownloadsChoice;
use crate::scan::{file_paths, sum_sizes, RuleScan};
use crate::walk::{
    list_dirs, list_files, paths_scan_shape, root_dirs, root_files, roots_dirs, roots_files,
    tree_dirs, tree_files,
};

verus! {

proof fn lemma_contains_split<A>(a: Seq<A>, b: Seq<A>, x: A)
    ensures
        (a + b).contains(x) <==> a.contains(x) || b.contains(x),
{
    if (a + b).contains(x) {
        let k = choose|k: int| 0 <= k < (a + b).len() && (a + b)[k] == x;
        if k < a.len() {
            assert(a[k] == x);
        } else {
            assert(b[k - a.len()] == x);
        }
    }
    if a.contains(x) {
        let k = choose|k: int| 0 <= k < a.len() && a[k] == x;
        assert((a + b)[k] == x);
    }
    if b.contains(x) {
        let k = choose|k: int| 0 <= k < b.len() && b[k] == x;
        assert((a + b)[a.len() + k] == x);
    }
}

proof fn lemma_file_paths_split(a: Seq<(Seq<Seq<char>>, u64)>, b: Seq<(Seq<Seq<char>>, u64)>)
    ensures
        file_paths(a + b) == file_paths(a) + file_paths(b),
{
    assert(file_paths(a + b) =~= file_paths(a) + file_paths(b));
}

/// Two prefixes of one path are comparable: one is a prefix of the other.
proof fn lemma_prefix_chain(a: Seq<Seq<char>>, b: Seq<Seq<char>>, q: Seq<Seq<char>>)
    requires
        is_prefix_of(a, q),
        is_prefix_of(b, q),
    ensures
        is_prefix_of(a, b) || is_prefix_of(b, a),
{
    if a.len() <= b.len() {
        assert(forall|i: int| 0 <= i < a.len() ==> a[i] == q[i] && b[i] == q[i]);
    } else {
        assert(forall|i: int| 0 <= i < b.len() ==> a[i] == q[i] && b[i] == q[i]);
    }
}

/// Every path one subtree contributes starts with `base` followed by the
/// subtree's own entry name, and is strictly longer than `base`.
pub open spec fn shaped(q: Seq<Seq<char>>, base: Seq<Seq<char>>, t: FsTree) -> bool {
    &&& q.len() > base.len()
    &&& q.subrange(0, base.len() as int) == base
    &&& tree_name(t) == Some(q[base.len() as int])
}

proof fn lemma_tree_shape(
    t: FsTree,
    base: Seq<Seq<char>>,
    rel: Seq<Seq<char>>,
    pats: Seq<Seq<char>>,
    dev: u64,
)
    ensures
        forall|q: Seq<Seq<char>>|
            file_paths(tree_files(t, base, rel, pats, dev)).contains(q) ==> #[trigger] shaped(
                q,
                base,
                t,
            ),
        forall|q: Seq<Seq<char>>|
            tree_dirs(t, base, rel, pats, dev).contains(q) ==> #[trigger] shaped(q, base, t),
    decreases t, 0nat,
{
    match t {
        FsTree::File { name, size, .. } => {
            assert forall|q: Seq<Seq<char>>|
                file_paths(tree_files(t, base, rel, pats, dev)).contains(q) implies #[trigger] shaped(
                q,
                base,
                t,
            ) by {
                assert(q == base.push(name@));
                assert(q.subrange(0, base.len() as int) =~= base);
            }
        },
        FsTree::Dir { name, device, entries } => {
            let b2 = base.push(name@);
            let r2 = rel.push(name@);
            lemma_list_shape(entries@, 0, b2, r2, pats, dev);
            assert forall|q: Seq<Seq<char>>|
                file_paths(tree_files(t, base, rel, pats, dev)).contains(q) implies #[trigger] shaped(
                q,
                base,
                t,
            ) by {
                if !crate::globs::excluded(pats, r2) && device == dev {
                    assert(file_paths(list_files(entries@, 0, b2, r2, pats, dev)).contains(q));
                    assert(q.len() > b2.len() && q.subrange(0, b2.len() as int) == b2);
                    assert(q.subrange(0, base.len() as int) =~= b2.subrange(0, base.len() as int));
                    assert(b2.subrange(0, base.len() as int) =~= base);
                    assert(q[base.len() as int] == b2[base.len() as int]);
                } else {
                    assert(file_paths(Seq::<(Seq<Seq<char>>, u64)>::empty()) =~= Seq::<
                        Seq<Seq<char>>,
                    >::empty());
                    assert(false);
                }
            }
            assert forall|q: Seq<Seq<char>>|
                tree_dirs(t, base, rel, pats, dev).contains(q) implies #[trigger] shaped(
                q,
                base,
                t,
            ) by {
                if !excluded_dir(t, rel, pats) {
                    let own = seq![b2];
                    if q == b2 {
                        assert(q.subrange(0, base.len() as int) =~= base);
                    } else {
                        if device == dev {
                            lemma_contains_split(
                                own,
                                list_dirs(entries@, 0, b2, r2, pats, dev),
                                q,
                            );
                            assert(list_dirs(entries@, 0, b2, r2, pats, dev).contains(q));
                            assert(q.len() > b2.len() && q.subrange(0, b2.len() as int) == b2);
                            assert(q.subrange(0, base.len() as int) =~= b2.subrange(
                                0,
                                base.len() as int,
                            ));
                            assert(b2.subrange(0, base.len() as int) =~= base);
                            assert(q[base.len() as int] == b2[base.len() as int]);
                        } else {
                            assert(q == b2);
                        }
                    }
                }
            }
        },
        _ => {},
    }
}

/// Whether a directory entry is pruned by exclusion (a helper to keep the
/// shape proof readable).
pub open spec fn excluded_dir(t: FsTree, rel: Seq<Seq<char>>, pats: Seq<Seq<char>>) -> bool {
    match t {
        FsTree::Dir { name, .. } => crate::globs::excluded(pats, rel.push(name@)),
        _ => false,
    }
}

/// The conclusion of the listing shape lemma: the path extends `base` by
/// the name of one of the entries from `i` on.
pub open spec fn listed_shape(
    es: Seq<FsTree>,
    i: int,
    base: Seq<Seq<char>>,
    q: Seq<Seq<char>>,
) -> bool {
    &&& q.len() > base.len()
    &&& q.subrange(0, base.len() as int) == base
    &&& exists|e: int|
        i <= e < es.len() && tree_name(#[trigger] es[e]) == Some(q[base.len() as int])
}

/// Every path a listing contributes extends `base` by the name of one of
/// its entries.
proof fn lemma_list_shape(
    es: Seq<FsTree>,
    i: int,
    base: Seq<Seq<char>>,
    rel: Seq<Seq<char>>,
    pats: Seq<Seq<char>>,
    dev: u64,
)
    ensures
        forall|q: Seq<Seq<char>>|
            #![trigger file_paths(list_files(es, i, base, rel, pats, dev)).contains(q)]
            file_paths(list_files(es, i, base, rel, pats, dev)).contains(q) ==> listed_shape(
                es,
                i,
                base,
                q,
            ),
        forall|q: Seq<Seq<char>>|
            #![trigger list_dirs(es, i, base, rel, pats, dev).contains(q)]
            list_dirs(es, i, base, rel, pats, dev).contains(q) ==> listed_shape(es, i, base, q),
    decreases es, es.len() - i, 1nat,
{
    if !(0 <= i < es.len()) {
        assert(file_paths(list_files(es, i, base, rel, pats, dev)) =~= Seq::<
            Seq<Seq<char>>,
        >::empty());
        assert(list_dirs(es, i, base, rel, pats, dev) =~= Seq::<Seq<Seq<char>>>::empty());
        assert(forall|q: Seq<Seq<char>>|
            !#[trigger] file_paths(list_files(es, i, base, rel, pats, dev)).contains(q));
        assert(forall|q: Seq<Seq<char>>|
            !#[trigger] list_dirs(es, i, base, rel, pats, dev).contains(q));
    } else {
        lemma_tree_shape(es[i], base, rel, pats, dev);
        lemma_list_shape(es, i + 1, base, rel, pats, dev);
        lemma_file_paths_split(
            tree_files(es[i], base, rel, pats, dev),
            list_files(es, i + 1, base, rel, pats, dev),
        );
        assert(list_files(es, i, base, rel, pats, dev) == tree_files(es[i], base, rel, pats, dev)
            + list_files(es, i + 1, base, rel, pats, dev));
        assert(list_dirs(es, i, base, rel, pats, dev) == tree_dirs(es[i], base, rel, pats, dev)
            + list_dirs(es, i + 1, base, rel, pats, dev));
        assert forall|q: Seq<Seq<char>>|
            file_paths(list_files(es, i, base, rel, pats, dev)).contains(q) implies listed_shape(
            es,
            i,
            base,
            q,
        ) by {
            lemma_contains_split(
                file_paths(tree_files(es[i], base, rel, pats, dev)),
                file_paths(list_files(es, i + 1, base, rel, pats, dev)),
                q,
            );
            if file_paths(tree_files(es[i], base, rel, pats, dev)).contains(q) {
                assert(shaped(q, base, es[i]));
                assert(i <= i < es.len() && tree_name(es[i]) == Some(q[base.len() as int]));
            } else {
                assert(file_paths(list_files(es, i + 1, base, rel, pats, dev)).contains(q));
                assert(listed_shape(es, i + 1, base, q));
                let e = choose|e: int|
                    i + 1 <= e < es.len() && tree_name(#[trigger] es[e]) == Some(
                        q[base.len() as int],
                    );
                assert(i <= e < es.len() && tree_name(es[e]) == Some(q[base.len() as int]));
            }
        }
        assert forall|q: Seq<Seq<char>>|
            list_dirs(es, i, base, rel, pats, dev).contains(q) implies listed_shape(
            es,
            i,
            base,
            q,
        ) by {
            lemma_contains_split(
                tree_dirs(es[i], base, rel, pats, dev),
                list_dirs(es, i + 1, base, rel, pats, dev),
                q,
            );
            if tree_dirs(es[i], base, rel, pats, dev).contains(q) {
                assert(shaped(q, base, es[i]));
                assert(i <= i < es.len() && tree_name(es[i]) == Some(q[base.len() as int]));
            } else {
                assert(list_dirs(es, i + 1, base, rel, pats, dev).contains(q));
                assert(listed_shape(es, i + 1, base, q));
                let e = choose|e: int|
                    i + 1 <= e < es.len() && tree_name(#[trigger] es[e]) == Some(
                        q[base.len() as int],
                    );
                assert(i <= e < es.len() && tree_name(es[e]) == Some(q[base.len() as int]));
            }
        }
    }
}

/// Within one well-formed subtree, no path is both a recorded file and a
/// recorded directory.
proof fn lemma_tree_disjoint(
    t: FsTree,
    base: Seq<Seq<char>>,
    rel: Seq<Seq<char>>,
    pats: Seq<Seq<char>>,
    dev: u64,
)
    requires
        wf_tree(t),
    ensures
        forall|q: Seq<Seq<char>>|
            #[trigger] file_paths(tree_files(t, base, rel, pats, dev)).contains(q)
                ==> !tree_dirs(t, base, rel, pats, dev).contains(q),
    decreases t, 0nat,
{
    match t {
        FsTree::Dir { name, device, entries } => {
            let b2 = base.push(name@);
            let r2 = rel.push(name@);
            lemma_list_shape(entries@, 0, b2, r2, pats, dev);
            lemma_list_disjoint(entries@, 0, b2, r2, pats, dev);
            assert forall|q: Seq<Seq<char>>|
                #[trigger] file_paths(tree_files(t, base, rel, pats, dev)).contains(
                    q,
                ) implies !tree_dirs(t, base, rel, pats, dev).contains(q) by {
                assert(!excluded_dir(t, rel, pats) && device == dev);
                assert(file_paths(list_files(entries@, 0, b2, r2, pats, dev)).contains(q));
                assert(q.len() > b2.len());
                if tree_dirs(t, base, rel, pats, dev).contains(q) {
                    lemma_contains_split(seq![b2], list_dirs(entries@, 0, b2, r2, pats, dev), q);
                    if q == b2 {
                        assert(false);
                    } else {
                        assert(list_dirs(entries@, 0, b2, r2, pats, dev).contains(q));
                        assert(false);
                    }
                }
            }
        },
        _ => {},
    }
}

/// Within one well-formed listing, no path is both a recorded file and a
/// recorded directory: sibling names are distinct, so paths from different
/// entries diverge, and within one entry the subtree gives it.
proof fn lemma_list_disjoint(
    es: Seq<FsTree>,
    i: int,
    base: Seq<Seq<char>>,
    rel: Seq<Seq<char>>,
    pats: Seq<Seq<char>>,
    dev: u64,
)
    requires
        wf_entries(es),
        0 <= i,
    ensures
        forall|q: Seq<Seq<char>>|
            #[trigger] file_paths(list_files(es, i, base, rel, pats, dev)).contains(q)
                ==> !list_dirs(es, i, base, rel, pats, dev).contains(q),
    decreases es, es.len() - i, 1nat,
{
    if i >= es.len() {
        assert(file_paths(list_files(es, i, base, rel, pats, dev)) =~= Seq::<
            Seq<Seq<char>>,
        >::empty());
    } else {
        assert(wf_tree(es[i]));
        lemma_tree_shape(es[i], base, rel, pats, dev);
        lemma_tree_disjoint(es[i], base, rel, pats, dev);
        lemma_list_shape(es, i + 1, base, rel, pats, dev);
        lemma_list_disjoint(es, i + 1, base, rel, pats, dev);
        assert forall|q: Seq<Seq<char>>|
            #[trigger] file_paths(list_files(es, i, base, rel, pats, dev)).contains(
                q,
            ) implies !list_dirs(es, i, base, rel, pats, dev).contains(q) by {
            lemma_file_paths_split(
                tree_files(es[i], base, rel, pats, dev),
                list_files(es, i + 1, base, rel, pats, dev),
            );
            lemma_contains_split(
                file_paths(tree_files(es[i], base, rel, pats, dev)),
                file_paths(list_files(es, i + 1, base, rel, pats, dev)),
                q,
            );
            if list_dirs(es, i, base, rel, pats, dev).contains(q) {
                lemma_contains_split(
                    tree_dirs(es[i], base, rel, pats, dev),
                    list_dirs(es, i + 1, base, rel, pats, dev),
                    q,
                );
                if file_paths(tree_files(es[i], base, rel, pats, dev)).contains(q) {
                    assert(shaped(q, base, es[i]));
                    if tree_dirs(es[i], base, rel, pats, dev).contains(q) {
                        assert(false);
                    } else {
                        // a later sibling would need the same name
                        assert(list_dirs(es, i + 1, base, rel, pats, dev).contains(q));
                        let e = choose|e: int|
                            i + 1 <= e < es.len() && tree_name(#[trigger] es[e]) == Some(
                                q[base.len() as int],
                            );
                        assert(tree_name(es[i]) == tree_name(es[e]));
                        assert(false);
                    }
                } else {
                    assert(file_paths(list_files(es, i + 1, base, rel, pats, dev)).contains(q));
                    if tree_dirs(es[i], base, rel, pats, dev).contains(q) {
                        assert(shaped(q, base, es[i]));
                        let e = choose|e: int|
                            i + 1 <= e < es.len() && tree_name(#[trigger] es[e]) == Some(
                                q[base.len() as int],
                            );
                        assert(tree_name(es[i]) == tree_name(es[e]));
                        assert(false);
                    } else {
                        assert(list_dirs(es, i + 1, base, rel, pats, dev).contains(q));
                        assert(false);
                    }
                }
            }
        }
    }
}


/// No configured root lies at or under another: what a sensible rule
/// configuration guarantees, and what keeps separate root walks from
/// classifying one path two ways.
pub open spec fn no_nested_roots(roots: Seq<RootSnapshot>) -> bool {
    forall|i: int, j: int|
        0 <= i < roots.len() && 0 <= j < roots.len() && i != j ==> !is_prefix_of(
            (#[trigger] roots[i]).path@,
            (#[trigger] roots[j]).path@,
        )
}

/// Every recorded file lies at or under the path of one of the roots from
/// `i` on — strictly under it when that root is a directory.
pub open spec fn roots_file_shape(roots: Seq<RootSnapshot>, i: int, q: Seq<Seq<char>>) -> bool {
    exists|e: int|
        i <= e < roots.len() && is_prefix_of((#[trigger] roots[e]).path@, q) && (
        roots[e].state is Dir ==> q.len() > roots[e].path@.len())
}

/// Every recorded directory lies strictly under the path of one of the
/// roots from `i` on.
pub open spec fn roots_dir_shape(roots: Seq<RootSnapshot>, i: int, q: Seq<Seq<char>>) -> bool {
    exists|e: int|
        i <= e < roots.len() && is_prefix_of((#[trigger] roots[e]).path@, q) && q.len()
            > roots[e].path@.len()
}

proof fn lemma_root_shape(r: RootSnapshot, pats: Seq<Seq<char>>)
    ensures
        forall|q: Seq<Seq<char>>|
            #[trigger] file_paths(root_files(r, pats)).contains(q) ==> is_prefix_of(r.path@, q) && (
            r.state is Dir ==> q.len() > r.path@.len()),
        forall|q: Seq<Seq<char>>|
            #[trigger] root_dirs(r, pats).contains(q) ==> is_prefix_of(r.path@, q) && q.len()
                > r.path@.len(),
{
    match r.state {
        RootState::Dir { device, entries } => {
            lemma_list_shape(entries@, 0, r.path@, Seq::empty(), pats, device);
            assert forall|q: Seq<Seq<char>>|
                #[trigger] file_paths(root_files(r, pats)).contains(q) implies is_prefix_of(
                r.path@,
                q,
            ) && (r.state is Dir ==> q.len() > r.path@.len()) by {
                assert(file_paths(list_files(entries@, 0, r.path@, Seq::empty(), pats, device))
                    .contains(q));
                assert(listed_shape(entries@, 0, r.path@, q));
                assert(forall|k: int|
                    0 <= k < r.path@.len() ==> q.subrange(0, r.path@.len() as int)[k] == q[k]);
            }
            assert forall|q: Seq<Seq<char>>|
                #[trigger] root_dirs(r, pats).contains(q) implies is_prefix_of(r.path@, q)
                && q.len() > r.path@.len() by {
                assert(list_dirs(entries@, 0, r.path@, Seq::empty(), pats, device).contains(q));
                assert(listed_shape(entries@, 0, r.path@, q));
                assert(forall|k: int|
                    0 <= k < r.path@.len() ==> q.subrange(0, r.path@.len() as int)[k] == q[k]);
            }
        },
        RootState::File { .. } => {
            assert forall|q: Seq<Seq<char>>|
                #[trigger] file_paths(root_files(r, pats)).contains(q) implies is_prefix_of(
                r.path@,
                q,
            ) && (r.state is Dir ==> q.len() > r.path@.len()) by {
                assert(q == r.path@);
            }
        },
        RootState::Symlink { .. } => {
            assert forall|q: Seq<Seq<char>>|
                #[trigger] file_paths(root_files(r, pats)).contains(q) implies is_prefix_of(
                r.path@,
                q,
            ) && (r.state is Dir ==> q.len() > r.path@.len()) by {
                assert(q == r.path@);
            }
        },
        _ => {},
    }
}

proof fn lemma_root_disjoint(r: RootSnapshot, pats: Seq<Seq<char>>)
    requires
        wf_root(r),
    ensures
        forall|q: Seq<Seq<char>>|
            #[trigger] file_paths(root_files(r, pats)).contains(q) ==> !root_dirs(r, pats).contains(
                q,
            ),
{
    match r.state {
        RootState::Dir { device, entries } => {
            lemma_list_disjoint(entries@, 0, r.path@, Seq::empty(), pats, device);
        },
        _ => {},
    }
}

proof fn lemma_roots_shape(roots: Seq<RootSnapshot>, i: int, pats: Seq<Seq<char>>)
    requires
        0 <= i,
    ensures
        forall|q: Seq<Seq<char>>|
            #[trigger] file_paths(roots_files(roots, i, pats)).contains(q) ==> roots_file_shape(
                roots,
                i,
                q,
            ),
        forall|q: Seq<Seq<char>>|
            #[trigger] roots_dirs(roots, i, pats).contains(q) ==> roots_dir_shape(roots, i, q),
    decreases roots.len() - i,
{
    if i >= roots.len() {
        assert(file_paths(roots_files(roots, i, pats)) =~= Seq::<Seq<Seq<char>>>::empty());
    } else {
        lemma_root_shape(roots[i], pats);
        lemma_roots_shape(roots, i + 1, pats);
        lemma_file_paths_split(root_files(roots[i], pats), roots_files(roots, i + 1, pats));
        assert forall|q: Seq<Seq<char>>|
            #[trigger] file_paths(roots_files(roots, i, pats)).contains(q) implies roots_file_shape(
            roots,
            i,
            q,
        ) by {
            lemma_contains_split(
                file_paths(root_files(roots[i], pats)),
                file_paths(roots_files(roots, i + 1, pats)),
                q,
            );
            if file_paths(root_files(roots[i], pats)).contains(q) {
                assert(i <= i < roots.len() && is_prefix_of(roots[i].path@, q) && (
                roots[i].state is Dir ==> q.len() > roots[i].path@.len()));
            } else {
                assert(roots_file_shape(roots, i + 1, q));
                let e = choose|e: int|
                    i + 1 <= e < roots.len() && is_prefix_of((#[trigger] roots[e]).path@, q) && (
                    roots[e].state is Dir ==> q.len() > roots[e].path@.len());
                assert(i <= e < roots.len() && is_prefix_of(roots[e].path@, q) && (
                roots[e].state is Dir ==> q.len() > roots[e].path@.len()));
            }
        }
        assert forall|q: Seq<Seq<char>>|
            #[trigger] roots_dirs(roots, i, pats).contains(q) implies roots_dir_shape(
            roots,
            i,
            q,
        ) by {
            lemma_contains_split(root_dirs(roots[i], pats), roots_dirs(roots, i + 1, pats), q);
            if root_dirs(roots[i], pats).contains(q) {
                assert(i <= i < roots.len() && is_prefix_of(roots[i].path@, q) && q.len()
                    > roots[i].path@.len());
            } else {
                assert(roots_dir_shape(roots, i + 1, q));
                let e = choose|e: int|
                    i + 1 <= e < roots.len() && is_prefix_of((#[trigger] roots[e]).path@, q)
                        && q.len() > roots[e].path@.len();
                assert(i <= e < roots.len() && is_prefix_of(roots[e].path@, q) && q.len()
                    > roots[e].path@.len());
            }
        }
    }
}

proof fn lemma_roots_disjoint(roots: Seq<RootSnapshot>, i: int, pats: Seq<Seq<char>>)
    requires
        0 <= i,
        wf_roots(roots),
        no_nested_roots(roots),
    ensures
        forall|q: Seq<Seq<char>>|
            #[trigger] file_paths(roots_files(roots, i, pats)).contains(q) ==> !roots_dirs(
                roots,
                i,
                pats,
            ).contains(q),
    decreases roots.len() - i,
{
    if i >= roots.len() {
        assert(file_paths(roots_files(roots, i, pats)) =~= Seq::<Seq<Seq<char>>>::empty());
    } else {
        assert(wf_root(roots[i]));
        lemma_root_shape(roots[i], pats);
        lemma_root_disjoint(roots[i], pats);
        lemma_roots_shape(roots, i + 1, pats);
        lemma_roots_disjoint(roots, i + 1, pats);
        lemma_file_paths_split(root_files(roots[i], pats), roots_files(roots, i + 1, pats));
        assert forall|q: Seq<Seq<char>>|
            #[trigger] file_paths(roots_files(roots, i, pats)).contains(q) implies !roots_dirs(
            roots,
            i,
            pats,
        ).contains(q) by {
            lemma_contains_split(
                file_paths(root_files(roots[i], pats)),
                file_paths(roots_files(roots, i + 1, pats)),
                q,
            );
            if roots_dirs(roots, i, pats).contains(q) {
                lemma_contains_split(root_dirs(roots[i], pats), roots_dirs(roots, i + 1, pats), q);
                if file_paths(root_files(roots[i], pats)).contains(q) {
                    if root_dirs(roots[i], pats).contains(q) {
                        assert(false);
                    } else {
                        assert(roots_dirs(roots, i + 1, pats).contains(q));
                        assert(roots_dir_shape(roots, i + 1, q));
                        let e = choose|e: int|
                            i + 1 <= e < roots.len() && is_prefix_of((#[trigger] roots[e]).path@, q)
                                && q.len() > roots[e].path@.len();
                        lemma_prefix_chain(roots[i].path@, roots[e].path@, q);
                        assert(false);
                    }
                } else {
                    assert(file_paths(roots_files(roots, i + 1, pats)).contains(q));
                    if root_dirs(roots[i], pats).contains(q) {
                        assert(roots_file_shape(roots, i + 1, q));
                        let e = choose|e: int|
                            i + 1 <= e < roots.len() && is_prefix_of((#[trigger] roots[e]).path@, q)
                                && (roots[e].state is Dir ==> q.len() > roots[e].path@.len());
                        lemma_prefix_chain(roots[i].path@, roots[e].path@, q);
                        assert(false);
                    } else {
                        assert(false);
                    }
                }
            }
        }
    }
}

/// A scan never holds a path as both a file and a directory, and no root's
/// own path is ever recorded: not among the directories at all, and among
/// the files only when the root itself resolved to a single file or
/// symlink. Holds of every Paths-kind scan over a well-formed snapshot
/// whose roots do not nest.
pub proof fn law_files_dirs_disjoint(
    scan: RuleScan,
    rule: Rule,
    roots: Seq<RootSnapshot>,
    pats: Seq<Seq<char>>,
    gerrs: Seq<Seq<char>>,
)
    requires
        paths_scan_shape(scan, rule, roots, pats, gerrs),
        wf_roots(roots),
        no_nested_roots(roots),
    ensures
        forall|q: Seq<Seq<char>>|
            #[trigger] scan.file_views().contains(q) ==> !scan.dir_views().contains(q),
        forall|k: int|
            0 <= k < roots.len() ==> !scan.dir_views().contains((#[trigger] roots[k]).path@),
        forall|k: int|
            0 <= k < roots.len() && (#[trigger] roots[k]).state is Dir ==> !scan.file_views()
                .contains(roots[k].path@),
{
    lemma_roots_disjoint(roots, 0, pats);
    lemma_roots_shape(roots, 0, pats);
    assert forall|k: int|
        0 <= k < roots.len() implies !scan.dir_views().contains((#[trigger] roots[k]).path@) by {
        if scan.dir_views().contains(roots[k].path@) {
            assert(roots_dir_shape(roots, 0, roots[k].path@));
            let e = choose|e: int|
                0 <= e < roots.len() && is_prefix_of((#[trigger] roots[e]).path@, roots[k].path@)
                    && roots[k].path@.len() > roots[e].path@.len();
            assert(e != k);
            assert(false);
        }
    }
    assert forall|k: int|
        0 <= k < roots.len() && (#[trigger] roots[k]).state is Dir implies !scan.file_views()
        .contains(roots[k].path@) by {
        if scan.file_views().contains(roots[k].path@) {
            assert(roots_file_shape(roots, 0, roots[k].path@));
            let e = choose|e: int|
                0 <= e < roots.len() && is_prefix_of((#[trigger] roots[e]).path@, roots[k].path@)
                    && (roots[e].state is Dir ==> roots[k].path@.len() > roots[e].path@.len());
            if e == k {
                assert(false);
            } else {
                assert(false);
            }
        }
    }
}

/// A scan's byte total is exactly the sum of the sizes of the files it
/// lists — directories contribute nothing — whenever that sum fits in the
/// counter; beyond that the total pegs at the maximum.
pub proof fn law_bytes_sum_paths(
    scan: RuleScan,
    rule: Rule,
    roots: Seq<RootSnapshot>,
    pats: Seq<Seq<char>>,
    gerrs: Seq<Seq<char>>,
)
    requires
        paths_scan_shape(scan, rule, roots, pats, gerrs),
        sum_sizes(roots_files(roots, 0, pats)) <= u64::MAX,
    ensures
        scan.bytes == sum_sizes(roots_files(roots, 0, pats)),
        scan.file_views() == file_paths(roots_files(roots, 0, pats)),
{
    crate::scan::lemma_sum_sizes_nonneg(roots_files(roots, 0, pats));
}

/// The Logs-kind form of the byte-sum law; a Logs-kind scan also never
/// records a directory.
pub proof fn law_bytes_sum_logs(
    scan: RuleScan,
    rule: Rule,
    roots: Seq<RootSnapshot>,
    now_secs: u64,
    pats: Seq<Seq<char>>,
    gerrs: Seq<Seq<char>>,
)
    requires
        logs_scan_shape(scan, rule, roots, now_secs, pats, gerrs),
        sum_sizes(
            roots_log_files(roots, 0, pats, crate::logs::rule_cutoff(rule, now_secs)),
        ) <= u64::MAX,
    ensures
        scan.bytes == sum_sizes(
            roots_log_files(roots, 0, pats, crate::logs::rule_cutoff(rule, now_secs)),
        ),
        scan.dir_views() == Seq::<Seq<Seq<char>>>::empty(),
{
    crate::scan::lemma_sum_sizes_nonneg(
        roots_log_files(roots, 0, pats, crate::logs::rule_cutoff(rule, now_secs)),
    );
}

/// The Logs form of the disjointness law: a Logs-kind scan records no
/// directory at all, so no path is ever both a file and a directory there.
pub proof fn law_files_dirs_disjoint_logs(
    scan: RuleScan,
    rule: Rule,
    roots: Seq<RootSnapshot>,
    now_secs: u64,
    pats: Seq<Seq<char>>,
    gerrs: Seq<Seq<char>>,
)
    requires
        logs_scan_shape(scan, rule, roots, now_secs, pats, gerrs),
    ensures
        scan.dir_views() == Seq::<Seq<Seq<char>>>::empty(),
        forall|q: Seq<Seq<char>>|
            #[trigger] scan.file_views().contains(q) ==> !scan.dir_views().contains(q),
{
}

/// The Archives choice never records a directory.
pub proof fn law_archives_choice_no_dirs(scan: RuleScan, roots: Seq<RootSnapshot>)
    requires
        downloads_scan_shape(scan, roots, Some(DownloadsChoice::Archives)),
    ensures
        scan.dir_views() == Seq::<Seq<Seq<char>>>::empty(),
{
    lemma_dl_roots_dirs_archives(roots, 0);
}

proof fn lemma_dl_roots_dirs_archives(roots: Seq<RootSnapshot>, i: int)
    requires
        0 <= i,
    ensures
        dl_roots_dirs(roots, i, DownloadsChoice::Archives) == Seq::<Seq<Seq<char>>>::empty(),
    decreases roots.len() - i,
{
    if i < roots.len() {
        lemma_dl_roots_dirs_archives(roots, i + 1);
        assert(dl_roots_dirs(roots, i, DownloadsChoice::Archives) =~= Seq::<
            Seq<Seq<char>>,
        >::empty());
    }
}

/// Everything the Folders choice lists as a file lies at least two levels
/// below the Downloads root: inside a paired directory. In particular no
/// immediate child of the root — no bare archive path of a resolved pair —
/// is ever listed as a file.
proof fn lemma_folder_files_deep(
    archs: Seq<(Seq<char>, Seq<char>, u64)>,
    i: int,
    es: Seq<FsTree>,
    rootpath: Seq<Seq<char>>,
    seen: Seq<Seq<char>>,
)
    requires
        0 <= i,
    ensures
        forall|q: Seq<Seq<char>>|
            #[trigger] file_paths(dl_folder_files(archs, i, es, rootpath, seen)).contains(q)
                ==> q.len() >= rootpath.len() + 2 && is_prefix_of(rootpath, q),
    decreases archs.len() - i,
{
    if i >= archs.len() {
        assert(file_paths(dl_folder_files(archs, i, es, rootpath, seen)) =~= Seq::<
            Seq<Seq<char>>,
        >::empty());
    } else {
        let base = archs[i].0;
        let k = crate::downloads::find_dir_idx(es, 0, base);
        if k >= 0 && !seen.contains(base) {
            lemma_folder_files_deep(archs, i + 1, es, rootpath, seen.push(base));
            assert(dl_folder_files(archs, i, es, rootpath, seen) == crate::downloads::paired_files(
                es,
                k,
                rootpath.push(base),
            ) + dl_folder_files(archs, i + 1, es, rootpath, seen.push(base)));
            lemma_file_paths_split(
                crate::downloads::paired_files(es, k, rootpath.push(base)),
                dl_folder_files(archs, i + 1, es, rootpath, seen.push(base)),
            );
            assert forall|q: Seq<Seq<char>>|
                #[trigger] file_paths(dl_folder_files(archs, i, es, rootpath, seen)).contains(
                q,
            ) implies q.len() >= rootpath.len() + 2 && is_prefix_of(rootpath, q) by {
                lemma_contains_split(
                    file_paths(crate::downloads::paired_files(es, k, rootpath.push(base))),
                    file_paths(dl_folder_files(archs, i + 1, es, rootpath, seen.push(base))),
                    q,
                );
                if file_paths(crate::downloads::paired_files(es, k, rootpath.push(base))).contains(
                    q,
                ) {
                    match es[k] {
                        FsTree::Dir { device, entries, .. } => {
                            lemma_list_shape(
                                entries@,
                                0,
                                rootpath.push(base),
                                Seq::empty(),
                                Seq::empty(),
                                device,
                            );
                            assert(listed_shape(entries@, 0, rootpath.push(base), q));
                            assert(forall|m: int|
                                0 <= m < rootpath.len() + 1 ==> q.subrange(
                                    0,
                                    rootpath.len() + 1 as int,
                                )[m] == q[m]);
                        },
                        _ => {
                            assert(file_paths(Seq::<(Seq<Seq<char>>, u64)>::empty()) =~= Seq::<
                                Seq<Seq<char>>,
                            >::empty());
                            assert(false);
                        },
                    }
                }
            }
        } else {
            lemma_folder_files_deep(archs, i + 1, es, rootpath, seen);
            assert(dl_folder_files(archs, i, es, rootpath, seen) == dl_folder_files(
                archs,
                i + 1,
                es,
                rootpath,
                seen,
            ));
        }
    }
}

/// The Folders choice never lists any immediate child of a Downloads root —
/// in particular never the bare archive path of a pair it resolved — though
/// it does include the paired directory and the full walk of its contents.
pub proof fn law_folders_choice_no_archive_paths(
    scan: RuleScan,
    roots: Seq<RootSnapshot>,
    k: int,
    q: Seq<Seq<char>>,
)
    requires
        downloads_scan_shape(scan, roots, Some(DownloadsChoice::Folders)),
        no_nested_roots(roots),
        0 <= k < roots.len(),
        q.len() == roots[k].path@.len() + 1,
        is_prefix_of(roots[k].path@, q),
    ensures
        !scan.file_views().contains(q),
{
    lemma_dl_roots_files_deep(roots, 0, q);
    if scan.file_views().contains(q) {
        let e = choose|e: int|
            0 <= e < roots.len() && is_prefix_of((#[trigger] roots[e]).path@, q) && q.len()
                >= roots[e].path@.len() + 2;
        lemma_prefix_chain(roots[k].path@, roots[e].path@, q);
        assert(false);
    }
}

proof fn lemma_dl_roots_files_deep(roots: Seq<RootSnapshot>, i: int, q: Seq<Seq<char>>)
    requires
        0 <= i,
    ensures
        file_paths(dl_roots_files(roots, i, DownloadsChoice::Folders)).contains(q) ==> exists|
            e: int,
        |
            i <= e < roots.len() && is_prefix_of((#[trigger] roots[e]).path@, q) && q.len()
                >= roots[e].path@.len() + 2,
    decreases roots.len() - i,
{
    if i >= roots.len() {
        assert(file_paths(dl_roots_files(roots, i, DownloadsChoice::Folders)) =~= Seq::<
            Seq<Seq<char>>,
        >::empty());
    } else {
        lemma_dl_roots_files_deep(roots, i + 1, q);
        lemma_file_paths_split(
            crate::downloads::dl_root_files(roots[i], DownloadsChoice::Folders),
            dl_roots_files(roots, i + 1, DownloadsChoice::Folders),
        );
        if file_paths(dl_roots_files(roots, i, DownloadsChoice::Folders)).contains(q) {
            lemma_contains_split(
                file_paths(crate::downloads::dl_root_files(roots[i], DownloadsChoice::Folders)),
                file_paths(dl_roots_files(roots, i + 1, DownloadsChoice::Folders)),
                q,
            );
            if file_paths(crate::downloads::dl_root_files(roots[i], DownloadsChoice::Folders))
                .contains(q) {
                match roots[i].state {
                    RootState::Dir { entries, .. } => {
                        lemma_folder_files_deep(
                            crate::downloads::dl_archives(entries@, 0),
                            0,
                            entries@,
                            roots[i].path@,
                            Seq::empty(),
                        );
                        assert(i <= i < roots.len() && is_prefix_of(roots[i].path@, q) && q.len()
                            >= roots[i].path@.len() + 2);
                    },
                    _ => {
                        assert(file_paths(Seq::<(Seq<Seq<char>>, u64)>::empty()) =~= Seq::<
                            Seq<Seq<char>>,
                        >::empty());
                        assert(false);
                    },
                }
            }
        }
    }
}


/// The Downloads-kind form of the byte-sum law.
pub proof fn law_bytes_sum_downloads(
    scan: RuleScan,
    roots: Seq<RootSnapshot>,
    choice: DownloadsChoice,
)
    requires
        downloads_scan_shape(scan, roots, Some(choice)),
        sum_sizes(dl_roots_files(roots, 0, choice)) <= u64::MAX,
    ensures
        scan.bytes == sum_sizes(dl_roots_files(roots, 0, choice)),
        scan.file_views() == file_paths(dl_roots_files(roots, 0, choice)),
{
    crate::scan::lemma_sum_sizes_nonneg(dl_roots_files(roots, 0, choice));
}

/// Every archive with a matching directory leaves that directory in the
/// Folders result, unless its base name was already walked — in which case
/// an earlier archive of the same base already left it there.
proof fn lemma_folder_dirs_cover(
    archs: Seq<(Seq<char>, Seq<char>, u64)>,
    i: int,
    es: Seq<FsTree>,
    rootpath: Seq<Seq<char>>,
    seen: Seq<Seq<char>>,
)
    requires
        0 <= i,
    ensures
        forall|j: int|
            i <= j < archs.len() && find_dir_idx(es, 0, (#[trigger] archs[j]).0) >= 0
                ==> seen.contains(archs[j].0) || dl_folder_dirs(archs, i, es, rootpath, seen)
                .contains(rootpath.push(archs[j].0)),
    decreases archs.len() - i,
{
    if i < archs.len() {
        let base = archs[i].0;
        let k = find_dir_idx(es, 0, base);
        if k >= 0 && !seen.contains(base) {
            let dp = rootpath.push(base);
            let own = crate::downloads::paired_dirs(es, k, dp) + seq![dp];
            let rest = dl_folder_dirs(archs, i + 1, es, rootpath, seen.push(base));
            assert(dl_folder_dirs(archs, i, es, rootpath, seen) == own + rest);
            lemma_folder_dirs_cover(archs, i + 1, es, rootpath, seen.push(base));
            assert forall|j: int|
                i <= j < archs.len() && find_dir_idx(es, 0, (#[trigger] archs[j]).0)
                    >= 0 implies seen.contains(archs[j].0) || dl_folder_dirs(
                archs,
                i,
                es,
                rootpath,
                seen,
            ).contains(rootpath.push(archs[j].0)) by {
                lemma_contains_split(own, rest, rootpath.push(archs[j].0));
                if j == i {
                    lemma_contains_split(
                        crate::downloads::paired_dirs(es, k, dp),
                        seq![dp],
                        dp,
                    );
                    assert(seq![dp][0] == dp);
                    assert(seq![dp].contains(dp));
                } else {
                    if seen.push(base).contains(archs[j].0) {
                        if seen.contains(archs[j].0) {
                        } else {
                            let m = choose|m: int|
                                0 <= m < seen.push(base).len() && seen.push(base)[m]
                                    == archs[j].0;
                            assert(m == seen.len());
                            assert(archs[j].0 == base);
                            lemma_contains_split(
                                crate::downloads::paired_dirs(es, k, dp),
                                seq![dp],
                                dp,
                            );
                            assert(seq![dp][0] == dp);
                    assert(seq![dp].contains(dp));
                        }
                    } else {
                        assert(rest.contains(rootpath.push(archs[j].0)));
                    }
                }
            }
        } else {
            lemma_folder_dirs_cover(archs, i + 1, es, rootpath, seen);
            assert(dl_folder_dirs(archs, i, es, rootpath, seen) == dl_folder_dirs(
                archs,
                i + 1,
                es,
                rootpath,
                seen,
            ));
        }
    }
}

/// The Folders choice does include the paired directory: whenever an
/// archive of a Downloads root has a same-named sibling directory, that
/// directory stands among the scan's recorded directories.
pub proof fn law_folders_choice_includes_paired_dir(
    scan: RuleScan,
    roots: Seq<RootSnapshot>,
    k: int,
    j: int,
)
    requires
        downloads_scan_shape(scan, roots, Some(DownloadsChoice::Folders)),
        0 <= k < roots.len(),
        roots[k].state is Dir,
        ({
            let es = match roots[k].state {
                RootState::Dir { entries, .. } => entries@,
                _ => Seq::empty(),
            };
            0 <= j < dl_archives(es, 0).len() && find_dir_idx(es, 0, dl_archives(es, 0)[j].0) >= 0
        }),
    ensures
        ({
            let es = match roots[k].state {
                RootState::Dir { entries, .. } => entries@,
                _ => Seq::empty(),
            };
            scan.dir_views().contains(roots[k].path@.push(dl_archives(es, 0)[j].0))
        }),
{
    let es = match roots[k].state {
        RootState::Dir { entries, .. } => entries@,
        _ => Seq::empty(),
    };
    let q = roots[k].path@.push(dl_archives(es, 0)[j].0);
    lemma_folder_dirs_cover(dl_archives(es, 0), 0, es, roots[k].path@, Seq::empty());
    assert(dl_root_dirs(roots[k], DownloadsChoice::Folders).contains(q));
    lemma_dl_roots_dirs_member(roots, 0, k, q);
}

proof fn lemma_dl_roots_dirs_member(roots: Seq<RootSnapshot>, i: int, k: int, q: Seq<Seq<char>>)
    requires
        0 <= i <= k < roots.len(),
        dl_root_dirs(roots[k], DownloadsChoice::Folders).contains(q),
    ensures
        dl_roots_dirs(roots, i, DownloadsChoice::Folders).contains(q),
    decreases roots.len() - i,
{
    lemma_contains_split(
        dl_root_dirs(roots[i], DownloadsChoice::Folders),
        dl_roots_dirs(roots, i + 1, DownloadsChoice::Folders),
        q,
    );
    if i < k {
        lemma_dl_roots_dirs_member(roots, i + 1, k, q);
    }
}


/// Every path the Folders choice contributes extends the Downloads root by
/// the base name of a pair resolved from `i` on whose base is not yet seen.
pub open spec fn folder_shape(
    archs: Seq<(Seq<char>, Seq<char>, u64)>,
    i: int,
    es: Seq<FsTree>,
    rootpath: Seq<Seq<char>>,
    seen: Seq<Seq<char>>,
    q: Seq<Seq<char>>,
) -> bool {
    &&& q.len() > rootpath.len()
    &&& q.subrange(0, rootpath.len() as int) == rootpath
    &&& exists|j: int|
        i <= j < archs.len() && find_dir_idx(es, 0, (#[trigger] archs[j]).0) >= 0
            && !seen.contains(archs[j].0) && archs[j].0 == q[rootpath.len() as int]
}

proof fn lemma_paired_shape(es: Seq<FsTree>, k: int, rootpath: Seq<Seq<char>>, base: Seq<char>)
    ensures
        forall|q: Seq<Seq<char>>|
            #[trigger] file_paths(paired_files(es, k, rootpath.push(base))).contains(q) ==> q.len()
                > rootpath.len() + 1 && q.subrange(0, rootpath.len() as int) == rootpath
                && q[rootpath.len() as int] == base,
        forall|q: Seq<Seq<char>>|
            #[trigger] paired_dirs(es, k, rootpath.push(base)).contains(q) ==> q.len() > rootpath.len()
                + 1 && q.subrange(0, rootpath.len() as int) == rootpath
                && q[rootpath.len() as int] == base,
{
    let dp = rootpath.push(base);
    match es[k] {
        FsTree::Dir { device, entries, .. } => {
            lemma_list_shape(entries@, 0, dp, Seq::empty(), Seq::empty(), device);
            assert forall|q: Seq<Seq<char>>|
                #[trigger] file_paths(paired_files(es, k, dp)).contains(q) implies q.len()
                > rootpath.len() + 1 && q.subrange(0, rootpath.len() as int) == rootpath
                && q[rootpath.len() as int] == base by {
                assert(listed_shape(entries@, 0, dp, q));
                assert(q.subrange(0, dp.len() as int) == dp);
                assert forall|m: int| 0 <= m < dp.len() implies q[m] == #[trigger] dp[m] by {
                    assert(q.subrange(0, dp.len() as int)[m] == q[m]);
                }
                assert(q[rootpath.len() as int] == dp[rootpath.len() as int]);
                assert(dp[rootpath.len() as int] == base);
                assert(q.subrange(0, rootpath.len() as int) =~= rootpath);
            }
            assert forall|q: Seq<Seq<char>>|
                #[trigger] paired_dirs(es, k, dp).contains(q) implies q.len() > rootpath.len() + 1
                && q.subrange(0, rootpath.len() as int) == rootpath && q[rootpath.len() as int]
                == base by {
                assert(listed_shape(entries@, 0, dp, q));
                assert(q.subrange(0, dp.len() as int) == dp);
                assert forall|m: int| 0 <= m < dp.len() implies q[m] == #[trigger] dp[m] by {
                    assert(q.subrange(0, dp.len() as int)[m] == q[m]);
                }
                assert(q[rootpath.len() as int] == dp[rootpath.len() as int]);
                assert(dp[rootpath.len() as int] == base);
                assert(q.subrange(0, rootpath.len() as int) =~= rootpath);
            }
        },
        _ => {
            assert(file_paths(Seq::<(Seq<Seq<char>>, u64)>::empty()) =~= Seq::<
                Seq<Seq<char>>,
            >::empty());
        },
    }
}

proof fn lemma_folder_model_shape(
    archs: Seq<(Seq<char>, Seq<char>, u64)>,
    i: int,
    es: Seq<FsTree>,
    rootpath: Seq<Seq<char>>,
    seen: Seq<Seq<char>>,
)
    requires
        0 <= i,
    ensures
        forall|q: Seq<Seq<char>>|
            #[trigger] file_paths(dl_folder_files(archs, i, es, rootpath, seen)).contains(q)
                ==> folder_shape(archs, i, es, rootpath, seen, q),
        forall|q: Seq<Seq<char>>|
            #[trigger] dl_folder_dirs(archs, i, es, rootpath, seen).contains(q) ==> folder_shape(
                archs,
                i,
                es,
                rootpath,
                seen,
                q,
            ),
    decreases archs.len() - i,
{
    if i >= archs.len() {
        assert(file_paths(dl_folder_files(archs, i, es, rootpath, seen)) =~= Seq::<
            Seq<Seq<char>>,
        >::empty());
    } else {
        let base = archs[i].0;
        let k = find_dir_idx(es, 0, base);
        if k >= 0 && !seen.contains(base) {
            let dp = rootpath.push(base);
            let seen2 = seen.push(base);
            lemma_paired_shape(es, k, rootpath, base);
            lemma_folder_model_shape(archs, i + 1, es, rootpath, seen2);
            assert(dl_folder_files(archs, i, es, rootpath, seen) == paired_files(es, k, dp)
                + dl_folder_files(archs, i + 1, es, rootpath, seen2));
            assert(dl_folder_dirs(archs, i, es, rootpath, seen) == (paired_dirs(es, k, dp) + seq![
                dp,
            ]) + dl_folder_dirs(archs, i + 1, es, rootpath, seen2));
            lemma_file_paths_split(
                paired_files(es, k, dp),
                dl_folder_files(archs, i + 1, es, rootpath, seen2),
            );
            assert forall|q: Seq<Seq<char>>|
                #[trigger] file_paths(dl_folder_files(archs, i, es, rootpath, seen)).contains(
                q,
            ) implies folder_shape(archs, i, es, rootpath, seen, q) by {
                lemma_contains_split(
                    file_paths(paired_files(es, k, dp)),
                    file_paths(dl_folder_files(archs, i + 1, es, rootpath, seen2)),
                    q,
                );
                if file_paths(paired_files(es, k, dp)).contains(q) {
                    assert(i <= i < archs.len() && find_dir_idx(es, 0, archs[i].0) >= 0
                        && !seen.contains(archs[i].0) && archs[i].0 == q[rootpath.len() as int]);
                } else {
                    assert(folder_shape(archs, i + 1, es, rootpath, seen2, q));
                    let j = choose|j: int|
                        i + 1 <= j < archs.len() && find_dir_idx(es, 0, (#[trigger] archs[j]).0)
                            >= 0 && !seen2.contains(archs[j].0) && archs[j].0 == q[rootpath.len() as int];
                    lemma_not_contains_push(seen, base, archs[j].0);
                    assert(i <= j < archs.len() && find_dir_idx(es, 0, archs[j].0) >= 0
                        && !seen.contains(archs[j].0) && archs[j].0 == q[rootpath.len() as int]);
                }
            }
            assert forall|q: Seq<Seq<char>>|
                #[trigger] dl_folder_dirs(archs, i, es, rootpath, seen).contains(
                q,
            ) implies folder_shape(archs, i, es, rootpath, seen, q) by {
                lemma_contains_split(
                    paired_dirs(es, k, dp) + seq![dp],
                    dl_folder_dirs(archs, i + 1, es, rootpath, seen2),
                    q,
                );
                if (paired_dirs(es, k, dp) + seq![dp]).contains(q) {
                    lemma_contains_split(paired_dirs(es, k, dp), seq![dp], q);
                    if paired_dirs(es, k, dp).contains(q) {
                        assert(i <= i < archs.len() && find_dir_idx(es, 0, archs[i].0) >= 0
                            && !seen.contains(archs[i].0) && archs[i].0 == q[rootpath.len() as int]);
                    } else {
                        assert(q == dp);
                        assert(q.subrange(0, rootpath.len() as int) =~= rootpath);
                        assert(i <= i < archs.len() && find_dir_idx(es, 0, archs[i].0) >= 0
                            && !seen.contains(archs[i].0) && archs[i].0 == q[rootpath.len() as int]);
                    }
                } else {
                    assert(folder_shape(archs, i + 1, es, rootpath, seen2, q));
                    let j = choose|j: int|
                        i + 1 <= j < archs.len() && find_dir_idx(es, 0, (#[trigger] archs[j]).0)
                            >= 0 && !seen2.contains(archs[j].0) && archs[j].0 == q[rootpath.len() as int];
                    lemma_not_contains_push(seen, base, archs[j].0);
                    assert(i <= j < archs.len() && find_dir_idx(es, 0, archs[j].0) >= 0
                        && !seen.contains(archs[j].0) && archs[j].0 == q[rootpath.len() as int]);
                }
            }
        } else {
            lemma_folder_model_shape(archs, i + 1, es, rootpath, seen);
            assert(dl_folder_files(archs, i, es, rootpath, seen) == dl_folder_files(
                archs,
                i + 1,
                es,
                rootpath,
                seen,
            ));
            assert(dl_folder_dirs(archs, i, es, rootpath, seen) == dl_folder_dirs(
                archs,
                i + 1,
                es,
                rootpath,
                seen,
            ));
            assert forall|q: Seq<Seq<char>>|
                #[trigger] file_paths(dl_folder_files(archs, i, es, rootpath, seen)).contains(
                q,
            ) implies folder_shape(archs, i, es, rootpath, seen, q) by {
                assert(folder_shape(archs, i + 1, es, rootpath, seen, q));
                let j = choose|j: int|
                    i + 1 <= j < archs.len() && find_dir_idx(es, 0, (#[trigger] archs[j]).0) >= 0
                        && !seen.contains(archs[j].0) && archs[j].0 == q[rootpath.len() as int];
                assert(i <= j < archs.len());
            }
            assert forall|q: Seq<Seq<char>>|
                #[trigger] dl_folder_dirs(archs, i, es, rootpath, seen).contains(
                q,
            ) implies folder_shape(archs, i, es, rootpath, seen, q) by {
                assert(folder_shape(archs, i + 1, es, rootpath, seen, q));
                let j = choose|j: int|
                    i + 1 <= j < archs.len() && find_dir_idx(es, 0, (#[trigger] archs[j]).0) >= 0
                        && !seen.contains(archs[j].0) && archs[j].0 == q[rootpath.len() as int];
                assert(i <= j < archs.len());
            }
        }
    }
}

/// What is absent from a grown seen set was absent before, unless it is the
/// newly added base.
proof fn lemma_not_contains_push(seen: Seq<Seq<char>>, base: Seq<char>, x: Seq<char>)
    requires
        !seen.push(base).contains(x),
    ensures
        !seen.contains(x),
        x != base,
{
    if seen.contains(x) {
        let m = choose|m: int| 0 <= m < seen.len() && seen[m] == x;
        assert(seen.push(base)[m] == x);
    }
    assert(seen.push(base)[seen.len() as int] == base);
}

/// Within one well-formed Downloads root, the Folders choice never records
/// a path as both a file and a directory: contributions of different pairs
/// diverge at the base-name component, one pair's walk is disjoint by the
/// walker's own law, and the paired directory itself is shallower than
/// anything inside it.
proof fn lemma_folder_disjoint(
    archs: Seq<(Seq<char>, Seq<char>, u64)>,
    i: int,
    es: Seq<FsTree>,
    rootpath: Seq<Seq<char>>,
    seen: Seq<Seq<char>>,
)
    requires
        0 <= i,
        wf_entries(es),
    ensures
        forall|q: Seq<Seq<char>>|
            #[trigger] file_paths(dl_folder_files(archs, i, es, rootpath, seen)).contains(q)
                ==> !dl_folder_dirs(archs, i, es, rootpath, seen).contains(q),
    decreases archs.len() - i,
{
    if i >= archs.len() {
        assert(file_paths(dl_folder_files(archs, i, es, rootpath, seen)) =~= Seq::<
            Seq<Seq<char>>,
        >::empty());
    } else {
        let base = archs[i].0;
        let k = find_dir_idx(es, 0, base);
        if k >= 0 && !seen.contains(base) {
            let dp = rootpath.push(base);
            let seen2 = seen.push(base);
            crate::downloads::lemma_find_dir_idx(es, 0, base);
            assert(wf_tree(es[k]));
            lemma_paired_shape(es, k, rootpath, base);
            lemma_folder_model_shape(archs, i + 1, es, rootpath, seen2);
            lemma_folder_disjoint(archs, i + 1, es, rootpath, seen2);
            assert(dl_folder_files(archs, i, es, rootpath, seen) == paired_files(es, k, dp)
                + dl_folder_files(archs, i + 1, es, rootpath, seen2));
            assert(dl_folder_dirs(archs, i, es, rootpath, seen) == (paired_dirs(es, k, dp) + seq![
                dp,
            ]) + dl_folder_dirs(archs, i + 1, es, rootpath, seen2));
            lemma_file_paths_split(
                paired_files(es, k, dp),
                dl_folder_files(archs, i + 1, es, rootpath, seen2),
            );
            match es[k] {
                FsTree::Dir { device, entries, .. } => {
                    lemma_list_disjoint(entries@, 0, dp, Seq::empty(), Seq::empty(), device);
                    lemma_list_shape(entries@, 0, dp, Seq::empty(), Seq::empty(), device);
                },
                _ => {},
            }
            assert forall|q: Seq<Seq<char>>|
                #[trigger] file_paths(dl_folder_files(archs, i, es, rootpath, seen)).contains(
                q,
            ) implies !dl_folder_dirs(archs, i, es, rootpath, seen).contains(q) by {
                lemma_contains_split(
                    file_paths(paired_files(es, k, dp)),
                    file_paths(dl_folder_files(archs, i + 1, es, rootpath, seen2)),
                    q,
                );
                if dl_folder_dirs(archs, i, es, rootpath, seen).contains(q) {
                    lemma_contains_split(
                        paired_dirs(es, k, dp) + seq![dp],
                        dl_folder_dirs(archs, i + 1, es, rootpath, seen2),
                        q,
                    );
                    if file_paths(paired_files(es, k, dp)).contains(q) {
                        if (paired_dirs(es, k, dp) + seq![dp]).contains(q) {
                            lemma_contains_split(paired_dirs(es, k, dp), seq![dp], q);
                            if paired_dirs(es, k, dp).contains(q) {
                                assert(false);
                            } else {
                                assert(q == dp);
                                assert(q.len() > rootpath.len() + 1);
                                assert(false);
                            }
                        } else {
                            assert(dl_folder_dirs(archs, i + 1, es, rootpath, seen2).contains(q));
                            assert(folder_shape(archs, i + 1, es, rootpath, seen2, q));
                            let j = choose|j: int|
                                i + 1 <= j < archs.len() && find_dir_idx(
                                    es,
                                    0,
                                    (#[trigger] archs[j]).0,
                                ) >= 0 && !seen2.contains(archs[j].0) && archs[j].0
                                    == q[rootpath.len() as int];
                            lemma_not_contains_push(seen, base, archs[j].0);
                            assert(q[rootpath.len() as int] == base);
                            assert(false);
                        }
                    } else {
                        assert(file_paths(dl_folder_files(archs, i + 1, es, rootpath, seen2))
                            .contains(q));
                        assert(folder_shape(archs, i + 1, es, rootpath, seen2, q));
                        let j = choose|j: int|
                            i + 1 <= j < archs.len() && find_dir_idx(
                                es,
                                0,
                                (#[trigger] archs[j]).0,
                            ) >= 0 && !seen2.contains(archs[j].0) && archs[j].0
                                == q[rootpath.len() as int];
                        lemma_not_contains_push(seen, base, archs[j].0);
                        if (paired_dirs(es, k, dp) + seq![dp]).contains(q) {
                            lemma_contains_split(paired_dirs(es, k, dp), seq![dp], q);
                            if paired_dirs(es, k, dp).contains(q) {
                                assert(q[rootpath.len() as int] == base);
                                assert(false);
                            } else {
                                assert(q == dp);
                                assert(q[rootpath.len() as int] == base);
                                assert(false);
                            }
                        } else {
                            assert(false);
                        }
                    }
                }
            }
        } else {
            lemma_folder_disjoint(archs, i + 1, es, rootpath, seen);
            assert(dl_folder_files(archs, i, es, rootpath, seen) == dl_folder_files(
                archs,
                i + 1,
                es,
                rootpath,
                seen,
            ));
            assert(dl_folder_dirs(archs, i, es, rootpath, seen) == dl_folder_dirs(
                archs,
                i + 1,
                es,
                rootpath,
                seen,
            ));
        }
    }
}

/// The Downloads form of the disjointness law: a Downloads-kind scan over a
/// well-formed snapshot whose roots do not nest never records a path as
/// both a file and a directory, and never records any root's own path.
pub proof fn law_files_dirs_disjoint_downloads(
    scan: RuleScan,
    roots: Seq<RootSnapshot>,
    choice: DownloadsChoice,
)
    requires
        downloads_scan_shape(scan, roots, Some(choice)),
        wf_roots(roots),
        no_nested_roots(roots),
    ensures
        forall|q: Seq<Seq<char>>|
            #[trigger] scan.file_views().contains(q) ==> !scan.dir_views().contains(q),
        forall|k: int|
            0 <= k < roots.len() ==> !scan.dir_views().contains((#[trigger] roots[k]).path@)
                && !scan.file_views().contains(roots[k].path@),
{
    lemma_dl_roots_disjoint(roots, 0, choice);
    lemma_dl_roots_shape(roots, 0, choice);
    assert forall|k: int|
        0 <= k < roots.len() implies !scan.dir_views().contains((#[trigger] roots[k]).path@)
        && !scan.file_views().contains(roots[k].path@) by {
        if scan.dir_views().contains(roots[k].path@) {
            assert(roots_dir_shape(roots, 0, roots[k].path@));
            let e = choose|e: int|
                0 <= e < roots.len() && is_prefix_of((#[trigger] roots[e]).path@, roots[k].path@)
                    && roots[k].path@.len() > roots[e].path@.len();
            assert(false);
        }
        if scan.file_views().contains(roots[k].path@) {
            assert(roots_dir_shape(roots, 0, roots[k].path@));
            let e = choose|e: int|
                0 <= e < roots.len() && is_prefix_of((#[trigger] roots[e]).path@, roots[k].path@)
                    && roots[k].path@.len() > roots[e].path@.len();
            assert(false);
        }
    }
}

// Every path a Downloads root contributes lies strictly under that root's
// path: both choices only ever record children of the root or deeper.
proof fn lemma_dl_root_shape(r: RootSnapshot, choice: DownloadsChoice)
    ensures
        forall|q: Seq<Seq<char>>|
            #[trigger] file_paths(dl_root_files(r, choice)).contains(q) ==> is_prefix_of(
                r.path@,
                q,
            ) && q.len() > r.path@.len(),
        forall|q: Seq<Seq<char>>|
            #[trigger] dl_root_dirs(r, choice).contains(q) ==> is_prefix_of(r.path@, q) && q.len()
                > r.path@.len(),
{
    match r.state {
        RootState::Dir { entries, .. } => {
            let archs = dl_archives(entries@, 0);
            match choice {
                DownloadsChoice::Archives => {
                    lemma_archive_files_shape(archs, 0, entries@, r.path@);
                },
                DownloadsChoice::Folders => {
                    lemma_folder_model_shape(archs, 0, entries@, r.path@, Seq::empty());
                    assert forall|q: Seq<Seq<char>>|
                        #[trigger] file_paths(dl_root_files(r, choice)).contains(q) implies is_prefix_of(
                        r.path@,
                        q,
                    ) && q.len() > r.path@.len() by {
                        assert(folder_shape(archs, 0, entries@, r.path@, Seq::empty(), q));
                        assert(forall|m: int|
                            0 <= m < r.path@.len() ==> q.subrange(0, r.path@.len() as int)[m]
                                == q[m]);
                    }
                    assert forall|q: Seq<Seq<char>>|
                        #[trigger] dl_root_dirs(r, choice).contains(q) implies is_prefix_of(
                        r.path@,
                        q,
                    ) && q.len() > r.path@.len() by {
                        assert(folder_shape(archs, 0, entries@, r.path@, Seq::empty(), q));
                        assert(forall|m: int|
                            0 <= m < r.path@.len() ==> q.subrange(0, r.path@.len() as int)[m]
                                == q[m]);
                    }
                },
            }
        },
        _ => {
            assert(file_paths(dl_root_files(r, choice)) =~= Seq::<Seq<Seq<char>>>::empty());
        },
    }
}

proof fn lemma_archive_files_shape(
    archs: Seq<(Seq<char>, Seq<char>, u64)>,
    i: int,
    es: Seq<FsTree>,
    rootpath: Seq<Seq<char>>,
)
    requires
        0 <= i,
    ensures
        forall|q: Seq<Seq<char>>|
            #[trigger] file_paths(crate::downloads::dl_archive_files(archs, i, es, rootpath))
                .contains(q) ==> is_prefix_of(rootpath, q) && q.len() == rootpath.len() + 1,
    decreases archs.len() - i,
{
    if i >= archs.len() {
        assert(file_paths(crate::downloads::dl_archive_files(archs, i, es, rootpath)) =~= Seq::<
            Seq<Seq<char>>,
        >::empty());
    } else {
        lemma_archive_files_shape(archs, i + 1, es, rootpath);
        let own: Seq<(Seq<Seq<char>>, u64)> = if find_dir_idx(es, 0, archs[i].0) >= 0 {
            seq![(rootpath.push(archs[i].1), archs[i].2)]
        } else {
            Seq::empty()
        };
        assert(crate::downloads::dl_archive_files(archs, i, es, rootpath) == own
            + crate::downloads::dl_archive_files(archs, i + 1, es, rootpath));
        lemma_file_paths_split(own, crate::downloads::dl_archive_files(archs, i + 1, es, rootpath));
        assert forall|q: Seq<Seq<char>>|
            #[trigger] file_paths(crate::downloads::dl_archive_files(archs, i, es, rootpath))
                .contains(q) implies is_prefix_of(rootpath, q) && q.len() == rootpath.len()
            + 1 by {
            lemma_contains_split(
                file_paths(own),
                file_paths(crate::downloads::dl_archive_files(archs, i + 1, es, rootpath)),
                q,
            );
            if file_paths(own).contains(q) {
                assert(q == rootpath.push(archs[i].1));
            }
        }
    }
}

proof fn lemma_dl_roots_shape(roots: Seq<RootSnapshot>, i: int, choice: DownloadsChoice)
    requires
        0 <= i,
    ensures
        forall|q: Seq<Seq<char>>|
            #[trigger] file_paths(dl_roots_files(roots, i, choice)).contains(q) ==> roots_dir_shape(
                roots,
                i,
                q,
            ),
        forall|q: Seq<Seq<char>>|
            #[trigger] dl_roots_dirs(roots, i, choice).contains(q) ==> roots_dir_shape(
                roots,
                i,
                q,
            ),
    decreases roots.len() - i,
{
    if i >= roots.len() {
        assert(file_paths(dl_roots_files(roots, i, choice)) =~= Seq::<Seq<Seq<char>>>::empty());
    } else {
        lemma_dl_root_shape(roots[i], choice);
        lemma_dl_roots_shape(roots, i + 1, choice);
        lemma_file_paths_split(dl_root_files(roots[i], choice), dl_roots_files(roots, i + 1, choice));
        assert forall|q: Seq<Seq<char>>|
            #[trigger] file_paths(dl_roots_files(roots, i, choice)).contains(q) implies roots_dir_shape(
            roots,
            i,
            q,
        ) by {
            lemma_contains_split(
                file_paths(dl_root_files(roots[i], choice)),
                file_paths(dl_roots_files(roots, i + 1, choice)),
                q,
            );
            if file_paths(dl_root_files(roots[i], choice)).contains(q) {
                assert(i <= i < roots.len() && is_prefix_of(roots[i].path@, q) && q.len()
                    > roots[i].path@.len());
            } else {
                assert(roots_dir_shape(roots, i + 1, q));
                let e = choose|e: int|
                    i + 1 <= e < roots.len() && is_prefix_of((#[trigger] roots[e]).path@, q)
                        && q.len() > roots[e].path@.len();
                assert(i <= e < roots.len() && is_prefix_of(roots[e].path@, q) && q.len()
                    > roots[e].path@.len());
            }
        }
        assert forall|q: Seq<Seq<char>>|
            #[trigger] dl_roots_dirs(roots, i, choice).contains(q) implies roots_dir_shape(
            roots,
            i,
            q,
        ) by {
            lemma_contains_split(
                dl_root_dirs(roots[i], choice),
                dl_roots_dirs(roots, i + 1, choice),
                q,
            );
            if dl_root_dirs(roots[i], choice).contains(q) {
                assert(i <= i < roots.len() && is_prefix_of(roots[i].path@, q) && q.len()
                    > roots[i].path@.len());
            } else {
                assert(roots_dir_shape(roots, i + 1, q));
                let e = choose|e: int|
                    i + 1 <= e < roots.len() && is_prefix_of((#[trigger] roots[e]).path@, q)
                        && q.len() > roots[e].path@.len();
                assert(i <= e < roots.len() && is_prefix_of(roots[e].path@, q) && q.len()
                    > roots[e].path@.len());
            }
        }
    }
}

proof fn lemma_dl_root_disjoint(r: RootSnapshot, choice: DownloadsChoice)
    requires
        wf_root(r),
    ensures
        forall|q: Seq<Seq<char>>|
            #[trigger] file_paths(dl_root_files(r, choice)).contains(q) ==> !dl_root_dirs(
                r,
                choice,
            ).contains(q),
{
    match r.state {
        RootState::Dir { entries, .. } => {
            match choice {
                DownloadsChoice::Archives => {
                },
                DownloadsChoice::Folders => {
                    lemma_folder_disjoint(
                        dl_archives(entries@, 0),
                        0,
                        entries@,
                        r.path@,
                        Seq::empty(),
                    );
                },
            }
        },
        _ => {
            assert(file_paths(dl_root_files(r, choice)) =~= Seq::<Seq<Seq<char>>>::empty());
        },
    }
}

proof fn lemma_dl_roots_disjoint(roots: Seq<RootSnapshot>, i: int, choice: DownloadsChoice)
    requires
        0 <= i,
        wf_roots(roots),
        no_nested_roots(roots),
    ensures
        forall|q: Seq<Seq<char>>|
            #[trigger] file_paths(dl_roots_files(roots, i, choice)).contains(q) ==> !dl_roots_dirs(
                roots,
                i,
                choice,
            ).contains(q),
    decreases roots.len() - i,
{
    if i >= roots.len() {
        assert(file_paths(dl_roots_files(roots, i, choice)) =~= Seq::<Seq<Seq<char>>>::empty());
    } else {
        assert(wf_root(roots[i]));
        lemma_dl_root_shape(roots[i], choice);
        lemma_dl_root_disjoint(roots[i], choice);
        lemma_dl_roots_shape(roots, i + 1, choice);
        lemma_dl_roots_disjoint(roots, i + 1, choice);
        lemma_file_paths_split(dl_root_files(roots[i], choice), dl_roots_files(roots, i + 1, choice));
        assert forall|q: Seq<Seq<char>>|
            #[trigger] file_paths(dl_roots_files(roots, i, choice)).contains(q) implies !dl_roots_dirs(
            roots,
            i,
            choice,
        ).contains(q) by {
            lemma_contains_split(
                file_paths(dl_root_files(roots[i], choice)),
                file_paths(dl_roots_files(roots, i + 1, choice)),
                q,
            );
            if dl_roots_dirs(roots, i, choice).contains(q) {
                lemma_contains_split(
                    dl_root_dirs(roots[i], choice),
                    dl_roots_dirs(roots, i + 1, choice),
                    q,
                );
                if file_paths(dl_root_files(roots[i], choice)).contains(q) {
                    if dl_root_dirs(roots[i], choice).contains(q) {
                        assert(false);
                    } else {
                        assert(roots_dir_shape(roots, i + 1, q));
                        let e = choose|e: int|
                            i + 1 <= e < roots.len() && is_prefix_of((#[trigger] roots[e]).path@, q)
                                && q.len() > roots[e].path@.len();
                        lemma_prefix_chain(roots[i].path@, roots[e].path@, q);
                        assert(false);
                    }
                } else {
                    if dl_root_dirs(roots[i], choice).contains(q) {
                        assert(roots_dir_shape(roots, i + 1, q));
                        let e = choose|e: int|
                            i + 1 <= e < roots.len() && is_prefix_of((#[trigger] roots[e]).path@, q)
                                && q.len() > roots[e].path@.len();
                        lemma_prefix_chain(roots[i].path@, roots[e].path@, q);
                        assert(false);
                    } else {
                        assert(false);
                    }
                }
            }
        }
    }
}

} // verus!
