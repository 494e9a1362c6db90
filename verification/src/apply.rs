use vstd::prelude::*;

use vstd::multiset::Multiset;

use crate::fspath::{is_strict_prefix_of, FsPath};
use crate::scan::{path_views, sat64, RuleScan};

verus! {

/// The aggregate outcome of one apply run: purely additive across scans.
#[derive(Debug)]
pub struct CleanReport {
    pub files_removed: usize,
    pub dirs_removed: usize,
    pub bytes_freed: u64,
    pub errors: usize,
}

impl Default for CleanReport {
    fn default() -> (r: Self)
        ensures
            r.files_removed == 0 && r.dirs_removed == 0 && r.bytes_freed == 0 && r.errors == 0,
    {
        CleanReport { files_removed: 0, dirs_removed: 0, bytes_freed: 0, errors: 0 }
    }
}

/// One planned removal: a file, or an empty-directory removal.
#[derive(Debug)]
pub struct RemovalStep {
    pub path: FsPath,
    pub is_dir: bool,
}

/// What became of one removal attempt. A path that was already gone is not
/// an error; a file's size is captured before its removal so that the freed
/// bytes can be summed.
#[derive(Debug, Clone, Copy, PartialEq, Eq, Structural)]
pub enum RemovalOutcome {
    Removed { bytes: u64 },
    AlreadyGone,
    Failed,
}

/// Inserting a path into a depth-sorted run: it goes after every path at
/// least as deep, before the first strictly shallower one.
pub open spec fn insert_desc(s: Seq<Seq<Seq<char>>>, x: Seq<Seq<char>>) -> Seq<Seq<Seq<char>>>
    decreases s.len(),
{
    if s.len() == 0 {
        seq![x]
    } else if s[0].len() >= x.len() {
        seq![s[0]] + insert_desc(s.drop_first(), x)
    } else {
        seq![x] + s
    }
}

/// The stable sort of paths by descending depth: deepest first, equal depths
/// keeping their order.
pub open spec fn sort_desc(s: Seq<Seq<Seq<char>>>) -> Seq<Seq<Seq<char>>>
    decreases s.len(),
{
    if s.len() == 0 {
        s
    } else {
        insert_desc(sort_desc(s.drop_last()), s.last())
    }
}

pub open spec fn sorted_desc(s: Seq<Seq<Seq<char>>>) -> bool {
    forall|i: int, j: int| 0 <= i <= j < s.len() ==> #[trigger] s[i].len() >= #[trigger] s[j].len()
}

proof fn lemma_insert_desc_at(s: Seq<Seq<Seq<char>>>, x: Seq<Seq<char>>, p: int)
    requires
        0 <= p <= s.len(),
        forall|j: int| 0 <= j < p ==> #[trigger] s[j].len() >= x.len(),
        p < s.len() ==> s[p].len() < x.len(),
    ensures
        insert_desc(s, x) == s.subrange(0, p) + seq![x] + s.subrange(p, s.len() as int),
    decreases p,
{
    if p == 0 {
        if s.len() == 0 {
            assert(insert_desc(s, x) =~= s.subrange(0, 0) + seq![x] + s.subrange(
                0,
                s.len() as int,
            ));
        } else {
            assert(s[0].len() < x.len());
            assert(insert_desc(s, x) =~= s.subrange(0, 0) + seq![x] + s.subrange(
                0,
                s.len() as int,
            ));
        }
    } else {
        assert(s[0].len() >= x.len());
        let t = s.drop_first();
        assert(forall|j: int| 0 <= j < p - 1 ==> #[trigger] t[j].len() >= x.len());
        lemma_insert_desc_at(t, x, p - 1);
        assert(insert_desc(s, x) =~= s.subrange(0, p) + seq![x] + s.subrange(p, s.len() as int));
    }
}

proof fn lemma_insert_desc_sorted(s: Seq<Seq<Seq<char>>>, x: Seq<Seq<char>>)
    requires
        sorted_desc(s),
    ensures
        sorted_desc(insert_desc(s, x)),
        insert_desc(s, x).to_multiset() == s.to_multiset().insert(x),
        insert_desc(s, x).len() == s.len() + 1,
    decreases s.len(),
{
    broadcast use vstd::seq_lib::group_to_multiset_ensures;

    if s.len() == 0 {
        assert(seq![x] =~= Seq::<Seq<Seq<char>>>::empty().push(x));
        assert(Seq::<Seq<Seq<char>>>::empty().to_multiset() =~= Multiset::<
            Seq<Seq<char>>,
        >::empty());
    } else if s[0].len() >= x.len() {
        let t = s.drop_first();
        assert(forall|i: int, j: int|
            0 <= i <= j < t.len() ==> #[trigger] t[i].len() >= #[trigger] t[j].len());
        lemma_insert_desc_sorted(t, x);
        let r = seq![s[0]] + insert_desc(t, x);
        assert forall|i: int, j: int| 0 <= i <= j < r.len() implies #[trigger] r[i].len()
            >= #[trigger] r[j].len() by {
            if i == 0 && j > 0 {
                let u = insert_desc(t, x);
                assert(r[j] == u[j - 1]);
                if u[j - 1] == x {
                    assert(s[0].len() >= x.len());
                } else {
                    // every element of the insertion is x or from t
                    lemma_insert_desc_member(t, x, j - 1);
                }
            }
        }
        assert(seq![s[0]] + t =~= s);
        assert(s.to_multiset() == (seq![s[0]] + t).to_multiset());
        lemma_multiset_cons(s[0], t);
        lemma_multiset_cons(s[0], insert_desc(t, x));
        assert(insert_desc(s, x).to_multiset() =~= s.to_multiset().insert(x));
    } else {
        let r = seq![x] + s;
        assert forall|i: int, j: int| 0 <= i <= j < r.len() implies #[trigger] r[i].len()
            >= #[trigger] r[j].len() by {
            if i == 0 && j > 0 {
                assert(r[j] == s[j - 1]);
                assert(s[0].len() >= s[j - 1].len());
            }
        }
        lemma_multiset_cons(x, s);
        assert(s.to_multiset().insert(x) =~= (seq![x] + s).to_multiset());
    }
}

/// Every element of an insertion is the inserted path or one of the run's.
proof fn lemma_insert_desc_member(s: Seq<Seq<Seq<char>>>, x: Seq<Seq<char>>, k: int)
    requires
        0 <= k < insert_desc(s, x).len(),
    ensures
        insert_desc(s, x)[k] == x || (exists|j: int|
            0 <= j < s.len() && #[trigger] s[j] == insert_desc(s, x)[k]),
        insert_desc(s, x)[k].len() <= x.len() || (exists|j: int|
            0 <= j < s.len() && #[trigger] s[j] == insert_desc(s, x)[k]),
    decreases s.len(),
{
    if s.len() == 0 {
    } else if s[0].len() >= x.len() {
        if k > 0 {
            lemma_insert_desc_member(s.drop_first(), x, k - 1);
            if insert_desc(s.drop_first(), x)[k - 1] == x {
            } else {
                let j = choose|j: int|
                    0 <= j < s.drop_first().len() && #[trigger] s.drop_first()[j] == insert_desc(
                        s.drop_first(),
                        x,
                    )[k - 1];
                assert(s[j + 1] == insert_desc(s, x)[k]);
            }
        } else {
            assert(s[0] == insert_desc(s, x)[0]);
        }
    } else {
        if k > 0 {
            assert(s[k - 1] == insert_desc(s, x)[k]);
        }
    }
}

/// `[a] + s` gathers to inserting `a` into the multiset of `s`.
proof fn lemma_multiset_cons(a: Seq<Seq<char>>, s: Seq<Seq<Seq<char>>>)
    ensures
        (seq![a] + s).to_multiset() == s.to_multiset().insert(a),
    decreases s.len(),
{
    broadcast use vstd::seq_lib::group_to_multiset_ensures;

    if s.len() == 0 {
        assert(seq![a] + s =~= Seq::<Seq<Seq<char>>>::empty().push(a));
        assert(Seq::<Seq<Seq<char>>>::empty().to_multiset() =~= Multiset::<
            Seq<Seq<char>>,
        >::empty());
        assert((seq![a] + s).to_multiset() =~= s.to_multiset().insert(a));
    } else {
        let t = s.drop_last();
        lemma_multiset_cons(a, t);
        assert(seq![a] + s =~= (seq![a] + t).push(s.last()));
        assert(t.push(s.last()) =~= s);
        assert((seq![a] + s).to_multiset() =~= (seq![a] + t).to_multiset().insert(s.last()));
        assert(s.to_multiset() =~= t.to_multiset().insert(s.last()));
        assert(t.to_multiset().insert(s.last()).insert(a) =~= t.to_multiset().insert(a).insert(
            s.last(),
        ));
    }
}

/// The depth sort leaves the paths themselves untouched: same multiset,
/// deepest first.
pub proof fn lemma_sort_desc_props(s: Seq<Seq<Seq<char>>>)
    ensures
        sorted_desc(sort_desc(s)),
        sort_desc(s).to_multiset() == s.to_multiset(),
        sort_desc(s).len() == s.len(),
    decreases s.len(),
{
    broadcast use vstd::seq_lib::group_to_multiset_ensures;

    if s.len() > 0 {
        let t = s.drop_last();
        lemma_sort_desc_props(t);
        lemma_insert_desc_sorted(sort_desc(t), s.last());
        assert(t.push(s.last()) =~= s);
        assert(t.to_multiset().insert(s.last()) =~= s.to_multiset());
    }
}

/// Deepest-first order attempts every directory before any of its
/// ancestors: an ancestor is strictly shallower, so it comes strictly
/// later. In particular, for recorded directories `a` and `a/b`, `a/b` is
/// attempted first, and `a` is still attempted afterwards whatever became
/// of `a/b`.
pub proof fn law_dir_removal_depth_order(dirs: Seq<Seq<Seq<char>>>)
    ensures
        forall|i: int, j: int|
            0 <= i < sort_desc(dirs).len() && 0 <= j < sort_desc(dirs).len()
                && is_strict_prefix_of(#[trigger] sort_desc(dirs)[i], #[trigger] sort_desc(
                dirs,
            )[j]) ==> j < i,
{
    lemma_sort_desc_props(dirs);
    assert forall|i: int, j: int|
        0 <= i < sort_desc(dirs).len() && 0 <= j < sort_desc(dirs).len() && is_strict_prefix_of(
            #[trigger] sort_desc(dirs)[i],
            #[trigger] sort_desc(dirs)[j],
        ) implies j < i by {
        assert(sort_desc(dirs)[i].len() < sort_desc(dirs)[j].len());
        if i <= j {
            assert(sort_desc(dirs)[i].len() >= sort_desc(dirs)[j].len());
        }
    }
}

/// Sorts a scan's recorded directories deepest first, stably.
pub fn sort_dirs_deepest_first(dirs: &Vec<FsPath>) -> (r: Vec<FsPath>)
    ensures
        path_views(r@) == sort_desc(path_views(dirs@)),
{
    let mut r: Vec<FsPath> = Vec::new();
    proof {
        assert(path_views(r@) =~= sort_desc(path_views(dirs@).take(0)));
    }
    let mut i: usize = 0;
    while i < dirs.len()
        invariant
            i <= dirs@.len(),
            path_views(r@) == sort_desc(path_views(dirs@).take(i as int)),
        decreases dirs@.len() - i,
    {
        let x = dirs[i].clone();
        let mut p: usize = 0;
        while p < r.len() && r[p].parts.len() >= x.parts.len()
            invariant
                p <= r@.len(),
                forall|j: int| 0 <= j < p ==> #[trigger] path_views(r@)[j].len() >= x@.len(),
            decreases r@.len() - p,
        {
            proof {
                assert(path_views(r@)[p as int] == r@[p as int]@);
            }
            p = p + 1;
        }
        let ghost pre = r@;
        let ghost pos = p as int;
        proof {
            if pos < pre.len() {
                assert(path_views(pre)[pos] == pre[pos]@);
            }
            lemma_insert_desc_at(path_views(pre), x@, pos);
        }
        r.insert(p, x);
        proof {
            assert(path_views(r@) =~= path_views(pre).subrange(0, pos) + seq![x@] + path_views(
                pre,
            ).subrange(pos, pre.len() as int));
            assert(path_views(r@) =~= insert_desc(path_views(pre), x@));
            let fullpre = path_views(dirs@).take(i as int);
            let full = path_views(dirs@).take(i + 1);
            assert(full.drop_last() =~= fullpre);
            assert(full.last() == dirs@[i as int]@);
            assert(path_views(r@) =~= sort_desc(full));
        }
        i = i + 1;
    }
    proof {
        assert(path_views(dirs@).take(dirs@.len() as int) =~= path_views(dirs@));
    }
    r
}

/// The views of a removal plan: each step's path and whether it is a
/// directory removal.
pub open spec fn step_views(s: Seq<RemovalStep>) -> Seq<(Seq<Seq<char>>, bool)> {
    s.map_values(|t: RemovalStep| (t.path@, t.is_dir))
}

/// What one scan's removal order holds: its files, in recorded order, then
/// its directories, deepest first.
pub open spec fn scan_order(scan: RuleScan) -> Seq<(Seq<Seq<char>>, bool)> {
    scan.file_views().map_values(|p: Seq<Seq<char>>| (p, false)) + sort_desc(
        scan.dir_views(),
    ).map_values(|p: Seq<Seq<char>>| (p, true))
}

/// The removal order of one scan: every recorded file, then every recorded
/// directory deepest first, so that children are always attempted before
/// their ancestors. Directory removals are empty-directory removals only.
pub fn removal_order(scan: &RuleScan) -> (r: Vec<RemovalStep>)
    ensures
        step_views(r@) == scan_order(*scan),
{
    let mut r: Vec<RemovalStep> = Vec::new();
    let mut i: usize = 0;
    while i < scan.files.len()
        invariant
            i <= scan.files@.len(),
            step_views(r@) =~= path_views(scan.files@).take(i as int).map_values(
                |p: Seq<Seq<char>>| (p, false),
            ),
        decreases scan.files@.len() - i,
    {
        let ghost pre = r@;
        r.push(RemovalStep { path: scan.files[i].clone(), is_dir: false });
        proof {
            let lhs = step_views(r@);
            let rhs = path_views(scan.files@).take(i + 1).map_values(
                |p: Seq<Seq<char>>| (p, false),
            );
            assert(lhs.len() == r@.len());
            assert(r@ == pre.push(r@[pre.len() as int]));
            assert(path_views(scan.files@).len() == scan.files@.len());
            assert(rhs.len() == i + 1);
            assert(step_views(pre).len() == pre.len());
            assert forall|k: int| 0 <= k < lhs.len() implies lhs[k] == rhs[k] by {
                assert(k <= i < scan.files@.len());
                assert(lhs[k] == (r@[k].path@, r@[k].is_dir));
                assert(rhs[k] == (path_views(scan.files@).take(i + 1)[k], false));
                assert(path_views(scan.files@)[k] == scan.files@[k]@);
                if k < i {
                    assert(r@[k] == pre[k]);
                    assert(step_views(pre)[k] == (pre[k].path@, pre[k].is_dir));
                } else {
                    assert(r@[k].path@ == scan.files@[i as int]@);
                }
            }
            assert(lhs =~= rhs);
        }
        i = i + 1;
    }
    proof {
        assert(path_views(scan.files@).take(scan.files@.len() as int) =~= path_views(scan.files@));
    }
    let sorted = sort_dirs_deepest_first(&scan.dirs);
    let ghost files_steps = step_views(r@);
    let mut j: usize = 0;
    while j < sorted.len()
        invariant
            j <= sorted@.len(),
            path_views(sorted@) == sort_desc(path_views(scan.dirs@)),
            step_views(r@) =~= files_steps + path_views(sorted@).take(j as int).map_values(
                |p: Seq<Seq<char>>| (p, true),
            ),
        decreases sorted@.len() - j,
    {
        let ghost pre = r@;
        r.push(RemovalStep { path: sorted[j].clone(), is_dir: true });
        proof {
            let lhs = step_views(r@);
            let rhs = files_steps + path_views(sorted@).take(j + 1).map_values(
                |p: Seq<Seq<char>>| (p, true),
            );
            assert(lhs.len() == r@.len());
            assert(path_views(sorted@).len() == sorted@.len());
            assert(step_views(pre).len() == pre.len());
            assert(pre.len() == files_steps.len() + j);
            assert(rhs.len() == files_steps.len() + j + 1);
            assert forall|k: int| 0 <= k < lhs.len() implies lhs[k] == rhs[k] by {
                assert(k < files_steps.len() + j + 1);
                assert(j < sorted@.len());
                assert(lhs[k] == (r@[k].path@, r@[k].is_dir));
                if k < pre.len() {
                    assert(r@[k] == pre[k]);
                    assert(step_views(pre)[k] == (pre[k].path@, pre[k].is_dir));
                    if k >= files_steps.len() {
                        assert(path_views(sorted@).take(j as int)[k - files_steps.len()]
                            == path_views(sorted@)[k - files_steps.len()]);
                        assert(path_views(sorted@).take(j + 1)[k - files_steps.len()]
                            == path_views(sorted@)[k - files_steps.len()]);
                    }
                } else {
                    assert(r@[k].path@ == sorted@[j as int]@);
                    assert(path_views(sorted@).take(j + 1)[j as int] == path_views(
                        sorted@,
                    )[j as int]);
                    assert(path_views(sorted@)[j as int] == sorted@[j as int]@);
                }
            }
            assert(lhs =~= rhs);
        }
        j = j + 1;
    }
    proof {
        assert(path_views(sorted@).take(sorted@.len() as int) =~= path_views(sorted@));
        assert(step_views(r@) =~= scan_order(*scan));
    }
    r
}

/// The removal orders of a list of scans, in the order supplied.
pub open spec fn scans_order(scans: Seq<RuleScan>, i: int) -> Seq<(Seq<Seq<char>>, bool)>
    decreases scans.len() - i,
{
    if 0 <= i < scans.len() {
        scan_order(scans[i]) + scans_order(scans, i + 1)
    } else {
        Seq::empty()
    }
}

/// The removal plan for a whole apply run: each scan's removal order, scans
/// in the order supplied, never merged across scans.
pub fn removal_plan(scans: &Vec<RuleScan>) -> (r: Vec<RemovalStep>)
    ensures
        step_views(r@) == scans_order(scans@, 0),
{
    let mut r: Vec<RemovalStep> = Vec::new();
    let ghost mut done: Seq<(Seq<Seq<char>>, bool)> = Seq::empty();
    proof {
        assert(step_views(r@) =~= done);
        assert(done + scans_order(scans@, 0) =~= scans_order(scans@, 0));
    }
    let mut i: usize = 0;
    while i < scans.len()
        invariant
            i <= scans@.len(),
            step_views(r@) == done,
            done + scans_order(scans@, i as int) == scans_order(scans@, 0),
        decreases scans@.len() - i,
    {
        let mut steps = removal_order(&scans[i]);
        let ghost stepsv = step_views(steps@);
        let mut k: usize = 0;
        while k < steps.len()
            invariant
                k <= steps@.len(),
                stepsv == step_views(steps@),
                step_views(r@) =~= done + step_views(steps@).take(k as int),
            decreases steps@.len() - k,
        {
            let ghost pre = r@;
            r.push(RemovalStep { path: steps[k].path.clone(), is_dir: steps[k].is_dir });
            proof {
                let lhs = step_views(r@);
                let rhs = done + step_views(steps@).take(k + 1);
                assert(lhs.len() == r@.len());
                assert(step_views(steps@).len() == steps@.len());
                assert(step_views(pre).len() == pre.len());
                assert(pre.len() == done.len() + k);
                assert(rhs.len() == done.len() + k + 1);
                assert forall|m: int| 0 <= m < lhs.len() implies lhs[m] == rhs[m] by {
                    assert(m < done.len() + k + 1);
                    assert(k < steps@.len());
                    assert(lhs[m] == (r@[m].path@, r@[m].is_dir));
                    if m < pre.len() {
                        assert(r@[m] == pre[m]);
                        assert(step_views(pre)[m] == (pre[m].path@, pre[m].is_dir));
                        if m >= done.len() {
                            assert(step_views(steps@).take(k as int)[m - done.len()] == step_views(
                                steps@,
                            )[m - done.len()]);
                            assert(step_views(steps@).take(k + 1)[m - done.len()] == step_views(
                                steps@,
                            )[m - done.len()]);
                        }
                    } else {
                        assert(r@[m].path@ == steps@[k as int].path@);
                        assert(r@[m].is_dir == steps@[k as int].is_dir);
                        assert(step_views(steps@).take(k + 1)[k as int] == step_views(
                            steps@,
                        )[k as int]);
                        assert(step_views(steps@)[k as int] == (steps@[k as int].path@, steps@[k as int].is_dir));
                    }
                }
                assert(lhs =~= rhs);
            }
            k = k + 1;
        }
        proof {
            assert(step_views(steps@).take(steps@.len() as int) =~= step_views(steps@));
            assert(scans_order(scans@, i as int) == scan_order(scans@[i as int]) + scans_order(
                scans@,
                i + 1,
            ));
            assert((done + stepsv) + scans_order(scans@, i + 1) =~= done + (stepsv + scans_order(
                scans@,
                i + 1,
            )));
            done = done + stepsv;
        }
        i = i + 1;
    }
    proof {
        assert(done + Seq::<(Seq<Seq<char>>, bool)>::empty() =~= done);
    }
    r
}

// The aggregate counts of an apply run over the first `i` steps: how many
// files and directories were removed, the bytes freed by removed files, and
// how many attempts failed. A path already gone counts nowhere.
pub open spec fn files_removed_upto(steps: Seq<RemovalStep>, outs: Seq<RemovalOutcome>, i: int)
    -> int
    decreases i,
{
    if i <= 0 {
        0
    } else {
        files_removed_upto(steps, outs, i - 1) + (if !steps[i - 1].is_dir && outs[i
            - 1] is Removed {
            1int
        } else {
            0int
        })
    }
}

pub open spec fn dirs_removed_upto(steps: Seq<RemovalStep>, outs: Seq<RemovalOutcome>, i: int)
    -> int
    decreases i,
{
    if i <= 0 {
        0
    } else {
        dirs_removed_upto(steps, outs, i - 1) + (if steps[i - 1].is_dir && outs[i
            - 1] is Removed {
            1int
        } else {
            0int
        })
    }
}

pub open spec fn bytes_freed_upto(steps: Seq<RemovalStep>, outs: Seq<RemovalOutcome>, i: int)
    -> int
    decreases i,
{
    if i <= 0 {
        0
    } else {
        bytes_freed_upto(steps, outs, i - 1) + (match outs[i - 1] {
            RemovalOutcome::Removed { bytes } => if steps[i - 1].is_dir {
                0int
            } else {
                bytes as int
            },
            _ => 0int,
        })
    }
}

pub open spec fn errors_upto(outs: Seq<RemovalOutcome>, i: int) -> int
    decreases i,
{
    if i <= 0 {
        0
    } else {
        errors_upto(outs, i - 1) + (if outs[i - 1] is Failed {
            1int
        } else {
            0int
        })
    }
}

proof fn lemma_counts_bounded(steps: Seq<RemovalStep>, outs: Seq<RemovalOutcome>, i: int)
    requires
        i >= 0,
    ensures
        0 <= files_removed_upto(steps, outs, i) <= i,
        0 <= dirs_removed_upto(steps, outs, i) <= i,
        0 <= errors_upto(outs, i) <= i,
        0 <= bytes_freed_upto(steps, outs, i),
    decreases i,
{
    if i > 0 {
        lemma_counts_bounded(steps, outs, i - 1);
    }
}

/// Totals an apply run from the outcome of every step of its plan. A step
/// that found its path already gone adds nothing anywhere; any other
/// failure counts one error; byte totals saturate rather than overflow.
pub fn apply_report(steps: &Vec<RemovalStep>, outcomes: &Vec<RemovalOutcome>) -> (r: CleanReport)
    requires
        outcomes@.len() == steps@.len(),
    ensures
        r.files_removed == files_removed_upto(steps@, outcomes@, steps@.len() as int),
        r.dirs_removed == dirs_removed_upto(steps@, outcomes@, steps@.len() as int),
        r.bytes_freed == sat64(bytes_freed_upto(steps@, outcomes@, steps@.len() as int)),
        r.errors == errors_upto(outcomes@, steps@.len() as int),
{
    let mut report = CleanReport::default();
    let mut i: usize = 0;
    while i < steps.len()
        invariant
            i <= steps@.len(),
            outcomes@.len() == steps@.len(),
            report.files_removed == files_removed_upto(steps@, outcomes@, i as int),
            report.dirs_removed == dirs_removed_upto(steps@, outcomes@, i as int),
            report.bytes_freed == sat64(bytes_freed_upto(steps@, outcomes@, i as int)),
            report.errors == errors_upto(outcomes@, i as int),
        decreases steps@.len() - i,
    {
        proof {
            lemma_counts_bounded(steps@, outcomes@, i as int);
        }
        match &outcomes[i] {
            RemovalOutcome::Removed { bytes } => {
                if steps[i].is_dir {
                    report.dirs_removed = report.dirs_removed + 1;
                } else {
                    report.files_removed = report.files_removed + 1;
                    report.bytes_freed = report.bytes_freed.saturating_add(*bytes);
                }
            },
            RemovalOutcome::AlreadyGone => {},
            RemovalOutcome::Failed => {
                report.errors = report.errors + 1;
            },
        }
        i = i + 1;
    }
    report
}

/// Applying a stale plan is idempotent: when every path is already gone,
/// the report shows zero removals, zero bytes and zero errors.
pub proof fn law_apply_twice_idempotent(steps: Seq<RemovalStep>, outs: Seq<RemovalOutcome>, i: int)
    requires
        i >= 0,
        forall|j: int| 0 <= j < outs.len() ==> #[trigger] outs[j] is AlreadyGone,
        i <= outs.len(),
    ensures
        files_removed_upto(steps, outs, i) == 0,
        dirs_removed_upto(steps, outs, i) == 0,
        bytes_freed_upto(steps, outs, i) == 0,
        errors_upto(outs, i) == 0,
    decreases i,
{
    if i > 0 {
        law_apply_twice_idempotent(steps, outs, i - 1);
    }
}

} // verus!
