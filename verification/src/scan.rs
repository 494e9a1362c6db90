use vstd::prelude::*;

use crate::config::{same_rule, Rule, RuleKind};
use crate::downloads::{downloads_scan_shape, scan_downloads_rule};
use crate::fspath::{str_views, FsPath};
use crate::fstree::RootSnapshot;
use crate::logs::{is_logs_scan, scan_logs_rule};
use crate::options::ScanOptions;
use crate::walk::{is_paths_scan, scan_paths_rule};

verus! {

/// The paths a sequence of `FsPath` values stands for.
pub open spec fn path_views(s: Seq<FsPath>) -> Seq<Seq<Seq<char>>> {
    s.map_values(|p: FsPath| p@)
}

/// The paths of a file model: each recorded file without its size.
pub open spec fn file_paths(m: Seq<(Seq<Seq<char>>, u64)>) -> Seq<Seq<Seq<char>>> {
    m.map_values(|e: (Seq<Seq<char>>, u64)| e.0)
}

/// The sum of the sizes of a file model.
pub open spec fn sum_sizes(m: Seq<(Seq<Seq<char>>, u64)>) -> int
    decreases m.len(),
{
    if m.len() == 0 {
        0
    } else {
        m[0].1 + sum_sizes(m.drop_first())
    }
}

/// `n` clamped to what a `u64` can hold: byte totals accumulate with
/// saturation rather than overflow.
pub open spec fn sat64(n: int) -> u64 {
    if n > u64::MAX {
        u64::MAX
    } else if n < 0 {
        0
    } else {
        n as u64
    }
}

pub proof fn lemma_sum_sizes_nonneg(m: Seq<(Seq<Seq<char>>, u64)>)
    ensures
        sum_sizes(m) >= 0,
    decreases m.len(),
{
    if m.len() > 0 {
        lemma_sum_sizes_nonneg(m.drop_first());
    }
}

pub proof fn lemma_sum_sizes_app(a: Seq<(Seq<Seq<char>>, u64)>, b: Seq<(Seq<Seq<char>>, u64)>)
    ensures
        sum_sizes(a + b) == sum_sizes(a) + sum_sizes(b),
    decreases a.len(),
{
    if a.len() == 0 {
        assert(a + b =~= b);
    } else {
        assert((a + b).drop_first() =~= a.drop_first() + b);
        lemma_sum_sizes_app(a.drop_first(), b);
    }
}

/// The result of evaluating one rule against the filesystem: what would be
/// (or was) cleaned, its size, and the troubles met on the way.
#[derive(Debug)]
pub struct RuleScan {
    pub rule: Rule,
    pub bytes: u64,
    pub entries: usize,
    pub files: Vec<FsPath>,
    pub dirs: Vec<FsPath>,
    pub errors: usize,
    pub error_messages: Vec<String>,
}

impl RuleScan {
    /// The entry count always counts the recorded files, and the error count
    /// the recorded messages.
    pub open spec fn wf(&self) -> bool {
        self.entries == self.files@.len() && self.errors == self.error_messages@.len()
    }

    pub open spec fn file_views(&self) -> Seq<Seq<Seq<char>>> {
        path_views(self.files@)
    }

    pub open spec fn dir_views(&self) -> Seq<Seq<Seq<char>>> {
        path_views(self.dirs@)
    }

    pub open spec fn error_views(&self) -> Seq<Seq<char>> {
        str_views(self.error_messages@)
    }

    /// An empty scan for `rule`.
    pub fn new(rule: &Rule) -> (r: RuleScan)
        ensures
            r.wf(),
            same_rule(r.rule, *rule),
            r.bytes == 0,
            r.file_views() =~= Seq::<Seq<Seq<char>>>::empty(),
            r.dir_views() =~= Seq::<Seq<Seq<char>>>::empty(),
            r.error_views() =~= Seq::<Seq<char>>::empty(),
    {
        let r = RuleScan {
            rule: rule.clone(),
            bytes: 0,
            entries: 0,
            files: Vec::new(),
            dirs: Vec::new(),
            errors: 0,
            error_messages: Vec::new(),
        };
        proof {
            assert(r.file_views() =~= Seq::<Seq<Seq<char>>>::empty());
            assert(r.dir_views() =~= Seq::<Seq<Seq<char>>>::empty());
            assert(r.error_views() =~= Seq::<Seq<char>>::empty());
        }
        r
    }
}

/// Copies a vector of paths, keeping the paths they stand for.
pub fn clone_paths(v: &Vec<FsPath>) -> (r: Vec<FsPath>)
    ensures
        path_views(r@) == path_views(v@),
{
    let mut r: Vec<FsPath> = Vec::new();
    let mut i: usize = 0;
    while i < v.len()
        invariant
            i <= v.len(),
            path_views(r@) == path_views(v@).take(i as int),
        decreases v.len() - i,
    {
        let ghost pre = r@;
        r.push(v[i].clone());
        proof {
            assert(path_views(v@)[i as int] == v@[i as int]@);
            assert(path_views(r@).len() == r@.len());
            assert(path_views(v@).len() == v@.len());
            assert(path_views(pre).len() == pre.len());
            assert(r@.len() == pre.len() + 1);
            assert(pre.len() == i);
            assert forall|k: int| 0 <= k < r@.len() implies #[trigger] path_views(r@)[k]
                == path_views(v@).take(i + 1)[k] by {
                if k < pre.len() {
                    assert(r@[k] == pre[k]);
                    assert(path_views(pre)[k] == pre[k]@);
                } else {
                    assert(r@[k]@ == v@[i as int]@);
                }
            }
            assert(path_views(r@) =~= path_views(v@).take(i + 1));
        }
        i = i + 1;
    }
    proof {
        assert(path_views(v@).take(v@.len() as int) =~= path_views(v@));
    }
    r
}

impl Clone for RuleScan {
    fn clone(&self) -> (r: Self)
        ensures
            same_rule(r.rule, self.rule),
            r.bytes == self.bytes,
            r.entries == self.entries,
            r.errors == self.errors,
            r.file_views() == self.file_views(),
            r.dir_views() == self.dir_views(),
            r.error_views() == self.error_views(),
    {
        let r = RuleScan {
            rule: self.rule.clone(),
            bytes: self.bytes,
            entries: self.entries,
            files: clone_paths(&self.files),
            dirs: clone_paths(&self.dirs),
            errors: self.errors,
            error_messages: crate::fspath::clone_strings(&self.error_messages),
        };
        r
    }
}

/// `post` is `pre` extended by the files `fs` (whose sizes joined the byte
/// total, saturating), the directories `ds` and the error messages `es`, with
/// nothing else changed.
pub open spec fn scan_extends(
    post: RuleScan,
    pre: RuleScan,
    fs: Seq<(Seq<Seq<char>>, u64)>,
    ds: Seq<Seq<Seq<char>>>,
    es: Seq<Seq<char>>,
) -> bool {
    &&& post.wf()
    &&& post.rule == pre.rule
    &&& post.file_views() == pre.file_views() + file_paths(fs)
    &&& post.bytes == sat64(pre.bytes + sum_sizes(fs))
    &&& post.dir_views() == pre.dir_views() + ds
    &&& post.error_views() == pre.error_views() + es
}

/// Extension steps compose: two in sequence make one with the models joined.
pub proof fn lemma_scan_extends_trans(
    c: RuleScan,
    b: RuleScan,
    a: RuleScan,
    f1: Seq<(Seq<Seq<char>>, u64)>,
    d1: Seq<Seq<Seq<char>>>,
    e1: Seq<Seq<char>>,
    f2: Seq<(Seq<Seq<char>>, u64)>,
    d2: Seq<Seq<Seq<char>>>,
    e2: Seq<Seq<char>>,
)
    requires
        scan_extends(b, a, f1, d1, e1),
        scan_extends(c, b, f2, d2, e2),
    ensures
        scan_extends(c, a, f1 + f2, d1 + d2, e1 + e2),
{
    lemma_sum_sizes_app(f1, f2);
    lemma_sum_sizes_nonneg(f1);
    lemma_sum_sizes_nonneg(f2);
    assert(file_paths(f1 + f2) =~= file_paths(f1) + file_paths(f2));
    assert(c.file_views() =~= a.file_views() + file_paths(f1 + f2));
    assert(c.dir_views() =~= a.dir_views() + (d1 + d2));
    assert(c.error_views() =~= a.error_views() + (e1 + e2));
}

/// A step that adds nothing extends by empty models.
pub proof fn lemma_scan_extends_refl(s: RuleScan)
    requires
        s.wf(),
    ensures
        scan_extends(
            s,
            s,
            Seq::<(Seq<Seq<char>>, u64)>::empty(),
            Seq::<Seq<Seq<char>>>::empty(),
            Seq::<Seq<char>>::empty(),
        ),
{
    assert(file_paths(Seq::<(Seq<Seq<char>>, u64)>::empty()) =~= Seq::<Seq<Seq<char>>>::empty());
    assert(s.file_views() + Seq::<Seq<Seq<char>>>::empty() =~= s.file_views());
    assert(s.dir_views() + Seq::<Seq<Seq<char>>>::empty() =~= s.dir_views());
    assert(s.error_views() + Seq::<Seq<char>>::empty() =~= s.error_views());
}

impl RuleScan {
    /// Records one file with its size.
    pub fn push_file(&mut self, path: FsPath, size: u64)
        requires
            old(self).wf(),
        ensures
            scan_extends(
                *final(self),
                *old(self),
                seq![(path@, size)],
                Seq::<Seq<Seq<char>>>::empty(),
                Seq::<Seq<char>>::empty(),
            ),
    {
        let ghost p = path@;
        self.files.push(path);
        self.entries = self.files.len();
        self.bytes = self.bytes.saturating_add(size);
        proof {
            let m = seq![(p, size)];
            assert(m.drop_first() =~= Seq::<(Seq<Seq<char>>, u64)>::empty());
            assert(sum_sizes(m.drop_first()) == 0);
            assert(sum_sizes(m) == size);
            assert(self.file_views() =~= old(self).file_views() + file_paths(m));
            assert(self.dir_views() =~= old(self).dir_views() + Seq::<Seq<Seq<char>>>::empty());
            assert(self.error_views() =~= old(self).error_views() + Seq::<Seq<char>>::empty());
        }
    }

    /// Records one directory.
    pub fn push_dir(&mut self, path: FsPath)
        requires
            old(self).wf(),
        ensures
            scan_extends(
                *final(self),
                *old(self),
                Seq::<(Seq<Seq<char>>, u64)>::empty(),
                seq![path@],
                Seq::<Seq<char>>::empty(),
            ),
    {
        let ghost p = path@;
        self.dirs.push(path);
        proof {
            assert(file_paths(Seq::<(Seq<Seq<char>>, u64)>::empty()) =~= Seq::<
                Seq<Seq<char>>,
            >::empty());
            assert(self.file_views() =~= old(self).file_views() + file_paths(
                Seq::<(Seq<Seq<char>>, u64)>::empty(),
            ));
            assert(self.dir_views() =~= old(self).dir_views() + seq![p]);
            assert(self.error_views() =~= old(self).error_views() + Seq::<Seq<char>>::empty());
        }
    }
}

/// Counts one recoverable trouble and keeps its description.
pub fn record_error(scan: &mut RuleScan, message: String)
    requires
        old(scan).wf(),
    ensures
        scan_extends(
            *final(scan),
            *old(scan),
            Seq::<(Seq<Seq<char>>, u64)>::empty(),
            Seq::<Seq<Seq<char>>>::empty(),
            seq![message@],
        ),
{
    let ghost m = message@;
    scan.error_messages.push(message);
    scan.errors = scan.error_messages.len();
    proof {
        assert(file_paths(Seq::<(Seq<Seq<char>>, u64)>::empty()) =~= Seq::<Seq<Seq<char>>>::empty());
        assert(scan.file_views() =~= old(scan).file_views() + file_paths(
            Seq::<(Seq<Seq<char>>, u64)>::empty(),
        ));
        assert(scan.dir_views() =~= old(scan).dir_views() + Seq::<Seq<Seq<char>>>::empty());
        assert(scan.error_views() =~= old(scan).error_views() + seq![m]);
    }
}


/// What `scan_rule` promises of its result, by the rule's kind.
pub open spec fn rule_scan_matches(
    scan: RuleScan,
    rule: Rule,
    options: ScanOptions,
    roots: Seq<RootSnapshot>,
) -> bool {
    &&& scan.wf()
    &&& same_rule(scan.rule, rule)
    &&& (rule.kind is Paths ==> is_paths_scan(scan, rule, roots))
    &&& (rule.kind is Downloads ==> downloads_scan_shape(scan, roots, options.downloads_choice))
    &&& (rule.kind is Logs ==> is_logs_scan(scan, rule, roots, options.now_secs))
}

/// Routes a rule to the discovery strategy its kind asks for. `roots` holds
/// one snapshot per expanded root path of the rule.
pub fn scan_rule(rule: &Rule, options: &ScanOptions, roots: &Vec<RootSnapshot>) -> (r: RuleScan)
    ensures
        rule_scan_matches(r, *rule, *options, roots@),
{
    match rule.kind {
        RuleKind::Paths => scan_paths_rule(rule, roots),
        RuleKind::Downloads => scan_downloads_rule(rule, options.downloads_choice, roots),
        RuleKind::Logs => scan_logs_rule(rule, roots, options.now_secs),
    }
}

/// Scans every rule in order; `roots` holds, for each rule, one snapshot per
/// expanded root path.
pub fn scan_rules(rules: &Vec<Rule>, options: &ScanOptions, roots: &Vec<Vec<RootSnapshot>>) -> (r:
    Vec<RuleScan>)
    requires
        roots@.len() == rules@.len(),
    ensures
        r@.len() == rules@.len(),
        forall|i: int|
            0 <= i < r@.len() ==> rule_scan_matches(
                #[trigger] r@[i],
                rules@[i],
                *options,
                roots@[i]@,
            ),
{
    let mut r: Vec<RuleScan> = Vec::new();
    let mut i: usize = 0;
    while i < rules.len()
        invariant
            i <= rules@.len(),
            roots@.len() == rules@.len(),
            r@.len() == i,
            forall|k: int|
                0 <= k < i ==> rule_scan_matches(#[trigger] r@[k], rules@[k], *options, roots@[k]@),
        decreases rules@.len() - i,
    {
        let scan = scan_rule(&rules[i], options, &roots[i]);
        r.push(scan);
        i = i + 1;
    }
    r
}

} // verus!
