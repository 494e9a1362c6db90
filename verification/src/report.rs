use vstd::prelude::*;

use crate::config::RuleKind;
use crate::fspath::{is_prefix_of, join_parts, FsPath};
use crate::scan::{path_views, sat64, RuleScan};

verus! {

/// Counts mirroring the scans a dry run rendered, aggregated across all of
/// them.
#[derive(Debug)]
pub struct DryRunReport {
    pub files_listed: usize,
    pub dirs_listed: usize,
    pub bytes_listed: u64,
    pub errors: usize,
}

impl Default for DryRunReport {
    fn default() -> (r: Self)
        ensures
            r.files_listed == 0 && r.dirs_listed == 0 && r.bytes_listed == 0 && r.errors == 0,
    {
        DryRunReport { files_listed: 0, dirs_listed: 0, bytes_listed: 0, errors: 0 }
    }
}

/// A rendered dry run: the aggregate counts and the preview text.
#[derive(Debug)]
pub struct DryRunOutput {
    pub report: DryRunReport,
    pub details: String,
}

/// `n` clamped to what a `usize` can hold.
pub open spec fn sat_usize(n: int) -> usize {
    if n > usize::MAX {
        usize::MAX
    } else if n < 0 {
        0
    } else {
        n as usize
    }
}

/// One decimal digit.
pub open spec fn dec_digit(d: int) -> char {
    if d == 0 {
        '0'
    } else if d == 1 {
        '1'
    } else if d == 2 {
        '2'
    } else if d == 3 {
        '3'
    } else if d == 4 {
        '4'
    } else if d == 5 {
        '5'
    } else if d == 6 {
        '6'
    } else if d == 7 {
        '7'
    } else if d == 8 {
        '8'
    } else {
        '9'
    }
}

/// The decimal rendering of a number.
pub open spec fn dec_str(n: int) -> Seq<char>
    decreases n,
{
    if n < 10 {
        seq![dec_digit(n)]
    } else {
        dec_str(n / 10) + seq![dec_digit(n % 10)]
    }
}

fn digit_str(d: u64) -> (r: &'static str)
    requires
        d < 10,
    ensures
        r@ == seq![dec_digit(d as int)],
{
    proof {
        reveal_strlit("0");
        reveal_strlit("1");
        reveal_strlit("2");
        reveal_strlit("3");
        reveal_strlit("4");
        reveal_strlit("5");
        reveal_strlit("6");
        reveal_strlit("7");
        reveal_strlit("8");
        reveal_strlit("9");
    }
    if d == 0 {
        proof {
            assert("0"@ =~= seq![dec_digit(0)]);
        }
        "0"
    } else if d == 1 {
        proof {
            assert("1"@ =~= seq![dec_digit(1)]);
        }
        "1"
    } else if d == 2 {
        proof {
            assert("2"@ =~= seq![dec_digit(2)]);
        }
        "2"
    } else if d == 3 {
        proof {
            assert("3"@ =~= seq![dec_digit(3)]);
        }
        "3"
    } else if d == 4 {
        proof {
            assert("4"@ =~= seq![dec_digit(4)]);
        }
        "4"
    } else if d == 5 {
        proof {
            assert("5"@ =~= seq![dec_digit(5)]);
        }
        "5"
    } else if d == 6 {
        proof {
            assert("6"@ =~= seq![dec_digit(6)]);
        }
        "6"
    } else if d == 7 {
        proof {
            assert("7"@ =~= seq![dec_digit(7)]);
        }
        "7"
    } else if d == 8 {
        proof {
            assert("8"@ =~= seq![dec_digit(8)]);
        }
        "8"
    } else {
        proof {
            assert("9"@ =~= seq![dec_digit(9)]);
        }
        "9"
    }
}

/// Renders a number in decimal.
pub fn u64_dec(n: u64) -> (r: String)
    ensures
        r@ == dec_str(n as int),
    decreases n,
{
    if n < 10 {
        let mut s = String::new();
        s.append(digit_str(n));
        proof {
            assert(s@ =~= dec_str(n as int));
        }
        s
    } else {
        let mut s = u64_dec(n / 10);
        s.append(digit_str(n % 10));
        proof {
            assert(s@ =~= dec_str(n as int));
        }
        s
    }
}


/// `p` lies at or under one of `roots`.
pub open spec fn under_any(roots: Seq<Seq<Seq<char>>>, p: Seq<Seq<char>>) -> bool {
    exists|k: int| 0 <= k < roots.len() && is_prefix_of(#[trigger] roots[k], p)
}

/// `p` lies at or under one of `roots`.
pub fn path_is_under_any(path: &FsPath, roots: &Vec<FsPath>) -> (r: bool)
    ensures
        r == under_any(path_views(roots@), path@),
{
    let mut k: usize = 0;
    while k < roots.len()
        invariant
            k <= roots@.len(),
            forall|j: int| 0 <= j < k ==> !is_prefix_of(#[trigger] path_views(roots@)[j], path@),
        decreases roots@.len() - k,
    {
        if path.starts_with(&roots[k]) {
            proof {
                assert(path_views(roots@)[k as int] == roots@[k as int]@);
            }
            return true;
        }
        proof {
            assert(path_views(roots@)[k as int] == roots@[k as int]@);
        }
        k = k + 1;
    }
    false
}

/// Inserting a path into a shallow-first run: it goes after every path at
/// most as deep, keeping the order of equal depths.
pub open spec fn insert_asc(s: Seq<Seq<Seq<char>>>, x: Seq<Seq<char>>) -> Seq<Seq<Seq<char>>>
    decreases s.len(),
{
    if s.len() == 0 {
        seq![x]
    } else if s[0].len() <= x.len() {
        seq![s[0]] + insert_asc(s.drop_first(), x)
    } else {
        seq![x] + s
    }
}

/// The stable sort of paths by ascending depth.
pub open spec fn sort_asc(s: Seq<Seq<Seq<char>>>) -> Seq<Seq<Seq<char>>>
    decreases s.len(),
{
    if s.len() == 0 {
        s
    } else {
        insert_asc(sort_asc(s.drop_last()), s.last())
    }
}

proof fn lemma_insert_asc_at(s: Seq<Seq<Seq<char>>>, x: Seq<Seq<char>>, p: int)
    requires
        0 <= p <= s.len(),
        forall|j: int| 0 <= j < p ==> #[trigger] s[j].len() <= x.len(),
        p < s.len() ==> s[p].len() > x.len(),
    ensures
        insert_asc(s, x) == s.subrange(0, p) + seq![x] + s.subrange(p, s.len() as int),
    decreases p,
{
    if p == 0 {
        if s.len() == 0 {
            assert(insert_asc(s, x) =~= s.subrange(0, 0) + seq![x] + s.subrange(
                0,
                s.len() as int,
            ));
        } else {
            assert(s[0].len() > x.len());
            assert(insert_asc(s, x) =~= s.subrange(0, 0) + seq![x] + s.subrange(
                0,
                s.len() as int,
            ));
        }
    } else {
        assert(s[0].len() <= x.len());
        let t = s.drop_first();
        assert(forall|j: int| 0 <= j < p - 1 ==> #[trigger] t[j].len() <= x.len());
        lemma_insert_asc_at(t, x, p - 1);
        assert(insert_asc(s, x) =~= s.subrange(0, p) + seq![x] + s.subrange(p, s.len() as int));
    }
}

/// Sorts paths shallowest first, stably.
fn sort_paths_shallowest_first(dirs: &Vec<FsPath>) -> (r: Vec<FsPath>)
    ensures
        path_views(r@) == sort_asc(path_views(dirs@)),
{
    let mut r: Vec<FsPath> = Vec::new();
    proof {
        assert(path_views(r@) =~= sort_asc(path_views(dirs@).take(0)));
    }
    let mut i: usize = 0;
    while i < dirs.len()
        invariant
            i <= dirs@.len(),
            path_views(r@) == sort_asc(path_views(dirs@).take(i as int)),
        decreases dirs@.len() - i,
    {
        let x = dirs[i].clone();
        let mut p: usize = 0;
        while p < r.len() && r[p].parts.len() <= x.parts.len()
            invariant
                p <= r@.len(),
                forall|j: int| 0 <= j < p ==> #[trigger] path_views(r@)[j].len() <= x@.len(),
            decreases r@.len() - p,
        {
            proof {
                assert(path_views(r@)[p as int] == r@[p as int]@);
            }
            p = p + 1;
        }
        let ghost pre = r@;
        let ghost pos = p as int;
        proof {
            if pos < pre.len() {
                assert(path_views(pre)[pos] == pre[pos]@);
            }
            lemma_insert_asc_at(path_views(pre), x@, pos);
        }
        r.insert(p, x);
        proof {
            assert(path_views(r@) =~= path_views(pre).subrange(0, pos) + seq![x@] + path_views(
                pre,
            ).subrange(pos, pre.len() as int));
            assert(path_views(r@) =~= insert_asc(path_views(pre), x@));
            let fullpre = path_views(dirs@).take(i as int);
            let full = path_views(dirs@).take(i + 1);
            assert(full.drop_last() =~= fullpre);
            assert(full.last() == dirs@[i as int]@);
            assert(path_views(r@) =~= sort_asc(full));
        }
        i = i + 1;
    }
    proof {
        assert(path_views(dirs@).take(dirs@.len() as int) =~= path_views(dirs@));
    }
    r
}

/// Walking the depth-sorted directories, keeping each one not already under
/// a kept one.
pub open spec fn summarize_from(
    s: Seq<Seq<Seq<char>>>,
    i: int,
    kept: Seq<Seq<Seq<char>>>,
) -> Seq<Seq<Seq<char>>>
    decreases s.len() - i,
{
    if 0 <= i < s.len() {
        if under_any(kept, s[i]) {
            summarize_from(s, i + 1, kept)
        } else {
            summarize_from(s, i + 1, kept.push(s[i]))
        }
    } else {
        kept
    }
}

/// The minimal set of top-level directories: sorted shallowest first, then
/// every directory already nested under a kept one dropped.
pub open spec fn summarize_views(dirs: Seq<Seq<Seq<char>>>) -> Seq<Seq<Seq<char>>> {
    summarize_from(sort_asc(dirs), 0, Seq::empty())
}

/// Reduces a Downloads scan's recorded directories to the top-level ones:
/// any directory nested under another recorded directory is dropped.
pub fn summarize_download_dirs(dirs: &Vec<FsPath>) -> (r: Vec<FsPath>)
    ensures
        path_views(r@) == summarize_views(path_views(dirs@)),
{
    let sorted = sort_paths_shallowest_first(dirs);
    let ghost sv = path_views(sorted@);
    let mut top: Vec<FsPath> = Vec::new();
    proof {
        assert(path_views(top@) =~= Seq::<Seq<Seq<char>>>::empty());
    }
    let mut i: usize = 0;
    while i < sorted.len()
        invariant
            i <= sorted@.len(),
            sv == path_views(sorted@),
            summarize_from(sv, i as int, path_views(top@)) == summarize_from(
                sv,
                0,
                Seq::empty(),
            ),
        decreases sorted@.len() - i,
    {
        proof {
            assert(sv[i as int] == sorted@[i as int]@);
        }
        if !path_is_under_any(&sorted[i], &top) {
            let ghost pre = top@;
            top.push(sorted[i].clone());
            proof {
                assert(path_views(top@) =~= path_views(pre).push(sorted@[i as int]@));
            }
        }
        i = i + 1;
    }
    top
}

// The rendered preview text, one piece at a time: the two header lines,
// then for each scan its rule line, its entries (with Downloads-folder
// summarization), and its errors.
pub open spec fn nl() -> Seq<char> {
    seq!['\n']
}

pub open spec fn file_lines(fs: Seq<Seq<Seq<char>>>, i: int) -> Seq<char>
    decreases fs.len() - i,
{
    if 0 <= i < fs.len() {
        "  file: "@ + join_parts(fs[i]) + nl() + file_lines(fs, i + 1)
    } else {
        Seq::empty()
    }
}

pub open spec fn dir_lines(ds: Seq<Seq<Seq<char>>>, i: int) -> Seq<char>
    decreases ds.len() - i,
{
    if 0 <= i < ds.len() {
        "  dir: "@ + join_parts(ds[i]) + nl() + dir_lines(ds, i + 1)
    } else {
        Seq::empty()
    }
}

/// File lines with everything nested under a summarized directory left out.
pub open spec fn file_lines_excl(
    fs: Seq<Seq<Seq<char>>>,
    i: int,
    summ: Seq<Seq<Seq<char>>>,
) -> Seq<char>
    decreases fs.len() - i,
{
    if 0 <= i < fs.len() {
        (if under_any(summ, fs[i]) {
            Seq::<char>::empty()
        } else {
            "  file: "@ + join_parts(fs[i]) + nl()
        }) + file_lines_excl(fs, i + 1, summ)
    } else {
        Seq::empty()
    }
}

/// How many of the first `i` files are suppressed under a summarized
/// directory.
pub open spec fn suppressed_upto(fs: Seq<Seq<Seq<char>>>, i: int, summ: Seq<Seq<Seq<char>>>) -> int
    decreases i,
{
    if i <= 0 {
        0
    } else {
        suppressed_upto(fs, i - 1, summ) + (if under_any(summ, fs[i - 1]) {
            1int
        } else {
            0int
        })
    }
}

pub open spec fn error_lines(msgs: Seq<Seq<char>>, i: int) -> Seq<char>
    decreases msgs.len() - i,
{
    if 0 <= i < msgs.len() {
        "  error: "@ + msgs[i] + nl() + error_lines(msgs, i + 1)
    } else {
        Seq::empty()
    }
}

/// The entry listing of one scan.
pub open spec fn scan_body_text(scan: RuleScan) -> Seq<char> {
    if scan.files@.len() == 0 && scan.dirs@.len() == 0 {
        "  (no entries)"@ + nl()
    } else if scan.rule.kind is Downloads {
        let summ = summarize_views(scan.dir_views());
        if summ.len() == 0 {
            file_lines(scan.file_views(), 0) + dir_lines(scan.dir_views(), 0)
        } else {
            file_lines_excl(scan.file_views(), 0, summ) + dir_lines(summ, 0) + (if suppressed_upto(
                scan.file_views(),
                scan.file_views().len() as int,
                summ,
            ) > 0 {
                "  (contents omitted for Downloads folders)"@ + nl()
            } else {
                Seq::<char>::empty()
            })
        }
    } else {
        file_lines(scan.file_views(), 0) + dir_lines(scan.dir_views(), 0)
    }
}

/// Everything one scan contributes to the preview text.
pub open spec fn scan_text(scan: RuleScan) -> Seq<char> {
    "Rule: "@ + scan.rule.label@ + " ("@ + scan.rule.id@ + ")"@ + nl() + scan_body_text(scan) + (
    if scan.error_messages@.len() > 0 {
        "  errors: "@ + dec_str(scan.errors as int) + nl() + error_lines(scan.error_views(), 0)
    } else {
        Seq::<char>::empty()
    })
}

pub open spec fn scans_text(scans: Seq<RuleScan>, i: int) -> Seq<char>
    decreases scans.len() - i,
{
    if 0 <= i < scans.len() {
        scan_text(scans[i]) + scans_text(scans, i + 1)
    } else {
        Seq::empty()
    }
}

/// The whole preview text.
pub open spec fn dry_run_text(scans: Seq<RuleScan>) -> Seq<char> {
    "Dry-run details (no files will be deleted):"@ + nl()
        + "Note: directories are only removed if empty after file removal."@ + nl() + scans_text(
        scans,
        0,
    )
}

// The aggregate counts over the first `i` scans.
pub open spec fn files_listed_upto(scans: Seq<RuleScan>, i: int) -> int
    decreases i,
{
    if i <= 0 {
        0
    } else {
        files_listed_upto(scans, i - 1) + scans[i - 1].files@.len()
    }
}

pub open spec fn dirs_listed_upto(scans: Seq<RuleScan>, i: int) -> int
    decreases i,
{
    if i <= 0 {
        0
    } else {
        dirs_listed_upto(scans, i - 1) + scans[i - 1].dirs@.len()
    }
}

pub open spec fn bytes_listed_upto(scans: Seq<RuleScan>, i: int) -> int
    decreases i,
{
    if i <= 0 {
        0
    } else {
        bytes_listed_upto(scans, i - 1) + scans[i - 1].bytes
    }
}

pub open spec fn errors_listed_upto(scans: Seq<RuleScan>, i: int) -> int
    decreases i,
{
    if i <= 0 {
        0
    } else {
        errors_listed_upto(scans, i - 1) + scans[i - 1].errors
    }
}

proof fn lemma_listed_nonneg(scans: Seq<RuleScan>, i: int)
    requires
        i >= 0,
    ensures
        files_listed_upto(scans, i) >= 0,
        dirs_listed_upto(scans, i) >= 0,
        bytes_listed_upto(scans, i) >= 0,
        errors_listed_upto(scans, i) >= 0,
    decreases i,
{
    if i > 0 {
        lemma_listed_nonneg(scans, i - 1);
    }
}


/// Appends one `prefix path\n` line.
fn append_path_line(s: &mut String, prefix: &'static str, p: &FsPath)
    ensures
        final(s)@ == old(s)@ + (prefix@ + join_parts(p@) + nl()),
{
    s.append(prefix);
    let rendered = p.render();
    s.append(rendered.as_str());
    s.append("\n");
    proof {
        reveal_strlit("\n");
        assert("\n"@ =~= nl());
        assert(s@ =~= old(s)@ + (prefix@ + join_parts(p@) + nl()));
    }
}

/// Appends the entry listing of one scan.
#[verifier::rlimit(30)]
fn append_scan_body(details: &mut String, scan: &RuleScan)
    ensures
        final(details)@ == old(details)@ + scan_body_text(*scan),
{
    let ghost t1 = details@;
    if scan.files.len() == 0 && scan.dirs.len() == 0 {
        details.append("  (no entries)");
        details.append("\n");
        proof {
            reveal_strlit("\n");
            assert("\n"@ =~= nl());
            assert(details@ =~= t1 + scan_body_text(*scan));
        }
    } else if scan.rule.kind == RuleKind::Downloads {
        let summary_dirs = summarize_download_dirs(&scan.dirs);
        let ghost summ = path_views(summary_dirs@);
        proof {
            assert(summ == summarize_views(scan.dir_views()));
        }
        if summary_dirs.len() == 0 {
            append_file_lines(details, &scan.files);
            append_dir_lines(details, &scan.dirs);
            proof {
                assert(t1 + (file_lines(scan.file_views(), 0) + dir_lines(scan.dir_views(), 0))
                    =~= (t1 + file_lines(scan.file_views(), 0)) + dir_lines(scan.dir_views(), 0));
                assert(details@ =~= t1 + scan_body_text(*scan));
            }
        } else {
            let suppressed = append_file_lines_excl(details, &scan.files, &summary_dirs);
            append_dir_lines(details, &summary_dirs);
            let ghost t3 = details@;
            if suppressed > 0 {
                details.append("  (contents omitted for Downloads folders)");
                details.append("\n");
            }
            proof {
                reveal_strlit("\n");
                assert("\n"@ =~= nl());
                let fv = scan.file_views();
                let omitted: Seq<char> = if suppressed_upto(fv, fv.len() as int, summ) > 0 {
                    "  (contents omitted for Downloads folders)"@ + nl()
                } else {
                    Seq::<char>::empty()
                };
                assert(details@ =~= t3 + omitted);
                assert(details@ =~= ((t1 + file_lines_excl(fv, 0, summ)) + dir_lines(summ, 0))
                    + omitted);
                assert(details@ =~= t1 + (file_lines_excl(fv, 0, summ) + dir_lines(summ, 0)
                    + omitted));
                assert(details@ =~= t1 + scan_body_text(*scan));
            }
        }
    } else {
        append_file_lines(details, &scan.files);
        append_dir_lines(details, &scan.dirs);
        proof {
            assert(t1 + (file_lines(scan.file_views(), 0) + dir_lines(scan.dir_views(), 0)) =~= (t1
                + file_lines(scan.file_views(), 0)) + dir_lines(scan.dir_views(), 0));
            assert(details@ =~= t1 + scan_body_text(*scan));
        }
    }
}

/// Appends one `  file: …` line per path.
fn append_file_lines(details: &mut String, files: &Vec<FsPath>)
    ensures
        final(details)@ == old(details)@ + file_lines(path_views(files@), 0),
{
    let ghost fv = path_views(files@);
    let ghost fb = details@;
    let mut k: usize = 0;
    while k < files.len()
        invariant
            k <= files@.len(),
            fv == path_views(files@),
            details@ + file_lines(fv, k as int) == fb + file_lines(fv, 0),
        decreases files@.len() - k,
    {
        let ghost pre = details@;
        append_path_line(details, "  file: ", &files[k]);
        proof {
            assert(fv[k as int] == files@[k as int]@);
            let line = "  file: "@ + join_parts(fv[k as int]) + nl();
            assert(file_lines(fv, k as int) == line + file_lines(fv, k + 1));
            assert((pre + line) + file_lines(fv, k + 1) =~= pre + (line + file_lines(fv, k + 1)));
        }
        k = k + 1;
    }
    proof {
        assert(details@ + Seq::<char>::empty() =~= details@);
    }
}

/// Appends one `  dir: …` line per path.
fn append_dir_lines(details: &mut String, dirs: &Vec<FsPath>)
    ensures
        final(details)@ == old(details)@ + dir_lines(path_views(dirs@), 0),
{
    let ghost dv = path_views(dirs@);
    let ghost db = details@;
    let mut m: usize = 0;
    while m < dirs.len()
        invariant
            m <= dirs@.len(),
            dv == path_views(dirs@),
            details@ + dir_lines(dv, m as int) == db + dir_lines(dv, 0),
        decreases dirs@.len() - m,
    {
        let ghost pre = details@;
        append_path_line(details, "  dir: ", &dirs[m]);
        proof {
            assert(dv[m as int] == dirs@[m as int]@);
            let line = "  dir: "@ + join_parts(dv[m as int]) + nl();
            assert(dir_lines(dv, m as int) == line + dir_lines(dv, m + 1));
            assert((pre + line) + dir_lines(dv, m + 1) =~= pre + (line + dir_lines(dv, m + 1)));
        }
        m = m + 1;
    }
    proof {
        assert(details@ + Seq::<char>::empty() =~= details@);
    }
}

/// Appends a `  file: …` line per path not nested under a summarized
/// directory, and counts the suppressed ones.
fn append_file_lines_excl(details: &mut String, files: &Vec<FsPath>, summary_dirs: &Vec<FsPath>)
    -> (suppressed: usize)
    ensures
        final(details)@ == old(details)@ + file_lines_excl(
            path_views(files@),
            0,
            path_views(summary_dirs@),
        ),
        suppressed == suppressed_upto(
            path_views(files@),
            files@.len() as int,
            path_views(summary_dirs@),
        ),
{
    let ghost fv = path_views(files@);
    let ghost summ = path_views(summary_dirs@);
    let ghost fb = details@;
    let mut suppressed: usize = 0;
    let mut k: usize = 0;
    while k < files.len()
        invariant
            k <= files@.len(),
            fv == path_views(files@),
            summ == path_views(summary_dirs@),
            suppressed == suppressed_upto(fv, k as int, summ),
            suppressed <= k,
            details@ + file_lines_excl(fv, k as int, summ) == fb + file_lines_excl(fv, 0, summ),
        decreases files@.len() - k,
    {
        proof {
            assert(fv[k as int] == files@[k as int]@);
        }
        if path_is_under_any(&files[k], summary_dirs) {
            suppressed = suppressed + 1;
            proof {
                assert(file_lines_excl(fv, k as int, summ) == Seq::<char>::empty()
                    + file_lines_excl(fv, k + 1, summ));
                assert(Seq::<char>::empty() + file_lines_excl(fv, k + 1, summ) =~= file_lines_excl(
                    fv,
                    k + 1,
                    summ,
                ));
            }
        } else {
            let ghost pre = details@;
            append_path_line(details, "  file: ", &files[k]);
            proof {
                let line = "  file: "@ + join_parts(fv[k as int]) + nl();
                assert(file_lines_excl(fv, k as int, summ) == line + file_lines_excl(
                    fv,
                    k + 1,
                    summ,
                ));
                assert((pre + line) + file_lines_excl(fv, k + 1, summ) =~= pre + (line
                    + file_lines_excl(fv, k + 1, summ)));
            }
        }
        k = k + 1;
    }
    proof {
        assert(details@ + Seq::<char>::empty() =~= details@);
    }
    suppressed
}

/// Appends everything one scan contributes to the preview text.
#[verifier::rlimit(30)]
fn append_scan_text(details: &mut String, scan: &RuleScan)
    ensures
        final(details)@ == old(details)@ + scan_text(*scan),
{
    let ghost t0 = details@;
    details.append("Rule: ");
    details.append(scan.rule.label.as_str());
    details.append(" (");
    details.append(scan.rule.id.as_str());
    details.append(")");
    details.append("\n");
    proof {
        reveal_strlit("\n");
        assert("\n"@ =~= nl());
        assert(details@ =~= t0 + ("Rule: "@ + scan.rule.label@ + " ("@ + scan.rule.id@ + ")"@
            + nl()));
    }
    let ghost t1 = details@;
    append_scan_body(details, scan);
    let ghost t2 = details@;
    proof {
        assert(t2 =~= t1 + scan_body_text(*scan));
    }
    if scan.error_messages.len() > 0 {
        details.append("  errors: ");
        let count = u64_dec(scan.errors as u64);
        details.append(count.as_str());
        details.append("\n");
        proof {
            reveal_strlit("\n");
            assert("\n"@ =~= nl());
        }
        let ghost eb = details@;
        proof {
            assert(eb =~= t2 + ("  errors: "@ + dec_str(scan.errors as int) + nl()));
        }
        let ghost ev = scan.error_views();
        let mut m: usize = 0;
        while m < scan.error_messages.len()
            invariant
                m <= scan.error_messages@.len(),
                ev == scan.error_views(),
                details@ + error_lines(ev, m as int) == eb + error_lines(ev, 0),
            decreases scan.error_messages@.len() - m,
        {
            let ghost pre = details@;
            details.append("  error: ");
            details.append(scan.error_messages[m].as_str());
            details.append("\n");
            proof {
                reveal_strlit("\n");
                assert("\n"@ =~= nl());
                assert(ev[m as int] == scan.error_messages@[m as int]@);
                let line = "  error: "@ + ev[m as int] + nl();
                assert(details@ =~= pre + line);
                assert(error_lines(ev, m as int) == line + error_lines(ev, m + 1));
                assert((pre + line) + error_lines(ev, m + 1) =~= pre + (line + error_lines(
                    ev,
                    m + 1,
                )));
            }
            m = m + 1;
        }
        proof {
            assert(details@ + Seq::<char>::empty() =~= details@);
            assert(eb + Seq::<char>::empty() =~= eb);
            assert(details@ =~= t0 + scan_text(*scan));
        }
    } else {
        proof {
            assert(details@ + Seq::<char>::empty() =~= details@);
            assert(details@ =~= t0 + scan_text(*scan));
        }
    }
}

/// Renders every scan to the dry-run preview, accumulating the aggregate
/// counts; nothing is deleted. For a Downloads-kind scan whose recorded
/// directories summarize to top-level ones, files nested beneath them are
/// suppressed in favour of one line per directory and an omission note.
pub fn dry_run_output(scans: &Vec<RuleScan>) -> (r: DryRunOutput)
    ensures
        r.report.files_listed == sat_usize(files_listed_upto(scans@, scans@.len() as int)),
        r.report.dirs_listed == sat_usize(dirs_listed_upto(scans@, scans@.len() as int)),
        r.report.bytes_listed == sat64(bytes_listed_upto(scans@, scans@.len() as int)),
        r.report.errors == sat_usize(errors_listed_upto(scans@, scans@.len() as int)),
        r.details@ == dry_run_text(scans@),
{
    let mut report = DryRunReport::default();
    let mut details = String::new();
    details.append("Dry-run details (no files will be deleted):");
    details.append("\n");
    details.append("Note: directories are only removed if empty after file removal.");
    details.append("\n");
    let ghost header = details@;
    proof {
        reveal_strlit("\n");
        assert("\n"@ =~= nl());
        assert(header =~= "Dry-run details (no files will be deleted):"@ + nl()
            + "Note: directories are only removed if empty after file removal."@ + nl());
    }

    let mut i: usize = 0;
    while i < scans.len()
        invariant
            i <= scans@.len(),
            report.files_listed == sat_usize(files_listed_upto(scans@, i as int)),
            report.dirs_listed == sat_usize(dirs_listed_upto(scans@, i as int)),
            report.bytes_listed == sat64(bytes_listed_upto(scans@, i as int)),
            report.errors == sat_usize(errors_listed_upto(scans@, i as int)),
            header =~= "Dry-run details (no files will be deleted):"@ + nl()
                + "Note: directories are only removed if empty after file removal."@ + nl(),
            details@ + scans_text(scans@, i as int) == header + scans_text(scans@, 0),
        decreases scans@.len() - i,
    {
        let scan = &scans[i];
        let ghost t0 = details@;
        append_scan_text(&mut details, scan);
        report.files_listed = report.files_listed.saturating_add(scan.files.len());
        report.dirs_listed = report.dirs_listed.saturating_add(scan.dirs.len());
        report.bytes_listed = report.bytes_listed.saturating_add(scan.bytes);
        report.errors = report.errors.saturating_add(scan.errors);
        proof {
            lemma_listed_nonneg(scans@, i as int);
            assert(scans_text(scans@, i as int) == scan_text(scans@[i as int]) + scans_text(
                scans@,
                i + 1,
            ));
            assert((t0 + scan_text(scans@[i as int])) + scans_text(scans@, i + 1) =~= t0 + (
            scan_text(scans@[i as int]) + scans_text(scans@, i + 1)));
        }
        i = i + 1;
    }
    proof {
        assert(details@ + Seq::<char>::empty() =~= details@);
        assert(details@ =~= dry_run_text(scans@));
    }
    DryRunOutput { report, details }
}

/// The fixed path the dry-run report is persisted to, under the user's home
/// directory.
pub fn dry_run_report_path(home: &FsPath) -> (r: FsPath)
    ensures
        r@ == home@.push("vole-dry-run.txt"@),
{
    let name = "vole-dry-run.txt".to_owned();
    home.child(&name)
}

} // verus!
