use vstd::prelude::*;

use crate::ascii::begins_with;
use crate::fspath::{str_views, FsPath};

verus! {

#[verifier::external_type_specification]
#[verifier::external_body]
pub struct ExGlob(globset::Glob);

#[verifier::external_type_specification]
#[verifier::external_body]
pub struct ExGlobSetBuilder(globset::GlobSetBuilder);

#[verifier::external_type_specification]
#[verifier::external_body]
pub struct ExGlobSet(globset::GlobSet);

/// The pattern text a compiled `globset::Glob` was made from.
pub uninterp spec fn glob_pattern(g: globset::Glob) -> Seq<char>;

/// The patterns a `globset::GlobSetBuilder` holds, in the order they were
/// added.
pub uninterp spec fn builder_patterns(b: globset::GlobSetBuilder) -> Seq<Seq<char>>;

/// The patterns a compiled `globset::GlobSet` was built from.
pub uninterp spec fn globset_patterns(s: globset::GlobSet) -> Seq<Seq<char>>;

/// Whether one glob pattern matches a path given by its components: the
/// matching relation `globset` computes, a function of the two texts alone.
/// The engine only ever asks about clean root-relative component lists, in
/// which no component holds a separator.
pub uninterp spec fn glob_matches(pattern: Seq<char>, rel: Seq<Seq<char>>) -> bool;

/// Whether one glob pattern fails to parse: `globset` decides this from the
/// pattern text alone, identically on every machine.
pub uninterp spec fn glob_parse_err(p: Seq<char>) -> bool;

/// Whether building a matcher from the given (already parsed) patterns
/// fails: again a function of the pattern texts alone.
pub uninterp spec fn globset_build_err(pats: Seq<Seq<char>>) -> bool;

/// The patterns from `i` on that parse, in order.
pub open spec fn parsed_patterns(patterns: Seq<String>, i: int) -> Seq<Seq<char>>
    decreases patterns.len() - i,
{
    if 0 <= i < patterns.len() {
        (if glob_parse_err(patterns[i]@) {
            Seq::<Seq<char>>::empty()
        } else {
            seq![patterns[i]@]
        }) + parsed_patterns(patterns, i + 1)
    } else {
        Seq::empty()
    }
}

/// The patterns from `i` on that fail to parse, in order.
pub open spec fn failing_patterns(patterns: Seq<String>, i: int) -> Seq<Seq<char>>
    decreases patterns.len() - i,
{
    if 0 <= i < patterns.len() {
        (if glob_parse_err(patterns[i]@) {
            seq![patterns[i]@]
        } else {
            Seq::<Seq<char>>::empty()
        }) + failing_patterns(patterns, i + 1)
    } else {
        Seq::empty()
    }
}

/// How the message reporting an unparsable pattern begins.
pub open spec fn parse_err_prefix(p: Seq<char>) -> Seq<char> {
    "Invalid exclude glob '"@ + p + "': "@
}

/// What compiling a rule's exclusion patterns leaves behind. An empty
/// pattern list yields no exclusions and no errors, without building. On a
/// non-empty list, every pattern that parses joins the matcher, in order,
/// and every pattern that does not parse is reported by one message naming
/// it; exactly when the final set build fails, the matcher is empty instead
/// and one further message is reported.
pub open spec fn compile_outcome(
    pats: Seq<Seq<char>>,
    gerrs: Seq<Seq<char>>,
    patterns: Seq<String>,
) -> bool {
    let parsed = parsed_patterns(patterns, 0);
    let failing = failing_patterns(patterns, 0);
    &&& if patterns.len() == 0 {
        pats == Seq::<Seq<char>>::empty() && gerrs.len() == 0
    } else if globset_build_err(parsed) {
        pats == Seq::<Seq<char>>::empty() && gerrs.len() == failing.len() + 1
    } else {
        pats == parsed && gerrs.len() == failing.len()
    }
    &&& forall|k: int|
        0 <= k < failing.len() ==> begins_with(#[trigger] gerrs[k], parse_err_prefix(failing[k]))
}

/// Whether any of `pats` matches the component path `rel`.
pub open spec fn excluded(pats: Seq<Seq<char>>, rel: Seq<Seq<char>>) -> bool {
    exists|i: int| 0 <= i < pats.len() && glob_matches(pats[i], rel)
}

/// Relies on globset::Glob::new: parses one glob pattern, succeeding
/// exactly when the pattern text is well formed — a function of the text
/// alone, which `glob_parse_err` names; the compiled glob stands for
/// exactly that pattern.
#[verifier::external_body]
fn glob_new(pattern: &String) -> (r: Result<globset::Glob, String>)
    ensures
        r is Ok <==> !glob_parse_err(pattern@),
        match r {
            Ok(g) => glob_pattern(g) == pattern@,
            Err(_) => true,
        },
{
    match globset::Glob::new(pattern.as_str()) {
        Ok(g) => Ok(g),
        Err(e) => Err(e.to_string()),
    }
}

/// Relies on globset::GlobSetBuilder::new: a fresh builder holds no patterns.
#[verifier::external_body]
fn builder_new() -> (r: globset::GlobSetBuilder)
    ensures
        builder_patterns(r) == Seq::<Seq<char>>::empty(),
{
    globset::GlobSetBuilder::new()
}

/// Relies on globset::GlobSetBuilder::add: appends one pattern to the set
/// under construction.
#[verifier::external_body]
fn builder_add(b: &mut globset::GlobSetBuilder, g: globset::Glob)
    ensures
        builder_patterns(*final(b)) == builder_patterns(*old(b)).push(glob_pattern(g)),
{
    b.add(g);
}

/// Relies on globset::GlobSetBuilder::build: it compiles the added
/// patterns, succeeding or failing as a function of those texts alone,
/// which `globset_build_err` names; on success the compiled set holds
/// exactly the builder's patterns.
#[verifier::external_body]
fn builder_build(b: &globset::GlobSetBuilder) -> (r: Result<globset::GlobSet, String>)
    ensures
        r is Ok <==> !globset_build_err(builder_patterns(*b)),
        match r {
            Ok(s) => globset_patterns(s) == builder_patterns(*b),
            Err(_) => true,
        },
{
    match b.build() {
        Ok(s) => Ok(s),
        Err(e) => Err(e.to_string()),
    }
}

/// Relies on globset::GlobSet::is_match: true exactly when some glob in the
/// set matches the path.
#[verifier::external_body]
fn globset_match(s: &globset::GlobSet, rel: &FsPath) -> (r: bool)
    ensures
        r == (exists|i: int|
            0 <= i < globset_patterns(*s).len()
                && glob_matches(#[trigger] globset_patterns(*s)[i], rel@)),
{
    let mut p = std::path::PathBuf::new();
    for part in rel.parts.iter() {
        p.push(part);
    }
    s.is_match(&p)
}

/// A compiled exclusion matcher: either no matcher at all (nothing is
/// excluded) or a glob set, together with the patterns it stands for.
pub struct Excluder {
    pub set: Option<globset::GlobSet>,
    pub pats: Ghost<Seq<Seq<char>>>,
}

impl Excluder {
    /// The patterns this matcher applies.
    pub open spec fn patterns(&self) -> Seq<Seq<char>> {
        self.pats@
    }

    pub open spec fn wf(&self) -> bool {
        match self.set {
            None => self.pats@ == Seq::<Seq<char>>::empty(),
            Some(s) => globset_patterns(s) == self.pats@,
        }
    }

    /// A matcher that excludes nothing.
    pub fn none() -> (r: Excluder)
        ensures
            r.wf(),
            r.patterns() == Seq::<Seq<char>>::empty(),
    {
        Excluder { set: None, pats: Ghost(Seq::empty()) }
    }

    /// Whether the root-relative path `rel` is excluded.
    pub fn matches(&self, rel: &FsPath) -> (r: bool)
        requires
            self.wf(),
        ensures
            r == excluded(self.patterns(), rel@),
    {
        match &self.set {
            None => {
                proof {
                    assert(!excluded(self.pats@, rel@));
                }
                false
            },
            Some(s) => globset_match(s, rel),
        }
    }
}

/// Compiles a rule's exclusion patterns into a matcher.
///
/// A pattern that fails to parse is skipped and reported without aborting
/// the rest: the matcher holds exactly the patterns that parsed, in order,
/// with one message naming each failing pattern. Only if the final matcher
/// build itself fails does the result exclude nothing, with one more
/// message.
pub fn build_globset(patterns: &Vec<String>) -> (r: (Excluder, Vec<String>))
    ensures
        r.0.wf(),
        compile_outcome(r.0.patterns(), str_views(r.1@), patterns@),
{
    if patterns.len() == 0 {
        let r = (Excluder::none(), Vec::<String>::new());
        proof {
            assert(str_views(r.1@) =~= Seq::<Seq<char>>::empty());
            assert(parsed_patterns(patterns@, 0) =~= Seq::<Seq<char>>::empty());
            assert(failing_patterns(patterns@, 0) =~= Seq::<Seq<char>>::empty());
        }
        return r;
    }

    let mut builder = builder_new();
    let mut errors: Vec<String> = Vec::new();
    let ghost mut fdone: Seq<Seq<char>> = Seq::empty();
    proof {
        assert(builder_patterns(builder) + parsed_patterns(patterns@, 0) =~= parsed_patterns(
            patterns@,
            0,
        ));
        assert(fdone + failing_patterns(patterns@, 0) =~= failing_patterns(patterns@, 0));
    }

    let mut i: usize = 0;
    while i < patterns.len()
        invariant
            i <= patterns.len(),
            builder_patterns(builder) + parsed_patterns(patterns@, i as int) == parsed_patterns(
                patterns@,
                0,
            ),
            fdone + failing_patterns(patterns@, i as int) == failing_patterns(patterns@, 0),
            fdone.len() == errors@.len(),
            forall|k: int|
                0 <= k < errors@.len() ==> begins_with(
                    #[trigger] str_views(errors@)[k],
                    parse_err_prefix(fdone[k]),
                ),
        decreases patterns.len() - i,
    {
        let ghost p = patterns@[i as int]@;
        match glob_new(&patterns[i]) {
            Ok(g) => {
                let ghost prev = builder_patterns(builder);
                builder_add(&mut builder, g);
                proof {
                    assert(!glob_parse_err(p));
                    assert(parsed_patterns(patterns@, i as int) == seq![p] + parsed_patterns(
                        patterns@,
                        i + 1,
                    ));
                    assert((prev + seq![p]) + parsed_patterns(patterns@, i + 1) =~= prev + (seq![p]
                        + parsed_patterns(patterns@, i + 1)));
                    assert(builder_patterns(builder) =~= prev.push(p));
                    assert(prev.push(p) =~= prev + seq![p]);
                    assert(failing_patterns(patterns@, i as int) =~= failing_patterns(
                        patterns@,
                        i + 1,
                    ));
                }
            },
            Err(e) => {
                let mut msg = String::new();
                msg.append("Invalid exclude glob '");
                msg.append(patterns[i].as_str());
                msg.append("': ");
                let ghost head = msg@;
                msg.append(e.as_str());
                let ghost prevE = errors@;
                errors.push(msg);
                proof {
                    assert(glob_parse_err(p));
                    assert(head =~= parse_err_prefix(p));
                    assert(failing_patterns(patterns@, i as int) == seq![p] + failing_patterns(
                        patterns@,
                        i + 1,
                    ));
                    assert((fdone + seq![p]) + failing_patterns(patterns@, i + 1) =~= fdone + (
                    seq![p] + failing_patterns(patterns@, i + 1)));
                    assert(parsed_patterns(patterns@, i as int) =~= parsed_patterns(
                        patterns@,
                        i + 1,
                    ));
                    let m = str_views(errors@)[prevE.len() as int];
                    assert(m == errors@[prevE.len() as int]@);
                    assert(m.subrange(0, head.len() as int) =~= head);
                    assert(begins_with(m, parse_err_prefix(p)));
                    assert(forall|k: int|
                        0 <= k < prevE.len() ==> #[trigger] str_views(errors@)[k] == str_views(
                            prevE,
                        )[k]);
                    fdone = fdone.push(p);
                    assert(fdone.drop_last() =~= fdone.subrange(0, fdone.len() - 1));
                }
            },
        }
        i = i + 1;
    }
    proof {
        assert(builder_patterns(builder) + Seq::<Seq<char>>::empty() =~= builder_patterns(builder));
        assert(fdone + Seq::<Seq<char>>::empty() =~= fdone);
    }

    match builder_build(&builder) {
        Ok(s) => {
            let r = (Excluder { set: Some(s), pats: Ghost(globset_patterns(s)) }, errors);
            proof {
                assert(compile_outcome(r.0.patterns(), str_views(r.1@), patterns@));
            }
            r
        },
        Err(e) => {
            let mut msg = String::new();
            msg.append("Failed to build exclude globs: ");
            msg.append(e.as_str());
            let ghost prevE = errors@;
            errors.push(msg);
            let r = (Excluder::none(), errors);
            proof {
                assert(forall|k: int|
                    0 <= k < prevE.len() ==> #[trigger] str_views(r.1@)[k] == str_views(
                        prevE,
                    )[k]);
                assert(compile_outcome(r.0.patterns(), str_views(r.1@), patterns@));
            }
            r
        },
    }
}

} // verus!
