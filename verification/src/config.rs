use vstd::prelude::*;

use crate::ascii::{lower_of, lowercase};
use crate::fspath::{clone_strings, str_views, lemma_str_views_push};

verus! {

/// The discovery strategy a rule uses.
#[derive(Debug, Clone, Copy, PartialEq, Eq, Structural)]
pub enum RuleKind {
    Paths,
    Downloads,
    Logs,
}

/// A declarative description of one category of cleanable filesystem
/// content. Read-only input to the engine; `kind` decides which fields are
/// meaningful (the age threshold only affects Logs-kind rules).
#[derive(Debug)]
pub struct Rule {
    pub id: String,
    pub label: String,
    pub description: Option<String>,
    pub kind: RuleKind,
    pub paths: Vec<String>,
    pub requires_sudo: bool,
    pub enabled_by_default: bool,
    pub distros: Vec<String>,
    pub exclude_globs: Vec<String>,
    pub older_than_days: Option<u64>,
}

pub open spec fn option_str_view(o: Option<String>) -> Option<Seq<char>> {
    match o {
        Some(s) => Some(s@),
        None => None,
    }
}

/// The two rules hold the same content.
pub open spec fn same_rule(a: Rule, b: Rule) -> bool {
    &&& a.id@ == b.id@
    &&& a.label@ == b.label@
    &&& option_str_view(a.description) == option_str_view(b.description)
    &&& a.kind == b.kind
    &&& str_views(a.paths@) == str_views(b.paths@)
    &&& a.requires_sudo == b.requires_sudo
    &&& a.enabled_by_default == b.enabled_by_default
    &&& str_views(a.distros@) == str_views(b.distros@)
    &&& str_views(a.exclude_globs@) == str_views(b.exclude_globs@)
    &&& a.older_than_days == b.older_than_days
}

impl Clone for Rule {
    fn clone(&self) -> (r: Self)
        ensures
            same_rule(r, *self),
    {
        let description = match &self.description {
            Some(d) => Some(d.clone()),
            None => None,
        };
        Rule {
            id: self.id.clone(),
            label: self.label.clone(),
            description,
            kind: self.kind,
            paths: clone_strings(&self.paths),
            requires_sudo: self.requires_sudo,
            enabled_by_default: self.enabled_by_default,
            distros: clone_strings(&self.distros),
            exclude_globs: clone_strings(&self.exclude_globs),
            older_than_days: self.older_than_days,
        }
    }
}

/// The running distribution, as read from the OS release description by the
/// caller.
#[derive(Debug)]
pub struct Distro {
    pub id: Option<String>,
    pub id_like: Vec<String>,
}

/// Every text of `xs` lowercased.
pub open spec fn lowered_all(xs: Seq<Seq<char>>) -> Seq<Seq<char>> {
    xs.map_values(|s: Seq<char>| lower_of(s))
}

/// The lowercased identifiers a distro answers to: its own id, then what it
/// is like.
pub open spec fn distro_ids(d: Distro) -> Seq<Seq<char>> {
    match d.id {
        Some(s) => seq![lower_of(s@)] + lowered_all(str_views(d.id_like@)),
        None => lowered_all(str_views(d.id_like@)),
    }
}

impl Distro {
    /// The lowercased identifiers this distro answers to.
    pub fn identifiers(&self) -> (r: Vec<String>)
        ensures
            str_views(r@) == distro_ids(*self),
    {
        let mut ids: Vec<String> = Vec::new();
        if let Some(id) = &self.id {
            ids.push(lowercase(id.as_str()));
        }
        let ghost head = str_views(ids@);
        proof {
            assert(head =~= match self.id {
                Some(s) => seq![lower_of(s@)],
                None => Seq::<Seq<char>>::empty(),
            });
        }
        let mut i: usize = 0;
        while i < self.id_like.len()
            invariant
                i <= self.id_like.len(),
                str_views(ids@) =~= head + lowered_all(str_views(self.id_like@).take(i as int)),
            decreases self.id_like.len() - i,
        {
            let ghost pre = ids@;
            ids.push(lowercase(self.id_like[i].as_str()));
            proof {
                lemma_str_views_push(pre, ids@.last());
                assert(str_views(self.id_like@)[i as int] == self.id_like@[i as int]@);
                assert(lowered_all(str_views(self.id_like@).take(i + 1)) =~= lowered_all(
                    str_views(self.id_like@).take(i as int),
                ).push(lower_of(self.id_like@[i as int]@)));
                assert(str_views(ids@) =~= head + lowered_all(
                    str_views(self.id_like@).take(i + 1),
                ));
            }
            i = i + 1;
        }
        proof {
            assert(str_views(self.id_like@).take(self.id_like@.len() as int) =~= str_views(
                self.id_like@,
            ));
            assert(str_views(ids@) =~= distro_ids(*self));
        }
        ids
    }
}

/// Whether a rule applies on a distro answering to `ids`: it names no
/// distros at all, or one of the distros it names is among `ids`, compared
/// lowercased.
pub open spec fn spec_matches_distro(rule: Rule, ids: Seq<Seq<char>>) -> bool {
    rule.distros@.len() == 0 || exists|i: int, j: int|
        0 <= i < rule.distros@.len() && 0 <= j < ids.len() && lower_of(
            #[trigger] rule.distros@[i]@,
        ) == #[trigger] ids[j]
}

impl Rule {
    /// Whether this rule applies on a distro answering to `distro_ids`.
    pub fn matches_distro(&self, distro_ids: &Vec<String>) -> (r: bool)
        ensures
            r == spec_matches_distro(*self, str_views(distro_ids@)),
    {
        if self.distros.len() == 0 {
            return true;
        }
        let mut i: usize = 0;
        while i < self.distros.len()
            invariant
                i <= self.distros@.len(),
                forall|a: int, b: int|
                    0 <= a < i && 0 <= b < distro_ids@.len() ==> lower_of(
                        #[trigger] self.distros@[a]@,
                    ) != #[trigger] str_views(distro_ids@)[b],
            decreases self.distros@.len() - i,
        {
            let lowered = lowercase(self.distros[i].as_str());
            let mut j: usize = 0;
            while j < distro_ids.len()
                invariant
                    i < self.distros@.len(),
                    j <= distro_ids@.len(),
                    lowered@ == lower_of(self.distros@[i as int]@),
                    forall|b: int|
                        0 <= b < j ==> lower_of(self.distros@[i as int]@) != #[trigger] str_views(
                            distro_ids@,
                        )[b],
                decreases distro_ids@.len() - j,
            {
                if lowered == distro_ids[j] {
                    proof {
                        assert(str_views(distro_ids@)[j as int] == distro_ids@[j as int]@);
                    }
                    return true;
                }
                proof {
                    assert(str_views(distro_ids@)[j as int] == distro_ids@[j as int]@);
                }
                j = j + 1;
            }
            i = i + 1;
        }
        false
    }
}

/// The rule list the configuration collaborator loaded, already parsed.
#[derive(Debug)]
pub struct Config {
    pub version: u8,
    pub rules: Vec<Rule>,
}

/// The one configuration schema version this engine understands.
pub const SUPPORTED_CONFIG_VERSION: u8 = 1;

impl Config {
    /// Rejects a configuration whose schema version this engine does not
    /// understand.
    pub fn ensure_supported(&self) -> (r: Result<(), u8>)
        ensures
            r is Ok <==> self.version == SUPPORTED_CONFIG_VERSION,
            r is Err ==> r->Err_0 == self.version,
    {
        if self.version != SUPPORTED_CONFIG_VERSION {
            return Err(self.version);
        }
        Ok(())
    }

    /// The rules that apply on the given distro, in configuration order.
    pub fn available_rules(&self, distro: &Distro) -> (r: Vec<Rule>)
        ensures
            ({
                let kept = self.rules@.filter(
                    |rule: Rule| spec_matches_distro(rule, distro_ids(*distro)),
                );
                r@.len() == kept.len() && forall|i: int|
                    0 <= i < r@.len() ==> same_rule(#[trigger] r@[i], kept[i])
            }),
    {
        let ids = distro.identifiers();
        proof {
            assert(str_views(ids@) == distro_ids(*distro));
        }
        let ghost pred = |rule: Rule| spec_matches_distro(rule, distro_ids(*distro));
        let mut r: Vec<Rule> = Vec::new();
        let mut i: usize = 0;
        while i < self.rules.len()
            invariant
                i <= self.rules@.len(),
                str_views(ids@) == distro_ids(*distro),
                pred == (|rule: Rule| spec_matches_distro(rule, distro_ids(*distro))),
                r@.len() == self.rules@.take(i as int).filter(pred).len(),
                forall|k: int|
                    0 <= k < r@.len() ==> same_rule(
                        #[trigger] r@[k],
                        self.rules@.take(i as int).filter(pred)[k],
                    ),
            decreases self.rules@.len() - i,
        {
            let ghost prefix = self.rules@.take(i as int);
            proof {
                assert(self.rules@.take(i + 1).drop_last() =~= prefix);
                assert(self.rules@.take(i + 1).last() == self.rules@[i as int]);
                reveal(Seq::filter);
            }
            if self.rules[i].matches_distro(&ids) {
                r.push(self.rules[i].clone());
            }
            proof {
                assert(self.rules@.take(i + 1).filter(pred) == if pred(self.rules@[i as int]) {
                    prefix.filter(pred).push(self.rules@[i as int])
                } else {
                    prefix.filter(pred)
                });
            }
            i = i + 1;
        }
        proof {
            assert(self.rules@.take(self.rules@.len() as int) =~= self.rules@);
        }
        r
    }
}

} // verus!
