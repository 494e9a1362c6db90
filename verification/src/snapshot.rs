use vstd::prelude::*;

verus! {

/// A way the caller can take a pre-clean filesystem snapshot; the volume
/// management tools themselves are external collaborators.
#[derive(Debug)]
pub enum SnapshotProvider {
    Btrfs { source: String },
    TimeshiftBtrfs,
}

/// A detected snapshot facility, with its display label.
#[derive(Debug)]
pub struct SnapshotSupport {
    pub label: String,
    pub provider: SnapshotProvider,
}

/// The result of taking one snapshot.
#[derive(Debug)]
pub struct SnapshotOutcome {
    pub provider: String,
    pub location: Option<String>,
}

/// The one-line description of a snapshot outcome.
pub open spec fn outcome_text(o: SnapshotOutcome) -> Seq<char> {
    match o.location {
        Some(p) => o.provider@ + " snapshot at "@ + p@,
        None => o.provider@ + " snapshot created"@,
    }
}

impl SnapshotOutcome {
    /// Describes the outcome in one line.
    pub fn display(&self) -> (r: String)
        ensures
            r@ == outcome_text(*self),
    {
        let mut s = String::new();
        s.append(self.provider.as_str());
        match &self.location {
            Some(p) => {
                s.append(" snapshot at ");
                s.append(p.as_str());
            },
            None => {
                s.append(" snapshot created");
            },
        }
        proof {
            assert(s@ =~= outcome_text(*self));
        }
        s
    }
}

} // verus!
