use vstd::prelude::*;

use crate::options::DownloadsChoice;

verus! {

/// The clean command's arguments, as the command-line collaborator parses
/// them.
#[derive(Debug)]
pub struct CleanArgs {
    pub tui: bool,
    pub dry_run: bool,
    pub sudo: bool,
    pub tui_state: Option<String>,
    pub snapshot: bool,
    pub yes: bool,
    pub rules: Vec<String>,
    pub list_rules: bool,
    pub user_home: Option<String>,
    pub downloads_remove: Option<DownloadsChoice>,
}

impl CleanArgs {
    /// Whether this invocation previews instead of deleting.
    pub fn effective_dry_run(&self) -> (r: bool)
        ensures
            r == self.dry_run,
    {
        self.dry_run
    }
}

} // verus!
