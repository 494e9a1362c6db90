use vstd::prelude::*;

use crate::config::Rule;
use crate::options::DownloadsChoice;
use crate::snapshot::SnapshotSupport;

verus! {

/// The interactive session state that survives a sudo re-exec.
#[derive(Debug)]
pub struct PersistedState {
    pub enabled_rules: Vec<String>,
    pub selected_rule: Option<String>,
    pub dry_run: bool,
    pub snapshot_enabled: bool,
    pub include_sudo: bool,
}

/// How an interactive session ends: quietly, by re-running itself under
/// sudo, or by asking for the selected rules to be applied.
#[derive(Debug)]
pub enum TuiExit {
    Quit,
    Apply {
        rules: Vec<Rule>,
        snapshot: Option<SnapshotSupport>,
        downloads_choice: Option<DownloadsChoice>,
    },
    ReexecSudo { args: Vec<String> },
}

} // verus!
