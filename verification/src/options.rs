use vstd::prelude::*;

verus! {

/// Which side of a resolved archive/folder pair a Downloads-kind rule
/// removes.
#[derive(Debug, Clone, Copy, PartialEq, Eq, Structural)]
pub enum DownloadsChoice {
    Archives,
    Folders,
}

impl DownloadsChoice {
    pub fn as_str(self) -> (r: &'static str)
        ensures
            self is Archives ==> r@ == "archives"@,
            self is Folders ==> r@ == "folders"@,
    {
        match self {
            DownloadsChoice::Archives => "archives",
            DownloadsChoice::Folders => "folders",
        }
    }
}

/// Options a caller resolves before scanning: the Downloads choice, if any,
/// and the instant the scan is taken at (seconds since the epoch), which the
/// log age filter measures its cutoff from.
#[derive(Debug, Clone, Copy)]
pub struct ScanOptions {
    pub downloads_choice: Option<DownloadsChoice>,
    pub now_secs: u64,
}

impl Default for ScanOptions {
    fn default() -> (r: Self)
        ensures
            r.downloads_choice is None,
            r.now_secs == 0,
    {
        ScanOptions { downloads_choice: None, now_secs: 0 }
    }
}

} // verus!
