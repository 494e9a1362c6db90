use vstd::prelude::*;

use crate::fspath::FsPath;

verus! {

/// One entry of a directory listing, with everything the scan strategies
/// read about it: classification, size, modification time (seconds since the
/// epoch, `None` when it could not be read) and, for directories, the device
/// the directory lives on together with its own listing.
///
/// An entry that could not be read or whose name could not be decoded is an
/// `Unreadable` node carrying the caller's description of the failure.
pub enum FsTree {
    File { name: String, size: u64, mtime: Option<u64> },
    Dir { name: String, device: u64, entries: Vec<FsTree> },
    Symlink { name: String },
    Other { name: String },
    Unreadable { message: String },
}

/// What a rule's configured root path resolved to: absent, unreadable, a
/// single file or symlink, something else, or a directory with its listing.
pub enum RootState {
    Missing,
    Unreadable { message: String },
    File { size: u64, mtime: Option<u64> },
    Symlink { size: u64 },
    Other,
    Dir { device: u64, entries: Vec<FsTree> },
}

/// One expanded root path of a rule together with what the filesystem held
/// there when it was read.
pub struct RootSnapshot {
    pub path: FsPath,
    pub state: RootState,
}

/// The name an entry contributes to its parent's listing, if it has one.
pub open spec fn tree_name(t: FsTree) -> Option<Seq<char>> {
    match t {
        FsTree::File { name, .. } => Some(name@),
        FsTree::Dir { name, .. } => Some(name@),
        FsTree::Symlink { name } => Some(name@),
        FsTree::Other { name } => Some(name@),
        FsTree::Unreadable { .. } => None,
    }
}

/// Sibling entries never share a name: what a real directory listing
/// guarantees.
pub open spec fn distinct_names(es: Seq<FsTree>) -> bool {
    forall|i: int, j: int|
        0 <= i < j < es.len() && tree_name(#[trigger] es[i]) is Some && tree_name(
            #[trigger] es[j],
        ) is Some ==> tree_name(es[i]) != tree_name(es[j])
}

/// A snapshot subtree is well formed when every directory listing in it has
/// distinct sibling names.
pub open spec fn wf_tree(t: FsTree) -> bool
    decreases t, 1nat,
{
    match t {
        FsTree::Dir { entries, .. } => wf_entries(entries@),
        _ => true,
    }
}

pub open spec fn wf_entries(es: Seq<FsTree>) -> bool
    decreases es, 0nat,
{
    distinct_names(es) && (forall|i: int| 0 <= i < es.len() ==> wf_tree(#[trigger] es[i]))
}

pub open spec fn wf_root_state(s: RootState) -> bool {
    match s {
        RootState::Dir { entries, .. } => wf_entries(entries@),
        _ => true,
    }
}

pub open spec fn wf_root(r: RootSnapshot) -> bool {
    wf_root_state(r.state)
}

pub open spec fn wf_roots(rs: Seq<RootSnapshot>) -> bool {
    forall|i: int| 0 <= i < rs.len() ==> wf_root(#[trigger] rs[i])
}

} // verus!
