//! What to do with a path that is to be deleted, and which entries of a
//! registry's index are its cache.

use crate::order::{rank_keys, KeyRank};
use vstd::prelude::*;

verus! {

/// What a path is on disk.
#[derive(Clone, Copy, Debug, PartialEq, Eq, Structural)]
pub enum PathKind {
    /// Nothing is there.
    Missing,
    /// A file.
    File,
    /// A directory.
    Dir,
    /// Something that is neither a file nor a directory.
    Other,
}

/// What is done about a path that is to be deleted.
#[derive(Clone, Copy, Debug, PartialEq, Eq, Structural)]
pub enum Removal {
    /// Nothing.
    Nothing,
    /// It is only said that the path would be removed.
    Announce,
    /// The file is removed.
    RemoveFile,
    /// The directory is removed with all that is under it.
    RemoveTree,
}

/// What is done about a path of kind `kind`: a file or a directory is removed,
/// or only announced in a dry run; anything else is left alone.
pub open spec fn removal_for(kind: PathKind, dry_run: bool) -> Removal {
    match kind {
        PathKind::File => if dry_run {
            Removal::Announce
        } else {
            Removal::RemoveFile
        },
        PathKind::Dir => if dry_run {
            Removal::Announce
        } else {
            Removal::RemoveTree
        },
        PathKind::Missing => Removal::Nothing,
        PathKind::Other => Removal::Nothing,
    }
}

/// The name of the cache inside the folder of a registry's index.
pub open spec fn index_cache_name() -> Seq<char> {
    seq!['.', 'c', 'a', 'c', 'h', 'e']
}

/// What to do about a path of kind `kind` that is to be deleted.
pub fn plan_removal(kind: PathKind, dry_run: bool) -> (step: Removal)
    ensures
        step == removal_for(kind, dry_run),
{
    match kind {
        PathKind::File => if dry_run {
            Removal::Announce
        } else {
            Removal::RemoveFile
        },
        PathKind::Dir => if dry_run {
            Removal::Announce
        } else {
            Removal::RemoveTree
        },
        PathKind::Missing => Removal::Nothing,
        PathKind::Other => Removal::Nothing,
    }
}

/// Whether an entry of a registry's index folder is its cache: the one named
/// `.cache`, and no other.
pub fn is_index_cache(name: &str) -> (cache: bool)
    ensures
        cache == (name@ == index_cache_name()),
{
    proof {
        reveal_strlit(".cache");
        assert(".cache"@ =~= index_cache_name());
    }
    rank_keys(name, ".cache") == KeyRank::Same
}

} // verus!
