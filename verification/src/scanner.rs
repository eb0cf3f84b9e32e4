//! What becomes of a request for a listing once the file system has
//! answered: whether the path can be listed at all, and which of its
//! children are shown.

use crate::entry::{Entry, EntryView};
use crate::error::IndexError;
use vstd::prelude::*;

verus! {

/// What the file system says of the path that is to be listed.
#[derive(Clone, Copy, Debug, PartialEq, Eq, Structural)]
pub enum Probe {
    /// Nothing exists at the path.
    Missing,
    /// Access to the path is denied.
    Denied,
    /// The path names a file.
    File,
    /// The path names a directory.
    Directory,
}

/// Why a path with this answer cannot be listed, if it cannot.
pub open spec fn refusal(probe: Probe) -> Option<IndexError> {
    match probe {
        Probe::Missing => Some(IndexError::NotFound),
        Probe::Denied => Some(IndexError::PermissionDenied),
        Probe::File => Some(IndexError::NotADirectory),
        Probe::Directory => None,
    }
}

/// Lets a directory pass and gives the error for everything else.
pub fn check_listable(probe: Probe) -> (r: Result<(), IndexError>)
    ensures
        r is Ok <==> refusal(probe) is None,
        r is Err ==> refusal(probe) == Some(r->Err_0),
{
    match probe {
        Probe::Missing => Err(IndexError::NotFound),
        Probe::Denied => Err(IndexError::PermissionDenied),
        Probe::File => Err(IndexError::NotADirectory),
        Probe::Directory => Ok(()),
    }
}

/// The children whose metadata could be read, in the order of the listing.
pub open spec fn readable(children: Seq<Option<EntryView>>) -> Seq<EntryView>
    decreases children.len(),
{
    if children.len() == 0 {
        Seq::empty()
    } else {
        match children.last() {
            Some(entry) => readable(children.drop_last()).push(entry),
            None => readable(children.drop_last()),
        }
    }
}

/// The children as contracts see them.
pub open spec fn children_view(children: Seq<Option<Entry>>) -> Seq<Option<EntryView>> {
    Seq::new(
        children.len(),
        |i: int|
            match children[i] {
                Some(entry) => Some(entry@),
                None => None,
            },
    )
}

/// Keeps the children whose metadata could be read and leaves out the
/// others: a child that vanished while the directory was read does not
/// fail the listing.
pub fn readable_children(children: Vec<Option<Entry>>) -> (entries: Vec<Entry>)
    ensures
        entries.deep_view() == readable(children_view(children@)),
{
    let ghost all = children_view(children@);
    let ghost listed = children@;
    let mut entries: Vec<Entry> = Vec::new();
    assert(all.take(0) == Seq::<Option<EntryView>>::empty());
    for child in it: children
        invariant
            it.seq() == listed,
            all == children_view(listed),
            entries.deep_view() == readable(all.take(it.index() as int)),
    {
        let ghost before = entries.deep_view();
        let ghost k = it.index() as int;
        proof {
            assert(all.take(k + 1).drop_last() == all.take(k));
            assert(all.take(k + 1).last() == all[k]);
        }
        match child {
            Some(entry) => {
                entries.push(entry);
                assert(entries.deep_view() == before.push(entry@));
            },
            None => {},
        }
    }
    assert(all.take(all.len() as int) == all);
    entries
}

} // verus!
