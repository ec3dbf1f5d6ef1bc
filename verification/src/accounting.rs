//! Choosing the survivor of a duplicate group, and keeping count of what is freed.

use crate::group::HashGroup;
use vstd::prelude::*;

verus! {

/// A confirmed set of identical files, split into the one that stays and
/// the ones to remove.
#[derive(Clone, Debug, PartialEq, Eq)]
pub struct DuplicateResult<P> {
    pub digest: String,
    pub survivor: P,
    pub removed: Vec<P>,
}

/// Files removed and bytes freed so far.
#[derive(Clone, Copy, Debug, PartialEq, Eq, Structural)]
pub struct Freed {
    pub files: u64,
    pub bytes: u64,
}

/// Splits a hash group into survivor and removals. The first file stays and
/// every other file goes; a group of fewer than `count` files, or an empty
/// one, is left alone.
pub fn resolve_group<P>(group: HashGroup<P>, count: u64) -> (res: Option<DuplicateResult<P>>)
    ensures
        res is Some <==> group.files@.len() >= 1 && group.files@.len() >= count,
        res matches Some(d) ==> d.digest@ == group.digest@ && d.survivor == group.files@[0]
            && d.removed@ == group.files@.skip(1),
{
    let mut files = group.files;
    if files.len() == 0 || (files.len() as u64) < count {
        return None;
    }
    let ghost all = files@;
    let survivor = files.remove(0);
    assert(files@ =~= all.skip(1));
    Some(DuplicateResult { digest: group.digest, survivor, removed: files })
}

impl Freed {
    /// Nothing removed yet.
    pub fn new() -> (freed: Freed)
        ensures
            freed.files == 0,
            freed.bytes == 0,
    {
        Freed { files: 0, bytes: 0 }
    }

    /// The counts after `removed` more files of `size` bytes each, or `None`
    /// where a count would not fit in 64 bits.
    pub fn record(self, removed: u64, size: u64) -> (res: Option<Freed>)
        ensures
            res is Some <==> self.files + removed <= u64::MAX && self.bytes + removed * size
                <= u64::MAX,
            res matches Some(f) ==> f.files == self.files + removed && f.bytes == self.bytes
                + removed * size,
    {
        let more = match removed.checked_mul(size) {
            Some(b) => b,
            None => { return None; },
        };
        let files = match self.files.checked_add(removed) {
            Some(n) => n,
            None => { return None; },
        };
        let bytes = match self.bytes.checked_add(more) {
            Some(b) => b,
            None => { return None; },
        };
        Some(Freed { files, bytes })
    }
}

} // verus!
