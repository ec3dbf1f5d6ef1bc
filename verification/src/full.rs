//! The full-content filter: confirming duplicates by the digest of every byte.

use crate::group::{
    digests, duplicate_groups, frequent, groups_match, lemma_kept_groups, HashGroup,
};
use crate::partial::{digested, hash_samples, Sample};
use vstd::prelude::*;

verus! {

/// The digests that at least two of the samples share, in order of first
/// appearance.
pub open spec fn confirmed<P>(samples: Seq<Sample<P>>) -> Seq<Seq<char>> {
    frequent(digested(samples), digests(digested(samples)), 2)
}

/// Groups the files of one size bucket by the digest of their whole content
/// and keeps the groups of two or more: the sets of identical files.
pub fn find_final_candidates<P>(l: Vec<Sample<P>>) -> (res: Vec<HashGroup<P>>)
    ensures
        groups_match(res@, digested(l@), confirmed(l@)),
        forall|j: int| 0 <= j < res.len() ==> (#[trigger] res[j]).files@.len() >= 2,
{
    let res = duplicate_groups(hash_samples(l), 2);
    proof {
        lemma_kept_groups(res@, digested(l@), 2);
    }
    res
}

} // verus!
