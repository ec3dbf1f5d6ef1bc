//! From the entries of a directory walk to size buckets of candidate files.

use crate::buckets::{among, bucket_sizes, lemma_among_next, reaches_threshold};
use std::collections::HashMap;
use vstd::prelude::*;

verus! {

broadcast use vstd::std_specs::hash::group_hash_axioms;

/// What kind of directory entry the walk met.
#[derive(Clone, Copy, Debug, PartialEq, Eq, Structural)]
pub enum EntryKind {
    File,
    Directory,
    Symlink,
    Other,
}

/// Identifies the underlying file, whatever name it was reached by.
#[derive(Clone, Copy, Debug, PartialEq, Eq, Structural)]
pub struct FileIdentity {
    pub device: u64,
    pub inode: u64,
}

/// One entry of a directory walk, in the order in which the walk met it.
#[derive(Clone, Debug, PartialEq, Eq)]
pub struct WalkEntry<P> {
    pub path: P,
    pub kind: EntryKind,
    pub size: u64,
    pub identity: FileIdentity,
}

/// A regular, non-empty file whose size lies within the bounds. A maximum of
/// zero means that there is no upper bound.
pub open spec fn qualifies<P>(e: WalkEntry<P>, minimum_size: u64, maximum_size: u64) -> bool {
    &&& e.kind == EntryKind::File
    &&& e.size != 0
    &&& e.size >= minimum_size
    &&& (maximum_size == 0 || e.size <= maximum_size)
}

/// Some entry of `chosen` is the file `id`.
pub open spec fn counted<P>(chosen: Seq<WalkEntry<P>>, id: FileIdentity) -> bool {
    exists|i: int| 0 <= i < chosen.len() && (#[trigger] chosen[i]).identity == id
}

/// The qualifying entries, each underlying file under the first name by
/// which the walk reached it.
pub open spec fn accepted<P>(
    entries: Seq<WalkEntry<P>>,
    minimum_size: u64,
    maximum_size: u64,
) -> Seq<WalkEntry<P>>
    decreases entries.len(),
{
    if entries.len() == 0 {
        Seq::empty()
    } else {
        let rest = accepted(entries.drop_last(), minimum_size, maximum_size);
        let e = entries.last();
        if qualifies(e, minimum_size, maximum_size) && !counted(rest, e.identity) {
            rest.push(e)
        } else {
            rest
        }
    }
}

/// The paths of the entries of exactly `size` bytes, in walk order.
pub open spec fn bucket<P>(chosen: Seq<WalkEntry<P>>, size: u64) -> Seq<P>
    decreases chosen.len(),
{
    if chosen.len() == 0 {
        Seq::empty()
    } else {
        let rest = bucket(chosen.drop_last(), size);
        if chosen.last().size == size {
            rest.push(chosen.last().path)
        } else {
            rest
        }
    }
}

/// The candidate buckets of a walk: `found` holds a size exactly when at
/// least `count` accepted files have it, and then lists them in walk order.
pub open spec fn is_candidate_mapping<P>(
    found: Map<u64, Vec<P>>,
    entries: Seq<WalkEntry<P>>,
    minimum_size: u64,
    maximum_size: u64,
    count: u64,
) -> bool {
    let chosen = accepted(entries, minimum_size, maximum_size);
    &&& forall|k: u64| #[trigger] found.contains_key(k) <==> bucket(chosen, k).len() >= count
    &&& forall|k: u64| #[trigger] found.contains_key(k) ==> found[k]@ == bucket(chosen, k)
}

/// Every accepted entry is an entry of the walk that qualifies, and no two
/// accepted entries are the same underlying file: a file reached by several
/// names is one candidate.
pub proof fn lemma_accepted_sound<P>(
    entries: Seq<WalkEntry<P>>,
    minimum_size: u64,
    maximum_size: u64,
)
    ensures
        forall|i: int|
            0 <= i < accepted(entries, minimum_size, maximum_size).len() ==> qualifies(
                #[trigger] accepted(entries, minimum_size, maximum_size)[i],
                minimum_size,
                maximum_size,
            ),
        forall|i: int|
            0 <= i < accepted(entries, minimum_size, maximum_size).len() ==> entries.contains(
                #[trigger] accepted(entries, minimum_size, maximum_size)[i],
            ),
        forall|i: int, j: int|
            0 <= i < j < accepted(entries, minimum_size, maximum_size).len() ==> (#[trigger] accepted(
                entries,
                minimum_size,
                maximum_size,
            )[i]).identity != (#[trigger] accepted(entries, minimum_size, maximum_size)[j]).identity,
    decreases entries.len(),
{
    if entries.len() > 0 {
        let head = entries.drop_last();
        lemma_accepted_sound(head, minimum_size, maximum_size);
        let rest = accepted(head, minimum_size, maximum_size);
        let chosen = accepted(entries, minimum_size, maximum_size);
        assert forall|i: int| 0 <= i < chosen.len() implies entries.contains(
            #[trigger] chosen[i],
        ) by {
            if i < rest.len() {
                assert(head.contains(rest[i]));
                let j = choose|j: int| 0 <= j < head.len() && head[j] == rest[i];
                assert(entries[j] == chosen[i]);
            } else {
                assert(entries[entries.len() - 1] == chosen[i]);
            }
        }
    }
}

/// Every file of a bucket is the path of an entry of that very size.
pub proof fn lemma_bucket_sound<P>(chosen: Seq<WalkEntry<P>>, size: u64, j: int)
    requires
        0 <= j < bucket(chosen, size).len(),
    ensures
        exists|i: int|
            0 <= i < chosen.len() && (#[trigger] chosen[i]).size == size && chosen[i].path
                == bucket(chosen, size)[j],
    decreases chosen.len(),
{
    let head = chosen.drop_last();
    if chosen.last().size == size && j == bucket(head, size).len() {
        assert(chosen[chosen.len() - 1].size == size);
    } else {
        lemma_bucket_sound(head, size, j);
        let i = choose|i: int|
            0 <= i < head.len() && (#[trigger] head[i]).size == size && head[i].path == bucket(
                head,
                size,
            )[j];
        assert(chosen[i].size == size);
    }
}

/// A candidate mapping has no bucket below the threshold, none for empty
/// files, and none for a size outside the bounds.
pub proof fn lemma_candidate_buckets<P>(
    found: Map<u64, Vec<P>>,
    entries: Seq<WalkEntry<P>>,
    minimum_size: u64,
    maximum_size: u64,
    count: u64,
)
    requires
        count >= 1,
        is_candidate_mapping(found, entries, minimum_size, maximum_size, count),
    ensures
        !found.contains_key(0),
        forall|k: u64| #[trigger]
            found.contains_key(k) ==> found[k]@.len() >= count && k >= minimum_size && (
            maximum_size == 0 || k <= maximum_size),
{
    let chosen = accepted(entries, minimum_size, maximum_size);
    lemma_accepted_sound(entries, minimum_size, maximum_size);
    assert forall|k: u64| #[trigger] found.contains_key(k) implies k != 0 && k >= minimum_size && (
    maximum_size == 0 || k <= maximum_size) by {
        lemma_bucket_sound(chosen, k, 0);
    }
}

/// The candidate mapping of a walk is determined by the walk: two mappings
/// for the same entries and bounds hold the same buckets with the same files
/// in the same order.
pub proof fn lemma_candidates_determined<P>(
    first: Map<u64, Vec<P>>,
    second: Map<u64, Vec<P>>,
    entries: Seq<WalkEntry<P>>,
    minimum_size: u64,
    maximum_size: u64,
    count: u64,
)
    requires
        is_candidate_mapping(first, entries, minimum_size, maximum_size, count),
        is_candidate_mapping(second, entries, minimum_size, maximum_size, count),
    ensures
        first.dom() == second.dom(),
        forall|k: u64| #[trigger] first.contains_key(k) ==> first[k]@ == second[k]@,
{
    assert(first.dom() =~= second.dom());
}

fn already_counted(seen: &Vec<FileIdentity>, id: FileIdentity) -> (hit: bool)
    ensures
        hit <==> exists|i: int| 0 <= i < seen.len() && seen[i] == id,
{
    let mut i: usize = 0;
    while i < seen.len()
        invariant
            i <= seen.len(),
            forall|j: int| 0 <= j < i ==> seen[j] != id,
        decreases seen.len() - i,
    {
        if seen[i] == id {
            return true;
        }
        i = i + 1;
    }
    false
}

/// Buckets the entries of a walk by size. Only regular files count; empty
/// files never do; each underlying file counts once, under the first name met;
/// a bucket with fewer than `count` files is dropped.
pub fn find_candidate_files<P>(
    entries: Vec<WalkEntry<P>>,
    minimum_size: u64,
    maximum_size: u64,
    count: u64,
) -> (found: HashMap<u64, Vec<P>>)
    requires
        count >= 2,
    ensures
        is_candidate_mapping(found@, entries@, minimum_size, maximum_size, count),
        reaches_threshold(found@, count),
{
    let ghost all = entries@;
    let mut seen: Vec<FileIdentity> = Vec::new();
    let mut sizes: HashMap<u64, Vec<P>> = HashMap::new();
    for e in it: entries
        invariant
            it.seq() == all,
            seen.len() == accepted(all.take(it.index() as int), minimum_size, maximum_size).len(),
            forall|j: int|
                0 <= j < seen.len() ==> seen[j] == (#[trigger] accepted(
                    all.take(it.index() as int),
                    minimum_size,
                    maximum_size,
                )[j]).identity,
            forall|k: u64| #[trigger]
                sizes@.contains_key(k) <==> bucket(
                    accepted(all.take(it.index() as int), minimum_size, maximum_size),
                    k,
                ).len() > 0,
            forall|k: u64| #[trigger]
                sizes@.contains_key(k) ==> sizes@[k]@ == bucket(
                    accepted(all.take(it.index() as int), minimum_size, maximum_size),
                    k,
                ),
    {
        let ghost done = all.take(it.index() as int);
        let ghost next = all.take(it.index() + 1);
        let ghost chosen = accepted(done, minimum_size, maximum_size);
        proof {
            assert(next.drop_last() == done);
            assert(next.last() == e);
        }
        let within = e.kind == EntryKind::File && e.size != 0 && e.size >= minimum_size && (
        maximum_size == 0 || e.size <= maximum_size);
        if within && !already_counted(&seen, e.identity) {
            proof {
                assert(!counted(chosen, e.identity)) by {
                    if counted(chosen, e.identity) {
                        let i = choose|i: int|
                            0 <= i < chosen.len() && (#[trigger] chosen[i]).identity == e.identity;
                        assert(seen[i] == e.identity);
                    }
                }
                assert(accepted(next, minimum_size, maximum_size) == chosen.push(e));
                assert(chosen.push(e).drop_last() == chosen);
            }
            seen.push(e.identity);
            let mut files: Vec<P> = match sizes.remove(&e.size) {
                Some(v) => v,
                None => Vec::new(),
            };
            files.push(e.path);
            sizes.insert(e.size, files);
        } else {
            proof {
                if within {
                    let i = choose|i: int| 0 <= i < seen.len() && seen[i] == e.identity;
                    assert(chosen[i].identity == e.identity);
                }
                assert(accepted(next, minimum_size, maximum_size) == chosen);
            }
        }
    }
    proof {
        assert(all.take(all.len() as int) == all);
    }
    let ghost chosen = accepted(all, minimum_size, maximum_size);
    let keys = bucket_sizes(&sizes);
    proof {
        assert forall|j: int| 0 <= j < keys.len() implies sizes@.contains_key(
            #[trigger] keys[j],
        ) by {
            assert(keys@.contains(keys@[j]));
        }
    }
    let mut found: HashMap<u64, Vec<P>> = HashMap::new();
    let mut i: usize = 0;
    while i < keys.len()
        invariant
            i <= keys.len(),
            count >= 2,
            keys@.no_duplicates(),
            forall|k: u64| keys@.contains(k) <==> bucket(chosen, k).len() > 0,
            forall|j: int|
                i <= j < keys.len() ==> sizes@.contains_key(#[trigger] keys[j]) && sizes@[keys[j]]@
                    == bucket(chosen, keys[j]),
            forall|k: u64| #[trigger]
                found@.contains_key(k) <==> among(keys@, i as int, k) && bucket(chosen, k).len()
                    >= count,
            forall|k: u64| #[trigger] found@.contains_key(k) ==> found@[k]@ == bucket(chosen, k),
        decreases keys.len() - i,
    {
        let k: u64 = keys[i];
        proof {
            lemma_among_next(keys@, i as int);
        }
        match sizes.remove(&k) {
            Some(files) => {
                if files.len() as u64 >= count {
                    found.insert(k, files);
                }
            },
            None => {},
        }
        i = i + 1;
    }
    proof {
        if keys.len() > 0 {
            lemma_among_next(keys@, keys.len() - 1);
        }
        assert forall|k: u64| bucket(chosen, k).len() >= count implies #[trigger] among(
            keys@,
            keys.len() as int,
            k,
        ) by {
            assert(keys@.contains(k));
            let j = choose|j: int| 0 <= j < keys.len() && keys@[j] == k;
            assert(among(keys@, keys.len() as int, k));
        }
        lemma_candidate_buckets(found@, all, minimum_size, maximum_size, count);
    }
    found
}

} // verus!
