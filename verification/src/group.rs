//! Grouping files by digest, in order of first appearance.
//!
//! Hash groups are kept in a vector, found again by comparing digests, so
//! that which group comes first, and with it the order of the files that a
//! filter hands on, never depends on the order in which a hash map walks its
//! keys.

use vstd::prelude::*;

verus! {

/// A file together with the digest computed for it.
#[derive(Clone, Debug, PartialEq, Eq)]
pub struct Hashed<P> {
    pub path: P,
    pub digest: String,
}

/// The files of one size bucket that share a digest.
#[derive(Clone, Debug, PartialEq, Eq)]
pub struct HashGroup<P> {
    pub digest: String,
    pub files: Vec<P>,
}

/// Each file as the pair of its path and its digest.
pub open spec fn tags<P>(files: Seq<Hashed<P>>) -> Seq<(P, Seq<char>)> {
    files.map_values(|h: Hashed<P>| (h.path, h.digest@))
}

/// The files whose digest is `d`, in the order in which they were given.
pub open spec fn members<P>(files: Seq<(P, Seq<char>)>, d: Seq<char>) -> Seq<P>
    decreases files.len(),
{
    if files.len() == 0 {
        Seq::empty()
    } else {
        let rest = members(files.drop_last(), d);
        if files.last().1 == d {
            rest.push(files.last().0)
        } else {
            rest
        }
    }
}

/// The distinct digests, each at the position of its first appearance.
pub open spec fn digests<P>(files: Seq<(P, Seq<char>)>) -> Seq<Seq<char>>
    decreases files.len(),
{
    if files.len() == 0 {
        Seq::empty()
    } else {
        let rest = digests(files.drop_last());
        if rest.contains(files.last().1) {
            rest
        } else {
            rest.push(files.last().1)
        }
    }
}

/// Those of `ds` that at least `min` files carry, in the order of `ds`.
pub open spec fn frequent<P>(files: Seq<(P, Seq<char>)>, ds: Seq<Seq<char>>, min: nat) -> Seq<Seq<char>>
    decreases ds.len(),
{
    if ds.len() == 0 {
        Seq::empty()
    } else {
        let rest = frequent(files, ds.drop_last(), min);
        if members(files, ds.last()).len() >= min {
            rest.push(ds.last())
        } else {
            rest
        }
    }
}

/// The groups of the frequent digests among `ds`, laid end to end.
pub open spec fn flattened<P>(files: Seq<(P, Seq<char>)>, ds: Seq<Seq<char>>, min: nat) -> Seq<P>
    decreases ds.len(),
{
    if ds.len() == 0 {
        Seq::empty()
    } else {
        let rest = flattened(files, ds.drop_last(), min);
        if members(files, ds.last()).len() >= min {
            rest + members(files, ds.last())
        } else {
            rest
        }
    }
}

/// What is left of a bucket once every digest shared by fewer than `min`
/// files has been dropped.
pub open spec fn survivors<P>(files: Seq<(P, Seq<char>)>, min: nat) -> Seq<P> {
    flattened(files, digests(files), min)
}

/// How many files carry one of the digests `ds`, a digest that is listed
/// twice counting twice.
pub open spec fn carried<P>(files: Seq<(P, Seq<char>)>, ds: Seq<Seq<char>>) -> nat
    decreases ds.len(),
{
    if ds.len() == 0 {
        0
    } else {
        carried(files, ds.drop_last()) + members(files, ds.last()).len()
    }
}

/// How often `d` is listed in `ds`.
pub open spec fn occurrences(ds: Seq<Seq<char>>, d: Seq<char>) -> nat
    decreases ds.len(),
{
    if ds.len() == 0 {
        0
    } else {
        occurrences(ds.drop_last(), d) + if ds.last() == d {
            1nat
        } else {
            0nat
        }
    }
}

/// `groups` lists, digest by digest, the files of `files` that carry it.
pub open spec fn groups_match<P>(
    groups: Seq<HashGroup<P>>,
    files: Seq<(P, Seq<char>)>,
    ds: Seq<Seq<char>>,
) -> bool {
    &&& groups.len() == ds.len()
    &&& forall|j: int|
        0 <= j < groups.len() ==> (#[trigger] groups[j]).digest@ == ds[j] && groups[j].files@
            == members(files, ds[j])
}

fn position<P>(groups: &Vec<HashGroup<P>>, digest: &String) -> (at: Option<usize>)
    ensures
        match at {
            Some(j) => j < groups.len() && groups[j as int].digest@ == digest@,
            None => forall|j: int| 0 <= j < groups.len() ==> groups[j].digest@ != digest@,
        },
{
    let mut j: usize = 0;
    while j < groups.len()
        invariant
            j <= groups.len(),
            forall|k: int| 0 <= k < j ==> groups[k].digest@ != digest@,
        decreases groups.len() - j,
    {
        if groups[j].digest == *digest {
            return Some(j);
        }
        j = j + 1;
    }
    None
}

/// No digest is listed twice.
pub proof fn lemma_digests_distinct<P>(files: Seq<(P, Seq<char>)>)
    ensures
        digests(files).no_duplicates(),
    decreases files.len(),
{
    if files.len() > 0 {
        lemma_digests_distinct(files.drop_last());
    }
}

/// A digest is listed exactly when some file carries it.
pub proof fn lemma_listed_iff_carried<P>(files: Seq<(P, Seq<char>)>, d: Seq<char>)
    ensures
        digests(files).contains(d) <==> members(files, d).len() > 0,
        digests(files).contains(d) <==> exists|i: int|
            0 <= i < files.len() && (#[trigger] files[i]).1 == d,
    decreases files.len(),
{
    if files.len() > 0 {
        let head = files.drop_last();
        lemma_listed_iff_carried(head, d);
        let rest = digests(head);
        if rest.contains(files.last().1) {
        } else {
            let all = rest.push(files.last().1);
            assert(all.last() == files.last().1);
            assert(forall|k: int| 0 <= k < rest.len() ==> all[k] == rest[k]);
            if rest.contains(d) {
                let k = choose|k: int| 0 <= k < rest.len() && rest[k] == d;
                assert(all[k] == d);
            }
        }
        if digests(files).contains(d) {
            if files.last().1 == d {
                assert(files[files.len() - 1].1 == d);
            } else {
                assert(rest.contains(d));
                let i = choose|i: int| 0 <= i < head.len() && (#[trigger] head[i]).1 == d;
                assert(files[i].1 == d);
            }
        }
        if exists|i: int| 0 <= i < files.len() && (#[trigger] files[i]).1 == d {
            let i = choose|i: int| 0 <= i < files.len() && (#[trigger] files[i]).1 == d;
            if i < head.len() {
                assert(head[i].1 == d);
            }
        }
    }
}

/// Every member of a hash group is one of the files and carries the group's digest.
pub proof fn lemma_members_come_from_files<P>(files: Seq<(P, Seq<char>)>, d: Seq<char>, j: int)
    requires
        0 <= j < members(files, d).len(),
    ensures
        exists|i: int|
            0 <= i < files.len() && (#[trigger] files[i]).0 == members(files, d)[j]
                && files[i].1 == d,
    decreases files.len(),
{
    let head = files.drop_last();
    if files.last().1 == d && j == members(head, d).len() {
        assert(files[files.len() - 1].0 == members(files, d)[j]);
    } else {
        lemma_members_come_from_files(head, d, j);
        let i = choose|i: int|
            0 <= i < head.len() && (#[trigger] head[i]).0 == members(head, d)[j]
                && head[i].1 == d;
        assert(files[i].0 == members(files, d)[j]);
    }
}

/// What survives is either nothing or at least `min` files.
pub proof fn lemma_flattened_len<P>(files: Seq<(P, Seq<char>)>, ds: Seq<Seq<char>>, min: nat)
    ensures
        flattened(files, ds, min).len() == 0 || flattened(files, ds, min).len() >= min,
    decreases ds.len(),
{
    if ds.len() > 0 {
        lemma_flattened_len(files, ds.drop_last(), min);
    }
}

/// Every frequent digest is one of `ds` and is carried by at least `min` files.
pub proof fn lemma_frequent_sound<P>(
    files: Seq<(P, Seq<char>)>,
    ds: Seq<Seq<char>>,
    min: nat,
    j: int,
)
    requires
        0 <= j < frequent(files, ds, min).len(),
    ensures
        ds.contains(frequent(files, ds, min)[j]),
        members(files, frequent(files, ds, min)[j]).len() >= min,
    decreases ds.len(),
{
    let rest = frequent(files, ds.drop_last(), min);
    if members(files, ds.last()).len() >= min && j == rest.len() {
        assert(ds[ds.len() - 1] == ds.last());
    } else {
        lemma_frequent_sound(files, ds.drop_last(), min, j);
        let k = choose|k: int| 0 <= k < ds.drop_last().len() && ds.drop_last()[k] == rest[j];
        assert(ds[k] == rest[j]);
    }
}

/// Every file that survives is one of the files of the bucket.
pub proof fn lemma_flattened_come_from_files<P>(
    files: Seq<(P, Seq<char>)>,
    ds: Seq<Seq<char>>,
    min: nat,
    j: int,
)
    requires
        0 <= j < flattened(files, ds, min).len(),
    ensures
        exists|i: int|
            0 <= i < files.len() && (#[trigger] files[i]).0 == flattened(files, ds, min)[j],
    decreases ds.len(),
{
    let rest = flattened(files, ds.drop_last(), min);
    if j < rest.len() {
        lemma_flattened_come_from_files(files, ds.drop_last(), min, j);
    } else {
        lemma_members_come_from_files(files, ds.last(), j - rest.len());
    }
}

/// Picking the frequent digests out of a list without repetitions leaves a
/// list without repetitions.
pub proof fn lemma_frequent_distinct<P>(files: Seq<(P, Seq<char>)>, ds: Seq<Seq<char>>, min: nat)
    requires
        ds.no_duplicates(),
    ensures
        frequent(files, ds, min).no_duplicates(),
    decreases ds.len(),
{
    if ds.len() > 0 {
        let head = ds.drop_last();
        let rest = frequent(files, head, min);
        lemma_frequent_distinct(files, head, min);
        assert forall|j: int| 0 <= j < rest.len() implies rest[j] != ds.last() by {
            lemma_frequent_sound(files, head, min, j);
            let k = choose|k: int| 0 <= k < head.len() && head[k] == rest[j];
            assert(ds[k] == rest[j]);
        }
    }
}

proof fn lemma_occurrences(ds: Seq<Seq<char>>, d: Seq<char>)
    requires
        ds.no_duplicates(),
    ensures
        occurrences(ds, d) == if ds.contains(d) {
            1nat
        } else {
            0nat
        },
    decreases ds.len(),
{
    if ds.len() > 0 {
        let head = ds.drop_last();
        lemma_occurrences(head, d);
        if head.contains(d) {
            let k = choose|k: int| 0 <= k < head.len() && head[k] == d;
            assert(ds[k] == d);
        }
        if ds.contains(d) && ds.last() != d {
            let k = choose|k: int| 0 <= k < ds.len() && ds[k] == d;
            assert(head[k] == d);
        }
    }
}

proof fn lemma_carried_next<P>(files: Seq<(P, Seq<char>)>, ds: Seq<Seq<char>>)
    requires
        files.len() > 0,
    ensures
        carried(files, ds) == carried(files.drop_last(), ds) + occurrences(ds, files.last().1),
    decreases ds.len(),
{
    if ds.len() > 0 {
        lemma_carried_next(files, ds.drop_last());
    }
}

/// The hash groups of a bucket share out its files: every file is in the
/// group of exactly one listed digest.
pub proof fn lemma_groups_share_out_files<P>(files: Seq<(P, Seq<char>)>)
    ensures
        carried(files, digests(files)) == files.len(),
    decreases files.len(),
{
    if files.len() > 0 {
        let head = files.drop_last();
        let d = files.last().1;
        lemma_groups_share_out_files(head);
        lemma_digests_distinct(head);
        lemma_occurrences(digests(head), d);
        lemma_carried_next(files, digests(head));
        lemma_listed_iff_carried(head, d);
        if !digests(head).contains(d) {
            assert(digests(files).drop_last() == digests(head));
        }
    }
}

/// Dropping and flattening hash groups never adds a file: what survives is
/// no longer than what the listed groups hold.
pub proof fn lemma_flattened_at_most_carried<P>(
    files: Seq<(P, Seq<char>)>,
    ds: Seq<Seq<char>>,
    min: nat,
)
    ensures
        flattened(files, ds, min).len() <= carried(files, ds),
    decreases ds.len(),
{
    if ds.len() > 0 {
        lemma_flattened_at_most_carried(files, ds.drop_last(), min);
    }
}

/// The filter only narrows: no more files survive than there were.
pub proof fn lemma_survivors_at_most_files<P>(files: Seq<(P, Seq<char>)>, min: nat)
    ensures
        survivors(files, min).len() <= files.len(),
{
    lemma_groups_share_out_files(files);
    lemma_flattened_at_most_carried(files, digests(files), min);
}

/// `part` stands in `whole` in one piece, from position `at` on.
pub open spec fn stands_at<P>(whole: Seq<P>, part: Seq<P>, at: int) -> bool {
    0 <= at && at + part.len() <= whole.len() && whole.subrange(at, at + part.len()) == part
}

/// A file that carries `d` is in the hash group of `d`.
pub proof fn lemma_carrier_is_member<P>(files: Seq<(P, Seq<char>)>, d: Seq<char>, i: int)
    requires
        0 <= i < files.len(),
        files[i].1 == d,
    ensures
        exists|a: int|
            0 <= a < members(files, d).len() && #[trigger] members(files, d)[a] == files[i].0,
    decreases files.len(),
{
    let head = files.drop_last();
    if i == files.len() - 1 {
        let a = members(head, d).len() as int;
        assert(members(files, d)[a] == files[i].0);
    } else {
        lemma_carrier_is_member(head, d, i);
        let a = choose|a: int|
            0 <= a < members(head, d).len() && #[trigger] members(head, d)[a] == head[i].0;
        assert(members(files, d)[a] == files[i].0);
    }
}

/// Within a hash group the files stand in the order in which they were
/// given: of two files with the same digest the earlier one comes first.
pub proof fn lemma_members_keep_order<P>(files: Seq<(P, Seq<char>)>, d: Seq<char>, i: int, j: int)
    requires
        0 <= i < j < files.len(),
        files[i].1 == d,
        files[j].1 == d,
    ensures
        exists|a: int, b: int|
            #![trigger members(files, d)[a], members(files, d)[b]]
            0 <= a < b < members(files, d).len() && members(files, d)[a] == files[i].0
                && members(files, d)[b] == files[j].0,
    decreases files.len(),
{
    let head = files.drop_last();
    if j == files.len() - 1 {
        lemma_carrier_is_member(head, d, i);
        let a = choose|a: int|
            0 <= a < members(head, d).len() && #[trigger] members(head, d)[a] == head[i].0;
        let b = members(head, d).len() as int;
        assert(members(files, d)[a] == files[i].0 && members(files, d)[b] == files[j].0);
    } else {
        lemma_members_keep_order(head, d, i, j);
        let (a, b) = choose|a: int, b: int|
            #![trigger members(head, d)[a], members(head, d)[b]]
            0 <= a < b < members(head, d).len() && members(head, d)[a] == head[i].0 && members(
                head,
                d,
            )[b] == head[j].0;
        assert(members(files, d)[a] == files[i].0 && members(files, d)[b] == files[j].0);
    }
}

/// A hash group that is kept stands among the survivors in one piece.
pub proof fn lemma_kept_group_in_flattened<P>(
    files: Seq<(P, Seq<char>)>,
    ds: Seq<Seq<char>>,
    min: nat,
    d: Seq<char>,
)
    requires
        ds.contains(d),
        members(files, d).len() >= min,
    ensures
        exists|at: int| stands_at(flattened(files, ds, min), members(files, d), at),
    decreases ds.len(),
{
    let head = ds.drop_last();
    let rest = flattened(files, head, min);
    let whole = flattened(files, ds, min);
    let part = members(files, d);
    if ds.last() == d {
        assert(whole.subrange(rest.len() as int, (rest.len() + part.len()) as int) =~= part);
        assert(stands_at(whole, part, rest.len() as int));
    } else {
        let k = choose|k: int| 0 <= k < ds.len() && ds[k] == d;
        assert(head[k] == d);
        lemma_kept_group_in_flattened(files, head, min, d);
        let at = choose|at: int| stands_at(rest, part, at);
        assert(whole.subrange(at, at + part.len()) =~= rest.subrange(at, at + part.len()));
        assert(stands_at(whole, part, at));
    }
}

/// Files with the same digest keep their order through the filter: where
/// their hash group is kept, both survive, and the earlier one still comes
/// first.
pub proof fn lemma_survivors_keep_order<P>(files: Seq<(P, Seq<char>)>, min: nat, i: int, j: int)
    requires
        0 <= i < j < files.len(),
        files[i].1 == files[j].1,
        members(files, files[i].1).len() >= min,
    ensures
        exists|a: int, b: int|
            #![trigger survivors(files, min)[a], survivors(files, min)[b]]
            0 <= a < b < survivors(files, min).len() && survivors(files, min)[a] == files[i].0
                && survivors(files, min)[b] == files[j].0,
{
    let d = files[i].1;
    let part = members(files, d);
    let whole = survivors(files, min);
    lemma_listed_iff_carried(files, d);
    lemma_members_keep_order(files, d, i, j);
    lemma_kept_group_in_flattened(files, digests(files), min, d);
    let at = choose|at: int| stands_at(whole, part, at);
    let (a, b) = choose|a: int, b: int|
        #![trigger part[a], part[b]]
        0 <= a < b < part.len() && part[a] == files[i].0 && part[b] == files[j].0;
    assert(whole.subrange(at, at + part.len())[a] == whole[at + a]);
    assert(whole.subrange(at, at + part.len())[b] == whole[at + b]);
    assert(whole[at + a] == files[i].0 && whole[at + b] == files[j].0);
}

/// The hash groups of a bucket are determined by the bucket: two lists that
/// match the same digests hold the same groups, with the same files in the
/// same order, and so the same first file.
pub proof fn lemma_groups_determined<P>(
    first: Seq<HashGroup<P>>,
    second: Seq<HashGroup<P>>,
    files: Seq<(P, Seq<char>)>,
    ds: Seq<Seq<char>>,
)
    requires
        groups_match(first, files, ds),
        groups_match(second, files, ds),
    ensures
        first.len() == second.len(),
        forall|j: int|
            0 <= j < first.len() ==> (#[trigger] first[j]).digest@ == second[j].digest@
                && first[j].files@ == second[j].files@,
{
}

/// Groups that match the frequent digests of a bucket are no smaller than
/// the threshold, carry pairwise different digests, and hold files of that
/// bucket only.
pub proof fn lemma_kept_groups<P>(
    groups: Seq<HashGroup<P>>,
    files: Seq<(P, Seq<char>)>,
    min: nat,
)
    requires
        groups_match(groups, files, frequent(files, digests(files), min)),
    ensures
        forall|j: int| 0 <= j < groups.len() ==> (#[trigger] groups[j]).files@.len() >= min,
        forall|j: int, k: int|
            0 <= j < k < groups.len() ==> (#[trigger] groups[j]).digest@ != (
            #[trigger] groups[k]).digest@,
        forall|j: int, i: int|
            0 <= j < groups.len() && 0 <= i < groups[j].files@.len() ==> exists|n: int|
                0 <= n < files.len() && (#[trigger] files[n]).0 == (#[trigger] groups[j].files@[i])
                    && files[n].1 == groups[j].digest@,
{
    let ds = digests(files);
    lemma_digests_distinct(files);
    lemma_frequent_distinct(files, ds, min);
    assert forall|j: int| 0 <= j < groups.len() implies (#[trigger] groups[j]).files@.len()
        >= min by {
        lemma_frequent_sound(files, ds, min, j);
    }
    assert forall|j: int, i: int|
        0 <= j < groups.len() && 0 <= i < groups[j].files@.len() implies exists|n: int|
        0 <= n < files.len() && (#[trigger] files[n]).0 == (#[trigger] groups[j].files@[i])
            && files[n].1 == groups[j].digest@ by {
        lemma_members_come_from_files(files, groups[j].digest@, i);
    }
}

/// Splits a bucket into its hash groups. Groups come in the order in which
/// their digest first appears, and files keep their order within a group.
pub fn group_by_digest<P>(files: Vec<Hashed<P>>) -> (groups: Vec<HashGroup<P>>)
    ensures
        groups_match(groups@, tags(files@), digests(tags(files@))),
{
    let ghost all = tags(files@);
    let mut groups: Vec<HashGroup<P>> = Vec::new();
    for file in it: files
        invariant
            all == tags(it.seq()),
            groups_match(
                groups@,
                all.take(it.index() as int),
                digests(all.take(it.index() as int)),
            ),
    {
        let ghost done = all.take(it.index() as int);
        let ghost next = all.take(it.index() + 1);
        let ghost before = groups@;
        proof {
            assert(next.drop_last() == done);
            assert(next.last() == (file.path, file.digest@));
            lemma_digests_distinct(done);
            lemma_listed_iff_carried(done, file.digest@);
        }
        match position(&groups, &file.digest) {
            Some(j) => {
                assert(digests(done)[j as int] == file.digest@);
                assert(digests(next) == digests(done));
                groups[j].files.push(file.path);
                assert(groups_match(groups@, next, digests(next)));
            },
            None => {
                assert(!digests(done).contains(file.digest@)) by {
                    if digests(done).contains(file.digest@) {
                        let k = choose|k: int|
                            0 <= k < digests(done).len() && digests(done)[k] == file.digest@;
                        assert(before[k].digest@ == file.digest@);
                    }
                }
                let mut first: Vec<P> = Vec::new();
                first.push(file.path);
                groups.push(HashGroup { digest: file.digest, files: first });
                assert(groups@[groups.len() - 1].files@ == members(next, file.digest@));
                assert(groups_match(groups@, next, digests(next)));
            },
        }
    }
    proof {
        assert(all.take(all.len() as int) == all);
    }
    groups
}

/// Drops every hash group with fewer than `min_count` files and lays the
/// remaining groups end to end.
pub fn retain_frequent<P>(files: Vec<Hashed<P>>, min_count: u64) -> (kept: Vec<P>)
    ensures
        kept@ == survivors(tags(files@), min_count as nat),
        kept@.len() <= files@.len(),
{
    let ghost all = tags(files@);
    let ghost ds = digests(all);
    let groups = group_by_digest(files);
    let mut kept: Vec<P> = Vec::new();
    for group in it: groups
        invariant
            groups_match(it.seq(), all, ds),
            kept@ == flattened(all, ds.take(it.index() as int), min_count as nat),
    {
        proof {
            assert(ds.take(it.index() + 1).drop_last() == ds.take(it.index() as int));
            assert(ds.take(it.index() + 1).last() == ds[it.index() as int]);
            assert(group == it.seq()[it.index() as int]);
        }
        let mut same = group.files;
        if same.len() as u64 >= min_count {
            kept.append(&mut same);
        }
    }
    proof {
        assert(ds.take(ds.len() as int) == ds);
        lemma_survivors_at_most_files(all, min_count as nat);
    }
    kept
}

/// The hash groups of a bucket that hold at least `min_count` files.
pub fn duplicate_groups<P>(files: Vec<Hashed<P>>, min_count: u64) -> (kept: Vec<HashGroup<P>>)
    ensures
        groups_match(
            kept@,
            tags(files@),
            frequent(tags(files@), digests(tags(files@)), min_count as nat),
        ),
        forall|j: int| 0 <= j < kept.len() ==> (#[trigger] kept[j]).files@.len() >= min_count,
{
    let ghost all = tags(files@);
    let ghost ds = digests(all);
    let groups = group_by_digest(files);
    let mut kept: Vec<HashGroup<P>> = Vec::new();
    for group in it: groups
        invariant
            groups_match(it.seq(), all, ds),
            groups_match(kept@, all, frequent(all, ds.take(it.index() as int), min_count as nat)),
    {
        proof {
            assert(ds.take(it.index() + 1).drop_last() == ds.take(it.index() as int));
            assert(ds.take(it.index() + 1).last() == ds[it.index() as int]);
            assert(group == it.seq()[it.index() as int]);
        }
        if group.files.len() as u64 >= min_count {
            kept.push(group);
        }
    }
    proof {
        assert(ds.take(ds.len() as int) == ds);
        lemma_kept_groups(kept@, all, min_count as nat);
    }
    kept
}

} // verus!
