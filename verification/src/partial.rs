//! The partial-content filter: narrowing size buckets by the digest of a
//! window at the start or at the end of each file.

use crate::buckets::{among, bucket_sizes, lemma_among_next, reaches_threshold};
use crate::digest::{content_digest, digest_of};
use crate::group::{
    digests, flattened, lemma_flattened_come_from_files, lemma_flattened_len,
    lemma_survivors_at_most_files, lemma_survivors_keep_order, members, retain_frequent, survivors,
    tags, Hashed,
};
use std::collections::HashMap;
use vstd::prelude::*;

verus! {

broadcast use vstd::std_specs::hash::group_hash_axioms;

/// Which end of a file the window is taken from.
#[derive(Clone, Copy, Debug, PartialEq, Eq, Structural)]
pub enum ScanType {
    /// The first bytes of the file.
    First,
    /// The last bytes of the file.
    Last,
}

/// The part of a file to read: `length` bytes from `offset` on.
#[derive(Clone, Copy, Debug, PartialEq, Eq, Structural)]
pub struct Window {
    pub offset: u64,
    pub length: u64,
}

/// A file together with the bytes that were read from it.
#[derive(Clone, Debug, PartialEq, Eq)]
pub struct Sample<P> {
    pub path: P,
    pub bytes: Vec<u8>,
}

/// The paths of the samples, in order.
pub open spec fn paths<P>(samples: Seq<Sample<P>>) -> Seq<P> {
    samples.map_values(|s: Sample<P>| s.path)
}

/// Each sample as the pair of its path and the digest of its bytes.
pub open spec fn digested<P>(samples: Seq<Sample<P>>) -> Seq<(P, Seq<char>)> {
    samples.map_values(|s: Sample<P>| (s.path, digest_of(s.bytes@)))
}

/// Where the window of a file of `size` bytes lies. A file that fits in the
/// window whole has none.
pub open spec fn window_of(t: ScanType, size: u64, scansize: u64) -> Option<Window> {
    if size <= scansize {
        None
    } else {
        Some(
            Window {
                offset: match t {
                    ScanType::First => 0,
                    ScanType::Last => (size - scansize) as u64,
                },
                length: scansize,
            },
        )
    }
}

/// The paths of files that come with a digest, in order.
pub open spec fn firsts<P>(files: Seq<(P, Seq<char>)>) -> Seq<P> {
    files.map_values(|f: (P, Seq<char>)| f.0)
}

/// Each sample as the pair of its path and no digest at all.
pub open spec fn undigested<P>(samples: Seq<Sample<P>>) -> Seq<(P, Seq<char>)> {
    samples.map_values(|s: Sample<P>| (s.path, Seq::<char>::empty()))
}

/// Buckets of hashed files, as pairs of path and digest.
pub open spec fn hashed_buckets<P>(l: Map<u64, Vec<Hashed<P>>>) -> Map<
    u64,
    Seq<(P, Seq<char>)>,
> {
    l.map_values(|files: Vec<Hashed<P>>| tags(files@))
}

/// Buckets of samples, as pairs of path and digest of the bytes read.
pub open spec fn sampled_buckets<P>(l: Map<u64, Vec<Sample<P>>>) -> Map<
    u64,
    Seq<(P, Seq<char>)>,
> {
    l.map_values(|samples: Vec<Sample<P>>| digested(samples@))
}

/// What the filter leaves of one bucket: all of it where the files fit in
/// the window, else the files whose digest at least `min_count` share.
pub open spec fn narrowed<P>(
    size: u64,
    files: Seq<(P, Seq<char>)>,
    scansize: u64,
    min_count: u64,
) -> Seq<P> {
    if size <= scansize {
        firsts(files)
    } else {
        survivors(files, min_count as nat)
    }
}

/// `out` is `l` after the filter: a bucket of files that fit in the window
/// is kept as it is, any other bucket is kept where something is left of it.
pub open spec fn is_narrowing<P>(
    out: Map<u64, Vec<P>>,
    l: Map<u64, Seq<(P, Seq<char>)>>,
    scansize: u64,
    min_count: u64,
) -> bool {
    &&& forall|k: u64| #[trigger]
        out.contains_key(k) <==> l.contains_key(k) && (k <= scansize || narrowed(
            k,
            l[k],
            scansize,
            min_count,
        ).len() > 0)
    &&& forall|k: u64| #[trigger]
        out.contains_key(k) ==> out[k]@ == narrowed(k, l[k], scansize, min_count)
}

/// `hashed` is the bucket `samples` made ready for the filter: with the
/// digest of every sample where the files are larger than the window, with
/// the paths alone where they fit in it.
pub open spec fn is_prepared<P>(
    size: u64,
    hashed: Seq<Hashed<P>>,
    samples: Seq<Sample<P>>,
    scansize: u64,
) -> bool {
    if size <= scansize {
        tags(hashed) == undigested(samples)
    } else {
        tags(hashed) == digested(samples)
    }
}

/// `l` holds the files of `found`, bucket by bucket and in the same order,
/// each with a digest.
pub open spec fn holds_files_of<P>(l: Map<u64, Seq<(P, Seq<char>)>>, found: Map<u64, Vec<P>>) -> bool {
    &&& forall|k: u64| #[trigger] l.contains_key(k) <==> found.contains_key(k)
    &&& forall|k: u64| #[trigger] found.contains_key(k) ==> firsts(l[k]) == found[k]@
}

/// What is left of one bucket is never longer than the bucket, is all of it
/// where the files fit in the window, and else is nothing or at least
/// `min_count` files; and every file that is left was in the bucket.
pub proof fn lemma_narrowed_bucket<P>(
    size: u64,
    files: Seq<(P, Seq<char>)>,
    scansize: u64,
    min_count: u64,
)
    ensures
        narrowed(size, files, scansize, min_count).len() <= files.len(),
        size <= scansize ==> narrowed(size, files, scansize, min_count).len() == files.len(),
        size > scansize ==> narrowed(size, files, scansize, min_count).len() == 0 || narrowed(
            size,
            files,
            scansize,
            min_count,
        ).len() >= min_count,
        forall|j: int|
            0 <= j < narrowed(size, files, scansize, min_count).len() ==> firsts(files).contains(
                #[trigger] narrowed(size, files, scansize, min_count)[j],
            ),
{
    lemma_flattened_len(files, digests(files), min_count as nat);
    lemma_survivors_at_most_files(files, min_count as nat);
    let left = narrowed(size, files, scansize, min_count);
    assert forall|j: int| 0 <= j < left.len() implies firsts(files).contains(#[trigger] left[j]) by {
        if size <= scansize {
            assert(firsts(files)[j] == left[j]);
        } else {
            lemma_flattened_come_from_files(files, digests(files), min_count as nat, j);
            let i = choose|i: int|
                0 <= i < files.len() && (#[trigger] files[i]).0 == flattened(
                    files,
                    digests(files),
                    min_count as nat,
                )[j];
            assert(firsts(files)[i] == left[j]);
        }
    }
}

/// A pass of the filter hands on what the stage before it established:
/// every bucket still holds at least `count` files, there is still no bucket
/// of empty files, no bucket has grown, and every file is still in the
/// bucket of its size.
pub proof fn lemma_pass_keeps_candidates<P>(
    found: Map<u64, Vec<P>>,
    l: Map<u64, Seq<(P, Seq<char>)>>,
    out: Map<u64, Vec<P>>,
    scansize: u64,
    count: u64,
)
    requires
        count >= 1,
        reaches_threshold(found, count),
        holds_files_of(l, found),
        is_narrowing(out, l, scansize, count),
    ensures
        reaches_threshold(out, count),
        forall|k: u64| #[trigger] out.contains_key(k) ==> found.contains_key(k),
        forall|k: u64| #[trigger]
            out.contains_key(k) ==> out[k]@.len() <= found[k]@.len() && forall|j: int|
                0 <= j < out[k]@.len() ==> found[k]@.contains(#[trigger] out[k]@[j]),
{
    assert forall|k: u64| #[trigger] out.contains_key(k) implies out[k]@.len() >= count
        && out[k]@.len() <= found[k]@.len() && forall|j: int|
        0 <= j < out[k]@.len() ==> found[k]@.contains(#[trigger] out[k]@[j]) by {
        assert(l.contains_key(k));
        assert(found.contains_key(k));
        assert(firsts(l[k]).len() == l[k].len());
        lemma_narrowed_bucket(k, l[k], scansize, count);
    }
}

/// The outcome of the filter is determined by what goes in: two outcomes for
/// the same buckets hold the same sizes with the same files in the same
/// order.
pub proof fn lemma_narrowing_determined<P>(
    first: Map<u64, Vec<P>>,
    second: Map<u64, Vec<P>>,
    l: Map<u64, Seq<(P, Seq<char>)>>,
    scansize: u64,
    min_count: u64,
)
    requires
        is_narrowing(first, l, scansize, min_count),
        is_narrowing(second, l, scansize, min_count),
    ensures
        first.dom() == second.dom(),
        forall|k: u64| #[trigger] first.contains_key(k) ==> first[k]@ == second[k]@,
{
    assert(first.dom() =~= second.dom());
}

/// Files of one bucket with the same digest keep their order through the
/// filter: where the files fit in the window, or at least `min_count` files
/// share the digest, both files are left, the earlier one before the later.
pub proof fn lemma_pass_keeps_order<P>(
    out: Map<u64, Vec<P>>,
    l: Map<u64, Seq<(P, Seq<char>)>>,
    scansize: u64,
    min_count: u64,
    k: u64,
    i: int,
    j: int,
)
    requires
        is_narrowing(out, l, scansize, min_count),
        l.contains_key(k),
        0 <= i < j < l[k].len(),
        l[k][i].1 == l[k][j].1,
        k <= scansize || members(l[k], l[k][i].1).len() >= min_count,
    ensures
        out.contains_key(k),
        exists|a: int, b: int|
            #![trigger out[k]@[a], out[k]@[b]]
            0 <= a < b < out[k]@.len() && out[k]@[a] == l[k][i].0 && out[k]@[b] == l[k][j].0,
{
    let left = narrowed(k, l[k], scansize, min_count);
    if k <= scansize {
        assert(0 <= i < j < left.len() && left[i] == l[k][i].0 && left[j] == l[k][j].0);
    } else {
        lemma_survivors_keep_order(l[k], min_count as nat, i, j);
    }
    let (a, b) = choose|a: int, b: int|
        #![trigger left[a], left[b]]
        0 <= a < b < left.len() && left[a] == l[k][i].0 && left[b] == l[k][j].0;
    assert(out.contains_key(k));
    assert(out[k]@[a] == l[k][i].0 && out[k]@[b] == l[k][j].0);
}

/// Says which bytes of a file of `size` bytes are to be sampled, if any.
pub fn scan_window(t: ScanType, size: u64, scansize: u64) -> (w: Option<Window>)
    requires
        scansize > 0,
    ensures
        w == window_of(t, size, scansize),
{
    if size <= scansize {
        None
    } else {
        let offset: u64 = match t {
            ScanType::First => 0,
            ScanType::Last => size - scansize,
        };
        Some(Window { offset, length: scansize })
    }
}

/// Computes the digest of every sample.
pub fn hash_samples<P>(samples: Vec<Sample<P>>) -> (hashed: Vec<Hashed<P>>)
    ensures
        tags(hashed@) == digested(samples@),
{
    let ghost all = digested(samples@);
    let mut hashed: Vec<Hashed<P>> = Vec::new();
    for sample in it: samples
        invariant
            all == digested(it.seq()),
            tags(hashed@) == all.take(it.index() as int),
    {
        let ghost earlier = hashed@;
        assert(all[it.index() as int] == (sample.path, digest_of(sample.bytes@)));
        let digest = content_digest(sample.bytes.as_slice());
        hashed.push(Hashed { path: sample.path, digest });
        assert(tags(hashed@) =~= tags(earlier).push(all[it.index() as int]));
        assert(tags(hashed@) =~= all.take(it.index() + 1));
    }
    proof {
        assert(all.take(all.len() as int) == all);
    }
    hashed
}

/// Takes the path of every sample and leaves the digest empty.
pub fn without_digest<P>(samples: Vec<Sample<P>>) -> (files: Vec<Hashed<P>>)
    ensures
        tags(files@) == undigested(samples@),
{
    let ghost all = undigested(samples@);
    let mut files: Vec<Hashed<P>> = Vec::new();
    for sample in it: samples
        invariant
            all == undigested(it.seq()),
            tags(files@) == all.take(it.index() as int),
    {
        let ghost earlier = files@;
        assert(all[it.index() as int] == (sample.path, Seq::<char>::empty()));
        files.push(Hashed { path: sample.path, digest: String::new() });
        assert(tags(files@) =~= tags(earlier).push(all[it.index() as int]));
        assert(tags(files@) =~= all.take(it.index() + 1));
    }
    proof {
        assert(all.take(all.len() as int) == all);
    }
    files
}

/// Drops the digest of every file.
pub fn hashed_paths<P>(files: Vec<Hashed<P>>) -> (res: Vec<P>)
    ensures
        res@ == firsts(tags(files@)),
{
    let ghost all = firsts(tags(files@));
    let mut res: Vec<P> = Vec::new();
    for file in it: files
        invariant
            all == firsts(tags(it.seq())),
            res@ == all.take(it.index() as int),
    {
        res.push(file.path);
        assert(res@ == all.take(it.index() + 1));
    }
    proof {
        assert(all.take(all.len() as int) == all);
    }
    res
}

/// Makes every bucket ready for the filter: the samples of files larger than
/// the window are hashed, the others are passed on without a digest.
pub fn hash_large_buckets<P>(l: HashMap<u64, Vec<Sample<P>>>, scansize: u64) -> (out: HashMap<
    u64,
    Vec<Hashed<P>>,
>)
    ensures
        forall|k: u64| #[trigger] out@.contains_key(k) <==> l@.contains_key(k),
        forall|k: u64| #[trigger]
            out@.contains_key(k) ==> is_prepared(k, out@[k]@, l@[k]@, scansize),
{
    let ghost before = l@;
    let mut l = l;
    let keys = bucket_sizes(&l);
    proof {
        assert forall|j: int| 0 <= j < keys.len() implies before.contains_key(
            #[trigger] keys[j],
        ) by {
            assert(keys@.contains(keys@[j]));
        }
    }
    let mut out: HashMap<u64, Vec<Hashed<P>>> = HashMap::new();
    let mut i: usize = 0;
    while i < keys.len()
        invariant
            i <= keys.len(),
            keys@.no_duplicates(),
            forall|k: u64| keys@.contains(k) <==> before.contains_key(k),
            forall|j: int|
                i <= j < keys.len() ==> l@.contains_key(#[trigger] keys[j]) && l@[keys[j]]
                    == before[keys[j]],
            forall|k: u64| #[trigger] out@.contains_key(k) <==> among(keys@, i as int, k),
            forall|k: u64| #[trigger]
                out@.contains_key(k) ==> is_prepared(k, out@[k]@, before[k]@, scansize),
        decreases keys.len() - i,
    {
        let size: u64 = keys[i];
        proof {
            lemma_among_next(keys@, i as int);
        }
        match l.remove(&size) {
            Some(samples) => {
                if size <= scansize {
                    out.insert(size, without_digest(samples));
                } else {
                    out.insert(size, hash_samples(samples));
                }
            },
            None => {},
        }
        i = i + 1;
    }
    proof {
        if keys.len() > 0 {
            lemma_among_next(keys@, keys.len() - 1);
        }
    }
    out
}

/// The partial-content filter for files whose window digest is at hand.
/// Files that fit in the window are passed on untouched, whatever digest
/// they carry; of the others, within a bucket, those stay whose digest at
/// least `min_count` files share.
pub fn eliminate_by_digest<P>(
    l: HashMap<u64, Vec<Hashed<P>>>,
    scansize: u64,
    min_count: u64,
) -> (out: HashMap<u64, Vec<P>>)
    requires
        scansize > 0,
        min_count >= 2,
    ensures
        is_narrowing(out@, hashed_buckets(l@), scansize, min_count),
        forall|k: u64|
            l@.contains_key(k) && k <= scansize ==> #[trigger] out@.contains_key(k) && out@[k]@
                == firsts(tags(l@[k]@)),
        forall|k: u64| #[trigger]
            out@.contains_key(k) ==> l@.contains_key(k) && out@[k]@.len() <= l@[k]@.len() && (k
                > scansize ==> out@[k]@.len() >= min_count),
{
    let ghost before = l@;
    let mut l = l;
    let keys = bucket_sizes(&l);
    proof {
        assert forall|j: int| 0 <= j < keys.len() implies before.contains_key(
            #[trigger] keys[j],
        ) by {
            assert(keys@.contains(keys@[j]));
        }
    }
    let mut out: HashMap<u64, Vec<P>> = HashMap::new();
    let mut i: usize = 0;
    while i < keys.len()
        invariant
            i <= keys.len(),
            keys@.no_duplicates(),
            forall|k: u64| keys@.contains(k) <==> before.contains_key(k),
            forall|j: int|
                i <= j < keys.len() ==> l@.contains_key(#[trigger] keys[j]) && l@[keys[j]]
                    == before[keys[j]],
            forall|k: u64| #[trigger]
                out@.contains_key(k) <==> among(keys@, i as int, k) && (k <= scansize || narrowed(
                    k,
                    tags(before[k]@),
                    scansize,
                    min_count,
                ).len() > 0),
            forall|k: u64| #[trigger]
                out@.contains_key(k) ==> out@[k]@ == narrowed(
                    k,
                    tags(before[k]@),
                    scansize,
                    min_count,
                ),
        decreases keys.len() - i,
    {
        let size: u64 = keys[i];
        proof {
            lemma_among_next(keys@, i as int);
        }
        match l.remove(&size) {
            Some(files) => {
                if size <= scansize {
                    out.insert(size, hashed_paths(files));
                } else {
                    let kept = retain_frequent(files, min_count);
                    if kept.len() > 0 {
                        out.insert(size, kept);
                    }
                }
            },
            None => {},
        }
        i = i + 1;
    }
    proof {
        if keys.len() > 0 {
            lemma_among_next(keys@, keys.len() - 1);
        }
        assert forall|k: u64| before.contains_key(k) implies #[trigger] among(
            keys@,
            keys.len() as int,
            k,
        ) by {
            assert(keys@.contains(k));
            let j = choose|j: int| 0 <= j < keys.len() && keys@[j] == k;
            assert(among(keys@, keys.len() as int, k));
        }
        assert forall|k: u64| #[trigger] out@.contains_key(k) implies out@[k]@.len()
            <= before[k]@.len() && (k > scansize ==> out@[k]@.len() >= min_count) by {
            lemma_narrowed_bucket(k, tags(before[k]@), scansize, min_count);
        }
    }
    out
}

/// Narrows every size bucket by the digest of the sampled window. Files that
/// fit in the window are passed on untouched; of the others, within a bucket,
/// those stay whose digest at least `min_count` files share.
pub fn eliminate_first_or_last_bytes_hash<P>(
    l: HashMap<u64, Vec<Sample<P>>>,
    scansize: u64,
    min_count: u64,
) -> (out: HashMap<u64, Vec<P>>)
    requires
        scansize > 0,
        min_count >= 2,
    ensures
        is_narrowing(out@, sampled_buckets(l@), scansize, min_count),
        forall|k: u64|
            l@.contains_key(k) && k <= scansize ==> #[trigger] out@.contains_key(k) && out@[k]@
                == paths(l@[k]@),
        forall|k: u64| #[trigger]
            out@.contains_key(k) ==> l@.contains_key(k) && out@[k]@.len() <= l@[k]@.len() && (k
                > scansize ==> out@[k]@.len() >= min_count),
{
    let hashed = hash_large_buckets(l, scansize);
    let out = eliminate_by_digest(hashed, scansize, min_count);
    proof {
        assert forall|k: u64| l@.contains_key(k) implies narrowed(
            k,
            #[trigger] hashed_buckets(hashed@)[k],
            scansize,
            min_count,
        ) == narrowed(k, sampled_buckets(l@)[k], scansize, min_count) && (k <= scansize ==> narrowed(
            k,
            sampled_buckets(l@)[k],
            scansize,
            min_count,
        ) == paths(l@[k]@)) && hashed@[k]@.len() == l@[k]@.len() by {
            assert(hashed@.contains_key(k));
            assert(tags(hashed@[k]@).len() == hashed@[k]@.len());
            assert(digested(l@[k]@).len() == l@[k]@.len());
            assert(undigested(l@[k]@).len() == l@[k]@.len());
            if k <= scansize {
                assert(firsts(undigested(l@[k]@)) =~= paths(l@[k]@));
                assert(firsts(digested(l@[k]@)) =~= paths(l@[k]@));
            }
        }
        assert forall|k: u64| #[trigger] out@.contains_key(k) implies l@.contains_key(k) by {
            assert(hashed@.contains_key(k));
        }
    }
    out
}

} // verus!
