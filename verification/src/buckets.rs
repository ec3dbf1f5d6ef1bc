//! Size-bucket mappings: their keys, candidate counts and byte totals.

use std::collections::HashMap;
use vstd::prelude::*;
use vstd::std_specs::hash::spec_keys_iter;
use vstd::std_specs::iter::IteratorSpec;

verus! {

broadcast use vstd::std_specs::hash::group_hash_axioms;

/// Every bucket holds at least `count` files, and there is no bucket of
/// empty files: what holds of the candidates after every stage.
pub open spec fn reaches_threshold<P>(m: Map<u64, Vec<P>>, count: u64) -> bool {
    &&& !m.contains_key(0)
    &&& forall|k: u64| #[trigger] m.contains_key(k) ==> m[k]@.len() >= count
}

/// `k` is one of the first `n` items of `keys`.
pub open spec fn among(keys: Seq<u64>, n: int, k: u64) -> bool {
    exists|j: int| 0 <= j < n && keys[j] == k
}

/// Taking one more item of `keys` adds that item and nothing else; without
/// repetitions it was not there before.
pub proof fn lemma_among_next(keys: Seq<u64>, n: int)
    requires
        0 <= n < keys.len(),
    ensures
        forall|k: u64| #[trigger] among(keys, n + 1, k) <==> among(keys, n, k) || k == keys[n],
        keys.no_duplicates() ==> !among(keys, n, keys[n]),
        forall|k: u64| #[trigger] among(keys, keys.len() as int, k) <==> keys.contains(k),
{
    assert forall|k: u64| #[trigger] among(keys, n + 1, k) implies among(keys, n, k) || k
        == keys[n] by {
        let j = choose|j: int| 0 <= j < n + 1 && keys[j] == k;
        if j < n {
            assert(among(keys, n, k));
        }
    }
    assert forall|k: u64| among(keys, n, k) || k == keys[n] implies #[trigger] among(
        keys,
        n + 1,
        k,
    ) by {
        if k == keys[n] {
            assert(0 <= n < n + 1 && keys[n] == k);
        } else {
            let j = choose|j: int| 0 <= j < n && keys[j] == k;
            assert(0 <= j < n + 1 && keys[j] == k);
        }
    }
}

/// The sizes that key a mapping, each once, in the order in which the map
/// hands them out.
pub fn bucket_sizes<V>(m: &HashMap<u64, V>) -> (sizes: Vec<u64>)
    ensures
        sizes@.no_duplicates(),
        sizes@.len() == m@.dom().len(),
        forall|k: u64| sizes@.contains(k) <==> m@.contains_key(k),
{
    let mut sizes: Vec<u64> = Vec::new();
    let ghost all: Seq<u64> = spec_keys_iter(m).remaining().unref();
    for k in it: m.keys()
        invariant
            it.seq().unref() == all,
            sizes@ == all.take(it.index() as int),
    {
        assert(all[it.index() as int] == *k);
        sizes.push(*k);
        assert(sizes@ == all.take(it.index() + 1));
    }
    proof {
        assert(all.take(all.len() as int) == all);
        assert(forall|k: u64| all.contains(k) <==> all.to_set().contains(k));
    }
    sizes
}

/// What one bucket adds to a total: its number of files, or their bytes.
pub open spec fn share<P>(size: u64, files: Vec<P>, bytes: bool) -> nat {
    if bytes {
        (size * files@.len()) as nat
    } else {
        files@.len()
    }
}

/// The sum of the shares of all buckets.
pub open spec fn total<P>(m: Map<u64, Vec<P>>, bytes: bool) -> nat
    decreases m.dom().len(),
    when m.dom().finite()
    via total_decreases::<P>
{
    if m.dom().len() > 0 {
        let k = m.dom().choose();
        share(k, m[k], bytes) + total(m.remove(k), bytes)
    } else {
        0
    }
}

#[via_fn]
proof fn total_decreases<P>(m: Map<u64, Vec<P>>, bytes: bool) {
    if m.dom().len() > 0 {
        let k = m.dom().choose();
        assert(m.dom().contains(k)) by {
            if m.dom() =~= Set::empty() {
            } else {
                let x = choose|x: u64| m.dom().contains(x);
                assert(m.dom().contains(x));
            }
        }
        assert(m.remove(k).dom() =~= m.dom().remove(k));
    }
}

/// The number of files in all buckets.
pub open spec fn file_total<P>(m: Map<u64, Vec<P>>) -> nat {
    total(m, false)
}

/// The number of bytes in all buckets: each file counts with the size that
/// keys its bucket.
pub open spec fn byte_total<P>(m: Map<u64, Vec<P>>) -> nat {
    total(m, true)
}

/// A total is the share of any one bucket plus the total of the others.
pub proof fn lemma_total_remove<P>(m: Map<u64, Vec<P>>, k: u64, bytes: bool)
    requires
        m.dom().finite(),
        m.contains_key(k),
    ensures
        total(m, bytes) == share(k, m[k], bytes) + total(m.remove(k), bytes),
    decreases m.dom().len(),
{
    assert(m.dom().len() > 0) by {
        if m.dom().len() == 0 {
            assert(m.dom() =~= Set::empty());
        }
    }
    let c = m.dom().choose();
    assert(m.dom().contains(c));
    if c != k {
        assert(m.remove(c).dom() =~= m.dom().remove(c));
        assert(m.remove(k).dom() =~= m.dom().remove(k));
        lemma_total_remove(m.remove(c), k, bytes);
        lemma_total_remove(m.remove(k), c, bytes);
        assert(m.remove(c).remove(k) =~= m.remove(k).remove(c));
    }
}

/// The number of candidate files and their total size in bytes, or `None`
/// where either does not fit in 64 bits.
pub fn try_generate_stats<P>(l: &HashMap<u64, Vec<P>>) -> (stats: Option<(u64, u64)>)
    ensures
        match stats {
            Some((files, bytes)) => files == file_total(l@) && bytes == byte_total(l@),
            None => file_total(l@) > u64::MAX || byte_total(l@) > u64::MAX,
        },
{
    let keys = bucket_sizes(l);
    let ghost mut rest: Map<u64, Vec<P>> = l@;
    proof {
        assert forall|j: int| 0 <= j < keys.len() implies l@.contains_key(#[trigger] keys[j]) by {
            assert(keys@.contains(keys@[j]));
        }
    }
    let mut file_count: u64 = 0;
    let mut total_size: u64 = 0;
    let mut i: usize = 0;
    while i < keys.len()
        invariant
            i <= keys.len(),
            keys@.no_duplicates(),
            rest.dom().finite(),
            rest.dom().len() == keys.len() - i,
            forall|j: int|
                i <= j < keys.len() ==> rest.contains_key(#[trigger] keys[j]) && rest[keys[j]]
                    == l@[keys[j]],
            forall|j: int| 0 <= j < keys.len() ==> l@.contains_key(#[trigger] keys[j]),
            file_count + total(rest, false) == total(l@, false),
            total_size + total(rest, true) == total(l@, true),
        decreases keys.len() - i,
    {
        let size: u64 = keys[i];
        proof {
            lemma_total_remove(rest, size, false);
            lemma_total_remove(rest, size, true);
            assert(rest.remove(size).dom() =~= rest.dom().remove(size));
            rest = rest.remove(size);
        }
        match l.get(&size) {
            Some(files) => {
                let n: u64 = files.len() as u64;
                let more = match size.checked_mul(n) {
                    Some(b) => b,
                    None => { return None; },
                };
                file_count = match file_count.checked_add(n) {
                    Some(c) => c,
                    None => { return None; },
                };
                total_size = match total_size.checked_add(more) {
                    Some(b) => b,
                    None => { return None; },
                };
            },
            None => {},
        }
        i = i + 1;
    }
    proof {
        assert(rest.dom().len() == 0);
    }
    Some((file_count, total_size))
}

/// The number of candidate files and their total size in bytes.
pub fn generate_stats<P>(l: HashMap<u64, Vec<P>>) -> (stats: (u64, u64))
    requires
        file_total(l@) <= u64::MAX,
        byte_total(l@) <= u64::MAX,
    ensures
        stats.0 == file_total(l@),
        stats.1 == byte_total(l@),
{
    let stats = try_generate_stats(&l);
    assert(stats is Some);
    stats.unwrap()
}

} // verus!
