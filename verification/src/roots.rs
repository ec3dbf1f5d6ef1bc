//! Choosing the directories to walk among the roots that were given.

use vstd::prelude::*;

verus! {

/// A root as the caller resolved it: the bytes of its absolute path, and
/// whether a directory lies there.
#[derive(Clone, Debug, PartialEq, Eq)]
pub struct ResolvedRoot {
    pub path: Vec<u8>,
    pub is_directory: bool,
}

/// An earlier root has the same path as root `i`.
pub open spec fn repeated(roots: Seq<ResolvedRoot>, i: int) -> bool {
    exists|j: int| 0 <= j < i && (#[trigger] roots[j]).path@ == roots[i].path@
}

/// Root `i` is met for the first time and is no directory.
pub open spec fn offending(roots: Seq<ResolvedRoot>, i: int) -> bool {
    !roots[i].is_directory && !repeated(roots, i)
}

/// The positions of the roots that are met for the first time, in order.
pub open spec fn first_visits(roots: Seq<ResolvedRoot>) -> Seq<usize>
    decreases roots.len(),
{
    if roots.len() == 0 {
        Seq::empty()
    } else {
        let rest = first_visits(roots.drop_last());
        if repeated(roots, roots.len() - 1) {
            rest
        } else {
            rest.push((roots.len() - 1) as usize)
        }
    }
}

fn same_bytes(a: &Vec<u8>, b: &Vec<u8>) -> (same: bool)
    ensures
        same <==> a@ == b@,
{
    if a.len() != b.len() {
        return false;
    }
    let mut i: usize = 0;
    while i < a.len()
        invariant
            i <= a.len(),
            a.len() == b.len(),
            forall|j: int| 0 <= j < i ==> a[j] == b[j],
        decreases a.len() - i,
    {
        if a[i] != b[i] {
            return false;
        }
        i = i + 1;
    }
    assert(a@ =~= b@);
    true
}

fn met_before(roots: &Vec<ResolvedRoot>, i: usize) -> (hit: bool)
    requires
        i < roots.len(),
    ensures
        hit <==> repeated(roots@, i as int),
{
    let mut j: usize = 0;
    while j < i
        invariant
            j <= i,
            i < roots.len(),
            forall|k: int| 0 <= k < j ==> (#[trigger] roots[k]).path@ != roots[i as int].path@,
        decreases i - j,
    {
        if same_bytes(&roots[j].path, &roots[i].path) {
            return true;
        }
        j = j + 1;
    }
    false
}

/// Picks the directories to walk: each path once, at its first position. The
/// first root that is no directory ends the selection with its position.
pub fn get_directories(roots: &Vec<ResolvedRoot>) -> (res: Result<Vec<usize>, usize>)
    ensures
        match res {
            Ok(picked) => picked@ == first_visits(roots@) && forall|i: int|
                0 <= i < roots.len() ==> !offending(roots@, i),
            Err(at) => at < roots.len() && offending(roots@, at as int) && forall|i: int|
                0 <= i < at ==> !offending(roots@, i),
        },
{
    let mut picked: Vec<usize> = Vec::new();
    let mut i: usize = 0;
    while i < roots.len()
        invariant
            i <= roots.len(),
            picked@ == first_visits(roots@.take(i as int)),
            forall|k: int| 0 <= k < i ==> !offending(roots@, k),
        decreases roots.len() - i,
    {
        proof {
            let next = roots@.take(i + 1);
            assert(next.drop_last() == roots@.take(i as int));
            assert(repeated(next, i as int) <==> repeated(roots@, i as int)) by {
                if repeated(next, i as int) {
                    let j = choose|j: int| 0 <= j < i && (#[trigger] next[j]).path@ == next[i as int].path@;
                    assert(roots@[j].path@ == roots@[i as int].path@);
                }
                if repeated(roots@, i as int) {
                    let j = choose|j: int|
                        0 <= j < i && (#[trigger] roots@[j]).path@ == roots@[i as int].path@;
                    assert(next[j].path@ == next[i as int].path@);
                }
            }
        }
        if !met_before(roots, i) {
            if !roots[i].is_directory {
                return Err(i);
            }
            picked.push(i);
        }
        i = i + 1;
    }
    proof {
        assert(roots@.take(roots.len() as int) == roots@);
    }
    Ok(picked)
}

} // verus!
