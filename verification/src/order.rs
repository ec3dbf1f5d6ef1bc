//! The order in which the entries of a directory are walked. The first file
//! of a duplicate group in this order is the one that survives.

use vstd::prelude::*;

verus! {

/// What the entries of a directory are ordered by.
#[derive(Clone, Copy, Debug, PartialEq, Eq, Structural)]
pub enum DirSortOrder {
    INode,
    Filename,
    Depth,
}

/// How one entry stands to another in the walk.
#[derive(Clone, Copy, Debug, PartialEq, Eq, Structural)]
pub enum Precedence {
    Before,
    Same,
    After,
}

/// What an entry is ordered by: its inode number, the bytes of its file name
/// and its depth below the root.
#[derive(Clone, Debug, PartialEq, Eq)]
pub struct SortKey {
    pub inode: u64,
    pub name: Vec<u8>,
    pub depth: usize,
}

/// The order of two numbers.
pub open spec fn number_precedence(a: int, b: int) -> Precedence {
    if a < b {
        Precedence::Before
    } else if a > b {
        Precedence::After
    } else {
        Precedence::Same
    }
}

/// The order of two byte strings: by the first byte in which they differ; a
/// string comes before every string that it begins.
pub open spec fn bytes_precedence(a: Seq<u8>, b: Seq<u8>) -> Precedence
    decreases a.len(),
{
    if a.len() == 0 && b.len() == 0 {
        Precedence::Same
    } else if a.len() == 0 {
        Precedence::Before
    } else if b.len() == 0 {
        Precedence::After
    } else if a[0] != b[0] {
        number_precedence(a[0] as int, b[0] as int)
    } else {
        bytes_precedence(a.skip(1), b.skip(1))
    }
}

/// The order of two entries under `order`.
pub open spec fn key_precedence(order: DirSortOrder, a: SortKey, b: SortKey) -> Precedence {
    match order {
        DirSortOrder::INode => number_precedence(a.inode as int, b.inode as int),
        DirSortOrder::Filename => bytes_precedence(a.name@, b.name@),
        DirSortOrder::Depth => number_precedence(a.depth as int, b.depth as int),
    }
}

/// Two byte strings are in the same place of the order exactly when they
/// are equal.
pub proof fn lemma_bytes_same_iff_equal(a: Seq<u8>, b: Seq<u8>)
    ensures
        bytes_precedence(a, b) == Precedence::Same <==> a == b,
    decreases a.len(),
{
    if a.len() == 0 || b.len() == 0 {
        if a.len() == 0 && b.len() == 0 {
            assert(a =~= b);
        }
    } else if a[0] == b[0] {
        lemma_bytes_same_iff_equal(a.skip(1), b.skip(1));
        if a.skip(1) == b.skip(1) {
            assert(a =~= seq![a[0]] + a.skip(1));
            assert(b =~= seq![b[0]] + b.skip(1));
        }
    }
}

/// Swapping the two byte strings swaps before and after.
pub proof fn lemma_bytes_antisymmetric(a: Seq<u8>, b: Seq<u8>)
    ensures
        bytes_precedence(a, b) == Precedence::Before <==> bytes_precedence(b, a)
            == Precedence::After,
    decreases a.len(),
{
    if a.len() > 0 && b.len() > 0 && a[0] == b[0] {
        lemma_bytes_antisymmetric(a.skip(1), b.skip(1));
    }
}

fn compare_numbers(a: u64, b: u64) -> (p: Precedence)
    ensures
        p == number_precedence(a as int, b as int),
{
    if a < b {
        Precedence::Before
    } else if a > b {
        Precedence::After
    } else {
        Precedence::Same
    }
}

fn compare_bytes(a: &Vec<u8>, b: &Vec<u8>) -> (p: Precedence)
    ensures
        p == bytes_precedence(a@, b@),
{
    let mut i: usize = 0;
    proof {
        assert(a@.skip(0) == a@);
        assert(b@.skip(0) == b@);
    }
    while i < a.len() && i < b.len()
        invariant
            i <= a.len(),
            i <= b.len(),
            bytes_precedence(a@, b@) == bytes_precedence(a@.skip(i as int), b@.skip(i as int)),
        decreases a.len() - i,
    {
        proof {
            assert(a@.skip(i as int).skip(1) == a@.skip(i + 1));
            assert(b@.skip(i as int).skip(1) == b@.skip(i + 1));
        }
        if a[i] != b[i] {
            return compare_numbers(a[i] as u64, b[i] as u64);
        }
        i = i + 1;
    }
    if i < b.len() {
        Precedence::Before
    } else if i < a.len() {
        Precedence::After
    } else {
        Precedence::Same
    }
}

/// Compares two entries of a directory under `order`.
pub fn compare_entries(order: DirSortOrder, a: &SortKey, b: &SortKey) -> (p: Precedence)
    ensures
        p == key_precedence(order, *a, *b),
{
    match order {
        DirSortOrder::INode => compare_numbers(a.inode, b.inode),
        DirSortOrder::Filename => compare_bytes(&a.name, &b.name),
        DirSortOrder::Depth => compare_numbers(a.depth as u64, b.depth as u64),
    }
}

} // verus!
