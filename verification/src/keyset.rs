//! The ordered set of keys behind one index: a `BTreeSet` of 4-tuples, whose
//! order is the slot-by-slot order of keys.

use std::collections::BTreeSet;
use vstd::prelude::*;
use crate::order::{in_range, key_le, key_lt, Key};

verus! {

/// Whether each key of `s` comes before every later one.
pub open spec fn ascending(s: Seq<Key>) -> bool {
    forall|i: int, j: int| 0 <= i < j < s.len() ==> key_lt(#[trigger] s[i], #[trigger] s[j])
}

/// An empty set of keys.
pub fn keys_new() -> (tree: BTreeSet<Key>)
    ensures
        tree@ == Set::<Key>::empty(),
{
    BTreeSet::new()
}

/// Inserts `k` and tells whether it was new.
pub fn keys_insert(tree: &mut BTreeSet<Key>, k: Key) -> (fresh: bool)
    ensures
        final(tree)@ == old(tree)@.insert(k),
        fresh == !old(tree)@.contains(k),
{
    broadcast use vstd::laws_cmp::group_laws_cmp;

    tree.insert(k)
}

/// Removes `k` and tells whether it was there.
pub fn keys_remove(tree: &mut BTreeSet<Key>, k: Key) -> (found: bool)
    ensures
        final(tree)@ == old(tree)@.remove(k),
        found == old(tree)@.contains(k),
{
    broadcast use vstd::laws_cmp::group_laws_cmp;

    tree.remove(&k)
}

/// Whether `k` is in the set.
pub fn keys_contains(tree: &BTreeSet<Key>, k: Key) -> (found: bool)
    ensures
        found == tree@.contains(k),
{
    broadcast use vstd::laws_cmp::group_laws_cmp;

    tree.contains(&k)
}

/// The number of keys in the set.
pub fn keys_len(tree: &BTreeSet<Key>) -> (n: usize)
    ensures
        n == tree@.len(),
{
    broadcast use vstd::laws_cmp::group_laws_cmp;

    tree.len()
}

/// A set of keys holds no more keys than a `usize` can count.
pub proof fn lemma_keys_len_fits(tree: &BTreeSet<Key>)
    ensures
        tree@.len() <= usize::MAX,
{
    broadcast use vstd::laws_cmp::group_laws_cmp;

    assert(tree.len() == tree@.len());
}

/// `BTreeSet::range` over the inclusive range from `lo` to `hi`, copied out.
/// The set hands out, in ascending order and each once, exactly those of
/// its keys that lie in the range. It panics on a range whose start lies
/// after its end, which `requires` leaves out.
#[verifier::external_body]
pub(crate) fn keys_range(tree: &BTreeSet<Key>, lo: Key, hi: Key) -> (found: Vec<Key>)
    requires
        key_le(lo, hi),
    ensures
        ascending(found@),
        found@.to_set() == tree@.filter(|k: Key| in_range(k, lo, hi)),
{
    tree.range(lo..=hi).copied().collect()
}

/// `BTreeSet::intersection`, collected: the keys that are in both sets.
#[verifier::external_body]
pub(crate) fn keys_intersection(a: &BTreeSet<Key>, b: &BTreeSet<Key>) -> (both: BTreeSet<Key>)
    ensures
        both@ == a@.intersect(b@),
{
    a.intersection(b).copied().collect()
}

/// `BTreeSet::union`, collected: the keys that are in either set.
#[verifier::external_body]
pub(crate) fn keys_union(a: &BTreeSet<Key>, b: &BTreeSet<Key>) -> (either: BTreeSet<Key>)
    ensures
        either@ == a@.union(b@),
{
    a.union(b).copied().collect()
}

/// `BTreeSet::difference`, collected: the keys of `a` that are not in `b`.
#[verifier::external_body]
pub(crate) fn keys_difference(a: &BTreeSet<Key>, b: &BTreeSet<Key>) -> (rest: BTreeSet<Key>)
    ensures
        rest@ == a@.difference(b@),
{
    a.difference(b).copied().collect()
}

/// `BTreeSet::is_superset`: whether every key of `b` is in `a`.
#[verifier::external_body]
pub(crate) fn keys_is_superset(a: &BTreeSet<Key>, b: &BTreeSet<Key>) -> (all: bool)
    ensures
        all == b@.subset_of(a@),
{
    a.is_superset(b)
}

} // verus!
