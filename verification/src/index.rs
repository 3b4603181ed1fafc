//! One index: a component order applied to an ordered set of keys. What a
//! scan of an index for a pattern yields, and the operations of an order on
//! a tree.

use std::collections::BTreeSet;
use vstd::prelude::*;
use crate::keyset::{ascending, keys_contains, keys_insert, keys_new, keys_range, keys_remove};
use crate::order::{
    agrees,
    in_range,
    key_le,
    key_lt,
    layout,
    lemma_agrees_layout,
    lemma_layout_inverse,
    lemma_range_covers,
    is_permutation,
    lower_bound,
    tuple_of,
    unlayout,
    upper_bound,
    Block,
    BlockOrder,
    Four,
    Key,
    Pattern,
    Quad,
};

verus! {

/// The quads that a set of keys of order `roles` stands for.
pub open spec fn quads_of(roles: Four<int>, keys: Set<Key>) -> Set<Quad> {
    Set::new(|q: Quad| keys.contains(layout(roles, q)))
}

/// The keys of order `roles` that stand for a set of quads.
pub open spec fn keys_of(roles: Four<int>, quads: Set<Quad>) -> Set<Key> {
    Set::new(|k: Key| quads.contains(unlayout(roles, k)))
}

/// The quads of a set that agree with a pattern.
pub open spec fn matching(quads: Set<Quad>, p: Pattern) -> Set<Quad> {
    quads.filter(|q: Quad| agrees(q, p))
}

/// The keys of a set in ascending order.
pub open spec fn keys_in_order(keys: Set<Key>) -> Seq<Key> {
    choose|s: Seq<Key>| ascending(s) && s.to_set() == keys
}

/// The quads of those keys of `keys` that agree with `filter`, in the
/// order of `keys`.
pub open spec fn matching_quads(keys: Seq<Key>, roles: Four<int>, filter: Pattern) -> Seq<Quad>
    decreases keys.len(),
{
    if keys.len() == 0 {
        Seq::empty()
    } else {
        let rest = matching_quads(keys.drop_first(), roles, filter);
        if agrees(keys[0], filter) {
            seq![unlayout(roles, keys[0])] + rest
        } else {
            rest
        }
    }
}

/// The part of a set of keys that a scan for `p` visits.
pub open spec fn scanned_keys(roles: Four<int>, keys: Set<Key>, p: Pattern) -> Set<Key> {
    keys.filter(|k: Key| in_range(k, lower_bound(roles, p), upper_bound(roles, p)))
}

/// What a scan of an index for `p` yields: the keys of the range for `p`
/// in ascending order, those dropped that do not agree with the pattern,
/// each put back in quad order.
pub open spec fn index_scan(roles: Four<int>, keys: Set<Key>, p: Pattern) -> Seq<Quad> {
    matching_quads(keys_in_order(scanned_keys(roles, keys, p)), roles, layout(roles, p))
}

/// The keys of a set that do not agree with a filter laid out in their order.
pub open spec fn keys_without(keys: Set<Key>, filter: Pattern) -> Set<Key> {
    keys.filter(|k: Key| !agrees(k, filter))
}

/// An ascending sequence holds no key twice.
pub proof fn lemma_ascending_no_duplicates(s: Seq<Key>)
    requires
        ascending(s),
    ensures
        s.no_duplicates(),
{
    assert forall|i: int, j: int| 0 <= i < s.len() && 0 <= j < s.len() && i != j implies s[i]
        != s[j] by {
        if i < j {
            assert(key_lt(s[i], s[j]));
        } else {
            assert(key_lt(s[j], s[i]));
        }
    }
}

/// Two ascending sequences with the same keys are the same sequence: the
/// order in which an index hands out a set of keys is fixed by the set.
pub proof fn lemma_ascending_unique(a: Seq<Key>, b: Seq<Key>)
    requires
        ascending(a),
        ascending(b),
        a.to_set() == b.to_set(),
    ensures
        a == b,
    decreases a.len(),
{
    if a.len() == 0 {
        if b.len() > 0 {
            assert(b.to_set().contains(b[0]));
            assert(a.to_set().contains(b[0]));
        }
        assert(a =~= b);
    } else {
        assert(a.to_set().contains(a[0]));
        assert(b.to_set().contains(a[0]));
        assert(b.len() > 0);
        assert(b.to_set().contains(b[0]));
        assert(a.to_set().contains(b[0]));
        let j = choose|j: int| 0 <= j < b.len() && b[j] == a[0];
        let i = choose|i: int| 0 <= i < a.len() && a[i] == b[0];
        if j > 0 {
            assert(key_lt(b[0], b[j]));
        }
        if i > 0 {
            assert(key_lt(a[0], a[i]));
        }
        assert(a[0] == b[0]);
        let ta = a.drop_first();
        let tb = b.drop_first();
        assert forall|k: Key| ta.to_set().contains(k) <==> tb.to_set().contains(k) by {
            if ta.to_set().contains(k) {
                let x = choose|x: int| 0 <= x < ta.len() && ta[x] == k;
                assert(a[x + 1] == k);
                assert(key_lt(a[0], a[x + 1]));
                assert(a.to_set().contains(k));
                assert(b.to_set().contains(k));
                let y = choose|y: int| 0 <= y < b.len() && b[y] == k;
                assert(y != 0);
                assert(tb[y - 1] == k);
            }
            if tb.to_set().contains(k) {
                let x = choose|x: int| 0 <= x < tb.len() && tb[x] == k;
                assert(b[x + 1] == k);
                assert(key_lt(b[0], b[x + 1]));
                assert(b.to_set().contains(k));
                assert(a.to_set().contains(k));
                let y = choose|y: int| 0 <= y < a.len() && a[y] == k;
                assert(y != 0);
                assert(ta[y - 1] == k);
            }
        }
        assert(ta.to_set() =~= tb.to_set());
        assert forall|x: int, y: int| 0 <= x < y < ta.len() implies key_lt(
            #[trigger] ta[x],
            #[trigger] ta[y],
        ) by {
            assert(key_lt(a[x + 1], a[y + 1]));
        }
        assert forall|x: int, y: int| 0 <= x < y < tb.len() implies key_lt(
            #[trigger] tb[x],
            #[trigger] tb[y],
        ) by {
            assert(key_lt(b[x + 1], b[y + 1]));
        }
        lemma_ascending_unique(ta, tb);
        assert(a =~= seq![a[0]] + ta);
        assert(b =~= seq![b[0]] + tb);
    }
}

/// An ascending sequence is the keys in order of the set of its keys.
pub proof fn lemma_keys_in_order(s: Seq<Key>)
    requires
        ascending(s),
    ensures
        keys_in_order(s.to_set()) == s,
{
    let t = keys_in_order(s.to_set());
    assert(ascending(t) && t.to_set() == s.to_set());
    lemma_ascending_unique(t, s);
}

/// What `matching_quads` yields from an ascending sequence of keys: no quad
/// twice, and exactly the quads that agree with the pattern and whose key
/// is in the sequence.
pub proof fn lemma_matching_quads(keys: Seq<Key>, roles: Four<int>, p: Pattern)
    requires
        is_permutation(roles),
        ascending(keys),
    ensures
        matching_quads(keys, roles, layout(roles, p)).no_duplicates(),
        matching_quads(keys, roles, layout(roles, p)).len() <= keys.len(),
        forall|q: Quad| #[trigger]
            matching_quads(keys, roles, layout(roles, p)).contains(q) <==> keys.contains(
                layout(roles, q),
            ) && agrees(q, p),
    decreases keys.len(),
{
    let f = layout(roles, p);
    let s = matching_quads(keys, roles, f);
    if keys.len() == 0 {
    } else {
        let tail = keys.drop_first();
        let rest = matching_quads(tail, roles, f);
        assert forall|x: int, y: int| 0 <= x < y < tail.len() implies key_lt(
            #[trigger] tail[x],
            #[trigger] tail[y],
        ) by {
            assert(key_lt(keys[x + 1], keys[y + 1]));
        }
        lemma_matching_quads(tail, roles, p);
        let head = unlayout(roles, keys[0]);
        lemma_layout_inverse(roles, keys[0]);
        lemma_agrees_layout(roles, keys[0], p);
        assert forall|q: Quad| #[trigger] s.contains(q) <==> keys.contains(layout(roles, q))
            && agrees(q, p) by {
            lemma_layout_inverse(roles, q);
            if s.contains(q) {
                let i = choose|i: int| 0 <= i < s.len() && s[i] == q;
                if agrees(keys[0], f) && i == 0 {
                    assert(q == head);
                    assert(keys[0] == layout(roles, q));
                } else {
                    if agrees(keys[0], f) {
                        assert(rest[i - 1] == q);
                    } else {
                        assert(rest[i] == q);
                    }
                    assert(rest.contains(q));
                    let j = choose|j: int| 0 <= j < tail.len() && tail[j] == layout(roles, q);
                    assert(keys[j + 1] == layout(roles, q));
                }
            }
            if keys.contains(layout(roles, q)) && agrees(q, p) {
                let j = choose|j: int| 0 <= j < keys.len() && keys[j] == layout(roles, q);
                if j == 0 {
                    assert(head == q);
                    assert(s[0] == q);
                } else {
                    assert(tail[j - 1] == layout(roles, q));
                    assert(rest.contains(q));
                    let i = choose|i: int| 0 <= i < rest.len() && rest[i] == q;
                    if agrees(keys[0], f) {
                        assert(s[i + 1] == q);
                    } else {
                        assert(s[i] == q);
                    }
                }
            }
        }
        if agrees(keys[0], f) {
            assert(!rest.contains(head)) by {
                if rest.contains(head) {
                    let j = choose|j: int| 0 <= j < tail.len() && tail[j] == layout(roles, head);
                    assert(key_lt(keys[0], keys[j + 1]));
                }
            }
            assert forall|x: int, y: int|
                0 <= x < s.len() && 0 <= y < s.len() && x != y implies s[x] != s[y] by {
                if x > 0 && y > 0 {
                    assert(rest[x - 1] != rest[y - 1]);
                } else if x == 0 {
                    assert(rest[y - 1] == s[y]);
                } else {
                    assert(rest[x - 1] == s[x]);
                }
            }
        }
    }
}

/// A scan of a tree for a pattern: the keys of the range that serves the
/// pattern, and a cursor on them. `next` hands out, one by one, the quads of
/// those keys that agree with the pattern.
pub struct FilteredIndexQuads {
    /// The keys of the range, in ascending order.
    range: Vec<Key>,
    /// How many keys of the range have been visited.
    position: usize,
    /// The order of the keys.
    block_order: BlockOrder,
    /// The pattern, laid out in the order of the keys.
    term_filter: Block<Option<u32>>,
}

impl FilteredIndexQuads {
    /// The cursor lies within the range and the order is well formed.
    pub closed spec fn wf(&self) -> bool {
        &&& self.position <= self.range.len()
        &&& self.block_order.wf()
    }

    /// The quads that are still to come, in the order in which `next` will
    /// hand them out.
    pub closed spec fn remaining(&self) -> Seq<Quad> {
        matching_quads(
            self.range@.skip(self.position as int),
            self.block_order.roles(),
            self.term_filter.tuple(),
        )
    }

    /// Hands out the next quad of the scan, or `None` when the scan is over.
    pub fn next(&mut self) -> (item: Option<[u32; 4]>)
        requires
            old(self).wf(),
        ensures
            final(self).wf(),
            match item {
                Some(quad) => {
                    &&& old(self).remaining().len() > 0
                    &&& tuple_of(quad) == old(self).remaining()[0]
                    &&& final(self).remaining() == old(self).remaining().drop_first()
                },
                None => {
                    &&& old(self).remaining().len() == 0
                    &&& final(self).remaining() == old(self).remaining()
                },
            },
    {
        while self.position < self.range.len()
            invariant
                self.wf(),
                self.range == old(self).range,
                self.block_order == old(self).block_order,
                self.term_filter == old(self).term_filter,
                self.remaining() == old(self).remaining(),
            decreases self.range.len() - self.position,
        {
            let ghost before = self.range@.skip(self.position as int);
            let block = Block::from_key(self.range[self.position]);
            self.position = self.position + 1;
            proof {
                assert(before.drop_first() =~= self.range@.skip(self.position as int));
                assert(before[0] == block.tuple());
            }
            if block.match_option_block(&self.term_filter) {
                let quad = self.block_order.to_indices(&block);
                proof {
                    let rest = self.remaining();
                    assert(old(self).remaining() == seq![tuple_of(quad)] + rest);
                    assert((seq![tuple_of(quad)] + rest).drop_first() =~= rest);
                }
                return Some(quad);
            }
        }
        proof {
            assert(self.range@.skip(self.position as int).len() == 0);
        }
        None
    }
}

impl BlockOrder {
    /// Inserts the quad in the tree, under this order. Returns `true` if the
    /// quad was already there.
    pub fn insert_into(&self, tree: &mut BTreeSet<Key>, spog: &[u32; 4]) -> (present: bool)
        requires
            self.wf(),
        ensures
            final(tree)@ == old(tree)@.insert(layout(self.roles(), tuple_of(*spog))),
            present == old(tree)@.contains(layout(self.roles(), tuple_of(*spog))),
    {
        let block = self.to_block(spog);
        !keys_insert(tree, block.to_key())
    }

    /// Deletes the quad from the tree, under this order. Returns `true` if
    /// the quad was there.
    pub fn delete_from(&self, tree: &mut BTreeSet<Key>, spog: &[u32; 4]) -> (present: bool)
        requires
            self.wf(),
        ensures
            final(tree)@ == old(tree)@.remove(layout(self.roles(), tuple_of(*spog))),
            present == old(tree)@.contains(layout(self.roles(), tuple_of(*spog))),
    {
        let block = self.to_block(spog);
        keys_remove(tree, block.to_key())
    }

    /// Whether the tree holds the quad, under this order.
    pub fn contains(&self, tree: &BTreeSet<Key>, spog: &[u32; 4]) -> (present: bool)
        requires
            self.wf(),
        ensures
            present == tree@.contains(layout(self.roles(), tuple_of(*spog))),
    {
        let block = self.to_block(spog);
        keys_contains(tree, block.to_key())
    }

    /// Inserts in the tree, under this order, every quad that the scan
    /// still has to hand out.
    pub fn insert_all_into(&self, tree: &mut BTreeSet<Key>, iterator: FilteredIndexQuads)
        requires
            self.wf(),
            iterator.wf(),
        ensures
            final(tree)@ == old(tree)@.union(keys_of(self.roles(), iterator.remaining().to_set())),
    {
        let mut iterator = iterator;
        let ghost all = iterator.remaining();
        let ghost mut done: Seq<Quad> = Seq::empty();
        proof {
            self.lemma_wf_permutation();
            assert(tree@ =~= old(tree)@.union(keys_of(self.roles(), done.to_set())));
        }
        loop
            invariant
                self.wf(),
                is_permutation(self.roles()),
                iterator.wf(),
                all == done + iterator.remaining(),
                tree@ == old(tree)@.union(keys_of(self.roles(), done.to_set())),
            ensures
                iterator.remaining().len() == 0,
            decreases iterator.remaining().len(),
        {
            let ghost before = iterator.remaining();
            match iterator.next() {
                None => {
                    break ;
                },
                Some(spog) => {
                    let ghost prev = tree@;
                    let block = self.to_block(&spog);
                    keys_insert(tree, block.to_key());
                    proof {
                        let q = tuple_of(spog);
                        let grown = done.push(q);
                        assert(grown + iterator.remaining() =~= done + before);
                        lemma_layout_inverse(self.roles(), q);
                        assert forall|k: Key| #[trigger]
                            keys_of(self.roles(), grown.to_set()).contains(k) <==> (keys_of(
                                self.roles(),
                                done.to_set(),
                            ).contains(k) || k == layout(self.roles(), q)) by {
                            lemma_layout_inverse(self.roles(), k);
                            if grown.contains(unlayout(self.roles(), k)) {
                                let i = choose|i: int|
                                    0 <= i < grown.len() && grown[i] == unlayout(self.roles(), k);
                                if i < done.len() {
                                    assert(done[i] == unlayout(self.roles(), k));
                                }
                            }
                            if done.contains(unlayout(self.roles(), k)) {
                                let i = choose|i: int|
                                    0 <= i < done.len() && done[i] == unlayout(self.roles(), k);
                                assert(grown[i] == unlayout(self.roles(), k));
                            }
                            if k == layout(self.roles(), q) {
                                assert(grown[done.len() as int] == q);
                            }
                        }
                        assert(tree@ =~= old(tree)@.union(
                            keys_of(self.roles(), grown.to_set()),
                        ));
                        done = grown;
                    }
                },
            }
        }
        proof {
            assert(all =~= done);
        }
    }

    /// A scan of the tree for the quads that agree with `spog`. The scan
    /// visits the range of this order for the pattern and nothing else.
    pub fn filter(&self, tree: &BTreeSet<Key>, spog: [Option<u32>; 4]) -> (scan: FilteredIndexQuads)
        requires
            self.wf(),
        ensures
            scan.wf(),
            scan.remaining() == index_scan(self.roles(), tree@, tuple_of(spog)),
    {
        let (lo, hi, term_filter) = self.range(spog);
        let range = keys_range(tree, lo.to_key(), hi.to_key());
        proof {
            let p = tuple_of(spog);
            assert(range@.to_set() =~= scanned_keys(self.roles(), tree@, p));
            lemma_keys_in_order(range@);
            assert(range@.skip(0) =~= range@);
        }
        FilteredIndexQuads { range, position: 0, block_order: *self, term_filter }
    }

    /// A new tree with the keys of `source` whose quads do not agree with
    /// `spog`.
    pub fn build_new_tree_by_filtering(
        &self,
        source: &BTreeSet<Key>,
        spog: &[Option<u32>; 4],
    ) -> (kept: BTreeSet<Key>)
        requires
            self.wf(),
        ensures
            kept@ == keys_without(source@, layout(self.roles(), tuple_of(*spog))),
            source@.finite() ==> kept@.finite() && kept@.len() <= source@.len(),
    {
        let filter_block = self.to_filter_block(spog);
        let least = (u32::MIN, u32::MIN, u32::MIN, u32::MIN);
        let greatest = (u32::MAX, u32::MAX, u32::MAX, u32::MAX);
        let all = keys_range(source, least, greatest);
        let mut kept = keys_new();
        let mut i: usize = 0;
        while i < all.len()
            invariant
                0 <= i <= all.len(),
                forall|k: Key| #[trigger]
                    kept@.contains(k) <==> all@.take(i as int).contains(k) && !agrees(
                        k,
                        filter_block.tuple(),
                    ),
            decreases all.len() - i,
        {
            let block = Block::from_key(all[i]);
            proof {
                let grown = all@.take(i + 1);
                assert(grown =~= all@.take(i as int).push(all@[i as int]));
                assert forall|k: Key| grown.contains(k) <==> (all@.take(i as int).contains(k) || k
                    == all@[i as int]) by {
                    if grown.contains(k) {
                        let j = choose|j: int| 0 <= j < grown.len() && grown[j] == k;
                        if j < i {
                            assert(all@.take(i as int)[j] == k);
                        }
                    }
                    if all@.take(i as int).contains(k) {
                        let j = choose|j: int| 0 <= j < i && all@.take(i as int)[j] == k;
                        assert(grown[j] == k);
                    }
                    if k == all@[i as int] {
                        assert(grown[i as int] == k);
                    }
                }
            }
            if !block.match_option_block(&filter_block) {
                keys_insert(&mut kept, block.to_key());
            }
            i = i + 1;
        }
        proof {
            assert(all@.take(i as int) =~= all@);
            assert forall|k: Key| all@.contains(k) <==> source@.contains(k) by {
                assert(all@.to_set().contains(k) <==> all@.contains(k));
            }
            assert(kept@ =~= keys_without(source@, filter_block.tuple()));
            if source@.finite() {
                source@.lemma_len_filter(|k: Key| !agrees(k, filter_block.tuple()));
            }
        }
        kept
    }
}

/// Every finite set of keys can be put in ascending order.
pub proof fn lemma_keys_in_order_exists(keys: Set<Key>)
    requires
        keys.finite(),
    ensures
        ascending(keys_in_order(keys)),
        keys_in_order(keys).to_set() == keys,
        keys_in_order(keys).len() == keys.len(),
    decreases keys.len(),
{
    broadcast use vstd::set::group_set_axioms;

    if keys.len() == 0 {
        let e = Seq::<Key>::empty();
        assert(e.to_set() =~= keys);
        assert(ascending(e) && e.to_set() == keys);
    } else {
        let le = |a: Key, b: Key| key_le(a, b);
        assert(vstd::relations::total_ordering(le)) by {
            assert forall|x: Key| #[trigger] le(x, x) by {}
            assert forall|x: Key, y: Key| #[trigger] le(x, y) && #[trigger] le(y, x) implies x
                == y by {}
            assert forall|x: Key, y: Key, z: Key| #[trigger] le(x, y) && #[trigger] le(
                y,
                z,
            ) implies le(x, z) by {}
            assert forall|x: Key, y: Key| #[trigger] le(x, y) || #[trigger] le(y, x) by {}
        }
        keys.find_unique_maximal_ensures(le);
        let top = keys.find_unique_maximal(le);
        let rest = keys.remove(top);
        lemma_keys_in_order_exists(rest);
        let below = keys_in_order(rest);
        let all = below.push(top);
        assert forall|i: int, j: int| 0 <= i < j < all.len() implies key_lt(
            #[trigger] all[i],
            #[trigger] all[j],
        ) by {
            if j < below.len() {
                assert(key_lt(below[i], below[j]));
            } else {
                assert(below.to_set().contains(below[i]));
                assert(keys.contains(all[i]));
                assert(le(top, all[i]) ==> le(all[i], top));
                assert(le(all[i], top) || le(top, all[i]));
            }
        }
        assert forall|k: Key| all.to_set().contains(k) <==> keys.contains(k) by {
            if all.contains(k) {
                let i = choose|i: int| 0 <= i < all.len() && all[i] == k;
                if i < below.len() {
                    assert(below.to_set().contains(below[i]));
                }
            }
            if keys.contains(k) {
                if k == top {
                    assert(all[below.len() as int] == k);
                } else {
                    assert(below.to_set().contains(k));
                    let i = choose|i: int| 0 <= i < below.len() && below[i] == k;
                    assert(all[i] == k);
                }
            }
        }
        assert(all.to_set() =~= keys);
        assert(ascending(all) && all.to_set() == keys);
    }
    let found = keys_in_order(keys);
    lemma_ascending_no_duplicates(found);
    found.unique_seq_to_set();
}

/// The quads of a finite set of keys are as many as the keys, and a quad is
/// among them exactly when its key is in the set.
pub proof fn lemma_quads_of(roles: Four<int>, keys: Set<Key>)
    requires
        is_permutation(roles),
        keys.finite(),
    ensures
        quads_of(roles, keys).finite(),
        quads_of(roles, keys).len() == keys.len(),
        keys_of(roles, quads_of(roles, keys)) == keys,
{
    let back = |k: Key| unlayout(roles, k);
    assert forall|a: Key, b: Key| #[trigger] back(a) == #[trigger] back(b) implies a == b by {
        lemma_layout_inverse(roles, a);
        lemma_layout_inverse(roles, b);
    }
    assert forall|q: Quad| keys.map(back).contains(q) <==> quads_of(roles, keys).contains(q) by {
        lemma_layout_inverse(roles, q);
        if keys.map(back).contains(q) {
            let k = choose|k: Key| keys.contains(k) && back(k) == q;
            lemma_layout_inverse(roles, k);
        }
        if quads_of(roles, keys).contains(q) {
            assert(keys.contains(layout(roles, q)) && back(layout(roles, q)) == q);
        }
    }
    assert(keys.map(back) =~= quads_of(roles, keys));
    vstd::set_lib::lemma_map_size(keys, quads_of(roles, keys), back);
    assert forall|k: Key| keys_of(roles, quads_of(roles, keys)).contains(k) <==> keys.contains(
        k,
    ) by {
        lemma_layout_inverse(roles, k);
    }
    assert(keys_of(roles, quads_of(roles, keys)) =~= keys);
}

/// The keys of a finite set of quads are as many as the quads, and stand
/// for those quads again.
pub proof fn lemma_keys_of(roles: Four<int>, quads: Set<Quad>)
    requires
        is_permutation(roles),
        quads.finite(),
    ensures
        keys_of(roles, quads).finite(),
        keys_of(roles, quads).len() == quads.len(),
        quads_of(roles, keys_of(roles, quads)) == quads,
{
    let forth = |q: Quad| layout(roles, q);
    assert forall|a: Quad, b: Quad| #[trigger] forth(a) == #[trigger] forth(b) implies a == b by {
        lemma_layout_inverse(roles, a);
        lemma_layout_inverse(roles, b);
    }
    assert forall|k: Key| quads.map(forth).contains(k) <==> keys_of(roles, quads).contains(k) by {
        lemma_layout_inverse(roles, k);
        if quads.map(forth).contains(k) {
            let q = choose|q: Quad| quads.contains(q) && forth(q) == k;
            lemma_layout_inverse(roles, q);
        }
        if keys_of(roles, quads).contains(k) {
            assert(quads.contains(unlayout(roles, k)) && forth(unlayout(roles, k)) == k);
        }
    }
    assert(quads.map(forth) =~= keys_of(roles, quads));
    vstd::set_lib::lemma_map_size(quads, keys_of(roles, quads), forth);
    assert forall|q: Quad| quads_of(roles, keys_of(roles, quads)).contains(q) <==> quads.contains(
        q,
    ) by {
        lemma_layout_inverse(roles, q);
    }
    assert(quads_of(roles, keys_of(roles, quads)) =~= quads);
}

/// A scan of an index for a pattern yields each quad of the index that
/// agrees with the pattern, once, and no other quad.
pub proof fn lemma_index_scan(roles: Four<int>, keys: Set<Key>, p: Pattern)
    requires
        is_permutation(roles),
        keys.finite(),
    ensures
        index_scan(roles, keys, p).no_duplicates(),
        index_scan(roles, keys, p).to_set() == matching(quads_of(roles, keys), p),
        index_scan(roles, keys, p).len() == matching(quads_of(roles, keys), p).len(),
        index_scan(roles, keys, p).len() <= keys.len(),
{
    let scanned = scanned_keys(roles, keys, p);
    keys.lemma_len_filter(|k: Key| in_range(k, lower_bound(roles, p), upper_bound(roles, p)));
    lemma_keys_in_order_exists(scanned);
    let ordered = keys_in_order(scanned);
    lemma_matching_quads(ordered, roles, p);
    let found = index_scan(roles, keys, p);
    assert forall|q: Quad| found.to_set().contains(q) <==> matching(
        quads_of(roles, keys),
        p,
    ).contains(q) by {
        let k = layout(roles, q);
        lemma_layout_inverse(roles, q);
        lemma_agrees_layout(roles, k, p);
        lemma_range_covers(roles, p, k);
        assert(ordered.contains(k) <==> ordered.to_set().contains(k));
    }
    assert(found.to_set() =~= matching(quads_of(roles, keys), p));
    found.unique_seq_to_set();
}

} // verus!
