//! The forest: one primary index that always holds every quad, and
//! secondary indexes in other orders that are built when a query first
//! asks for them.

use once_cell::unsync::OnceCell;
use std::collections::BTreeSet;
use vstd::prelude::*;
use crate::index::{
    index_scan,
    keys_of,
    lemma_index_scan,
    lemma_keys_of,
    lemma_quads_of,
    matching,
    quads_of,
    FilteredIndexQuads,
};
use crate::keyset::{
    keys_difference,
    keys_insert,
    keys_intersection,
    keys_is_superset,
    keys_len,
    keys_new,
    lemma_keys_len_fits,
    keys_union,
};
use crate::latch::{
    latch_filled,
    latch_get,
    latch_get_mut,
    latch_keys,
    latch_new,
    latch_set,
    latch_take,
};
use crate::order::{
    agrees,
    is_permutation,
    layout,
    lemma_layout_inverse,
    pattern_of_refs,
    pick,
    positions,
    prefix_score,
    tuple_of,
    unlayout,
    BlockOrder,
    Four,
    Key,
    Pattern,
    Quad,
    TermRole,
};

verus! {

/// What a forest is, apart from how its trees are stored: its orders, which
/// of its secondary indexes are built, and the quads it holds.
pub struct ForestView {
    /// The order of the primary index.
    pub primary: Four<int>,
    /// The orders of the secondary indexes, as they were declared.
    pub secondaries: Seq<Four<int>>,
    /// For each secondary index, whether it is built.
    pub built: Seq<bool>,
    /// The quads of the forest.
    pub quads: Set<Quad>,
}

/// The number of `true` entries of `flags`.
pub open spec fn count_true(flags: Seq<bool>) -> nat
    decreases flags.len(),
{
    if flags.len() == 0 {
        0
    } else {
        count_true(flags.drop_last()) + if flags.last() {
            1nat
        } else {
            0nat
        }
    }
}

impl ForestView {
    /// The order of index `c`: the primary for a negative `c`, else the
    /// secondary of that number.
    pub open spec fn roles_at(self, c: int) -> Four<int> {
        if c < 0 {
            self.primary
        } else {
            self.secondaries[c]
        }
    }

    /// Whether index `c` is built. The primary always is.
    pub open spec fn built_at(self, c: int) -> bool {
        c < 0 || self.built[c]
    }

    /// Whether a query may use index `c`: the primary, or a secondary that
    /// is built or may be built now.
    pub open spec fn is_candidate(self, c: int, can_build: bool) -> bool {
        c == -1 || (0 <= c < self.secondaries.len() && (can_build || self.built[c]))
    }

    /// Whether index `a` is to be preferred to index `b` for pattern `p`:
    /// the one that pins the longer prefix; of two that pin as much, the
    /// built one; of two alike in that too, the one declared first.
    pub open spec fn outranks(self, p: Pattern, a: int, b: int) -> bool {
        let score_a = prefix_score(self.roles_at(a), p);
        let score_b = prefix_score(self.roles_at(b), p);
        score_a > score_b || (score_a == score_b && ((self.built_at(a) && !self.built_at(b)) || (
        self.built_at(a) == self.built_at(b) && a < b)))
    }

    /// Whether `c` is the index that serves `p`: a candidate that is
    /// preferred to every other candidate.
    pub open spec fn is_best(self, p: Pattern, can_build: bool, c: int) -> bool {
        &&& self.is_candidate(c, can_build)
        &&& forall|d: int| #[trigger]
            self.is_candidate(d, can_build) && d != c ==> self.outranks(p, c, d)
    }

    /// The index that serves `p`.
    pub open spec fn best(self, p: Pattern, can_build: bool) -> int {
        choose|c: int| self.is_best(p, can_build, c)
    }

    /// The quads that a query for `p` yields, in the order in which it
    /// yields them: the order of the keys of the index that serves `p`.
    pub open spec fn scan(self, p: Pattern, can_build: bool) -> Seq<Quad> {
        let roles = self.roles_at(self.best(p, can_build));
        index_scan(roles, keys_of(roles, self.quads), p)
    }

    /// The forest with index `c` built.
    pub open spec fn with_built(self, c: int) -> ForestView {
        if 0 <= c < self.built.len() {
            ForestView { built: self.built.update(c, true), ..self }
        } else {
            self
        }
    }

    /// The forest with no secondary index built.
    pub open spec fn with_none_built(self) -> ForestView {
        ForestView { built: Seq::new(self.built.len(), |i: int| false), ..self }
    }

    /// The forest with other quads.
    pub open spec fn with_quads(self, quads: Set<Quad>) -> ForestView {
        ForestView { quads, ..self }
    }

    /// The number of secondary indexes that are built.
    pub open spec fn built_count(self) -> nat {
        count_true(self.built)
    }

    /// Whether deleting what agrees with `p` rebuilds the primary index and
    /// drops the secondary ones, instead of deleting quad by quad.
    pub open spec fn compacts(self, p: Pattern) -> bool {
        matching(self.quads, p).len() >= self.quads.len() / (2 + self.built_count())
    }

    /// The forest after the deletion of every quad that agrees with `p`.
    pub open spec fn without_matches(self, p: Pattern) -> ForestView {
        let rest = self.quads.difference(matching(self.quads, p));
        if self.compacts(p) {
            self.with_none_built().with_quads(rest)
        } else {
            self.with_quads(rest)
        }
    }

    /// Whether no two indexes of the forest have the same order.
    pub open spec fn has_distinct_orders(self) -> bool {
        &&& forall|i: int|
            0 <= i < self.secondaries.len() ==> #[trigger] self.secondaries[i] != self.primary
        &&& forall|i: int, j: int|
            0 <= i < j < self.secondaries.len() ==> #[trigger] self.secondaries[i]
                != #[trigger] self.secondaries[j]
    }

    /// The orders are permutations, there is a flag for each secondary
    /// index, and the quads are finitely many.
    pub open spec fn wf(self) -> bool {
        &&& is_permutation(self.primary)
        &&& self.built.len() == self.secondaries.len()
        &&& forall|i: int|
            0 <= i < self.secondaries.len() ==> is_permutation(#[trigger] self.secondaries[i])
        &&& self.quads.finite()
    }
}

/// The orders of a sequence of block orders.
pub open spec fn block_roles(blocks: Seq<BlockOrder>) -> Seq<Four<int>> {
    Seq::new(blocks.len(), |i: int| blocks[i].roles())
}

/// The orders that a sequence of arrays of roles lists.
pub open spec fn index_roles(indexes: Seq<[TermRole; 4]>) -> Seq<Four<int>> {
    Seq::new(indexes.len(), |i: int| positions(indexes[i]))
}

/// The orders that an optional list of arrays of roles lists: none where
/// there is no list.
pub open spec fn optional_roles(indexes: Option<&Vec<[TermRole; 4]>>) -> Seq<Four<int>> {
    match indexes {
        Some(indexes) => index_roles(indexes@),
        None => Seq::empty(),
    }
}

/// The flags of `n` secondary indexes of which the first `built` are built.
pub open spec fn first_built(built: int, n: int) -> Seq<bool> {
    Seq::new(n as nat, |i: int| i < built)
}

/// A forest of trees over the same quads. The primary tree always holds
/// every quad. Each secondary tree is either not built, or holds every
/// quad too, in its own order.
pub struct TreedDataset {
    /// The tree that always exists.
    base_tree: (BlockOrder, BTreeSet<Key>),
    /// The trees that are built on demand.
    optional_trees: Vec<(BlockOrder, OnceCell<BTreeSet<Key>>)>,
}

impl View for TreedDataset {
    type V = ForestView;

    closed spec fn view(&self) -> ForestView {
        ForestView {
            primary: self.base_tree.0.roles(),
            secondaries: Seq::new(
                self.optional_trees.len() as nat,
                |i: int| self.optional_trees[i].0.roles(),
            ),
            built: Seq::new(
                self.optional_trees.len() as nat,
                |i: int| latch_filled(self.optional_trees[i].1),
            ),
            quads: quads_of(self.base_tree.0.roles(), self.base_tree.1@),
        }
    }
}

impl TreedDataset {
    /// The keys of secondary index `i`, where it is built.
    pub closed spec fn secondary_keys(&self, i: int) -> Set<Key> {
        latch_keys(self.optional_trees[i].1)
    }

    /// Every order is well formed, the primary tree is finite, and every
    /// secondary tree that is built holds the keys, in its order, of the
    /// quads of the primary tree.
    pub closed spec fn wf(&self) -> bool {
        &&& self.base_tree.0.wf()
        &&& self.base_tree.1@.finite()
        &&& forall|i: int|
            0 <= i < self.optional_trees.len() ==> (#[trigger] self.optional_trees[i]).0.wf()
        &&& forall|i: int|
            0 <= i < self.optional_trees.len() && latch_filled(
                (#[trigger] self.optional_trees[i]).1,
            ) ==> latch_keys(self.optional_trees[i].1) == keys_of(
                self.optional_trees[i].0.roles(),
                self@.quads,
            )
    }

    /// The view of a well-formed forest is well formed, and every built
    /// secondary index stands for the same quads as the primary one: its
    /// keys are the keys of those quads in its own order, one key for each
    /// quad.
    pub proof fn lemma_wf(&self)
        requires
            self.wf(),
        ensures
            self@.wf(),
            forall|i: int|
                0 <= i < self@.built.len() && #[trigger] self@.built[i] ==> {
                    &&& quads_of(self@.secondaries[i], self.secondary_keys(i)) == self@.quads
                    &&& self.secondary_keys(i) == keys_of(self@.secondaries[i], self@.quads)
                    &&& self.secondary_keys(i).len() == self@.quads.len()
                },
    {
        self.base_tree.0.lemma_wf_permutation();
        lemma_quads_of(self@.primary, self.base_tree.1@);
        assert forall|i: int| 0 <= i < self@.secondaries.len() implies is_permutation(
            #[trigger] self@.secondaries[i],
        ) by {
            self.optional_trees[i].0.lemma_wf_permutation();
        }
        assert forall|i: int| 0 <= i < self@.built.len() && #[trigger] self@.built[i] implies {
            &&& quads_of(self@.secondaries[i], self.secondary_keys(i)) == self@.quads
            &&& self.secondary_keys(i) == keys_of(self@.secondaries[i], self@.quads)
            &&& self.secondary_keys(i).len() == self@.quads.len()
        } by {
            self.optional_trees[i].0.lemma_wf_permutation();
            lemma_keys_of(self@.secondaries[i], self@.quads);
        }
    }

    /// A forest holds no more quads than a `usize` can count.
    pub proof fn lemma_size_fits(&self)
        requires
            self.wf(),
        ensures
            self@.quads.len() <= usize::MAX,
    {
        self.base_tree.0.lemma_wf_permutation();
        lemma_quads_of(self@.primary, self.base_tree.1@);
        lemma_keys_len_fits(&self.base_tree.1);
    }

    /// A forest with the first of `default_initialized` as the order of its
    /// primary tree. The other orders of `default_initialized` get a
    /// secondary tree that is built from the start, those of
    /// `optional_blocks` one that is built on demand.
    pub fn new_with_blocks(
        default_initialized: Vec<BlockOrder>,
        optional_blocks: Vec<BlockOrder>,
    ) -> (forest: TreedDataset)
        requires
            default_initialized.len() > 0,
            forall|i: int|
                0 <= i < default_initialized.len() ==> (#[trigger] default_initialized[i]).wf(),
            forall|i: int| 0 <= i < optional_blocks.len() ==> (#[trigger] optional_blocks[i]).wf(),
        ensures
            forest.wf(),
            forest@.primary == default_initialized[0].roles(),
            forest@.secondaries == block_roles(default_initialized@.skip(1)) + block_roles(
                optional_blocks@,
            ),
            forest@.built == first_built(
                default_initialized.len() - 1,
                default_initialized.len() - 1 + optional_blocks.len(),
            ),
            forest@.quads == Set::<Quad>::empty(),
    {
        let base_tree = (default_initialized[0], keys_new());
        let mut optional_trees: Vec<(BlockOrder, OnceCell<BTreeSet<Key>>)> = Vec::new();
        let ghost none = Set::<Quad>::empty();
        let mut i: usize = 1;
        while i < default_initialized.len()
            invariant
                1 <= i <= default_initialized.len(),
                optional_trees.len() == i - 1,
                forall|j: int|
                    0 <= j < default_initialized.len() ==> (
                    #[trigger] default_initialized[j]).wf(),
                forall|j: int|
                    0 <= j < i - 1 ==> {
                        &&& (#[trigger] optional_trees[j]).0 == default_initialized[j + 1]
                        &&& latch_filled(optional_trees[j].1)
                        &&& latch_keys(optional_trees[j].1) == Set::<Key>::empty()
                    },
            decreases default_initialized.len() - i,
        {
            let mut cell = latch_new();
            let set_result = latch_set(&mut cell, keys_new());
            assert(set_result is Ok);
            optional_trees.push((default_initialized[i], cell));
            i = i + 1;
        }
        let ghost from_default = default_initialized.len() - 1;
        let mut k: usize = 0;
        while k < optional_blocks.len()
            invariant
                0 <= k <= optional_blocks.len(),
                from_default == default_initialized.len() - 1,
                from_default >= 0,
                optional_trees.len() == from_default + k,
                forall|j: int|
                    0 <= j < from_default ==> {
                        &&& (#[trigger] optional_trees[j]).0 == default_initialized[j + 1]
                        &&& latch_filled(optional_trees[j].1)
                        &&& latch_keys(optional_trees[j].1) == Set::<Key>::empty()
                    },
                forall|j: int|
                    from_default <= j < from_default + k ==> {
                        &&& (#[trigger] optional_trees[j]).0 == optional_blocks[j - from_default]
                        &&& !latch_filled(optional_trees[j].1)
                    },
            decreases optional_blocks.len() - k,
        {
            optional_trees.push((optional_blocks[k], latch_new()));
            k = k + 1;
        }
        let forest = TreedDataset { base_tree, optional_trees };
        proof {
            assert(forest@.quads =~= none);
            assert(forest@.secondaries =~= block_roles(default_initialized@.skip(1)) + block_roles(
                optional_blocks@,
            ));
            assert(forest@.built =~= first_built(
                default_initialized.len() - 1,
                default_initialized.len() - 1 + optional_blocks.len(),
            ));
            assert forall|j: int|
                0 <= j < forest.optional_trees.len() && latch_filled(
                    (#[trigger] forest.optional_trees[j]).1,
                ) implies latch_keys(forest.optional_trees[j].1) == keys_of(
                forest.optional_trees[j].0.roles(),
                forest@.quads,
            ) by {
                assert(keys_of(forest.optional_trees[j].0.roles(), none) =~= Set::<Key>::empty());
            }
        }
        forest
    }

    /// The number of quads.
    pub fn size(&self) -> (n: usize)
        requires
            self.wf(),
        ensures
            n == self@.quads.len(),
    {
        proof {
            self.base_tree.0.lemma_wf_permutation();
            lemma_quads_of(self@.primary, self.base_tree.1@);
        }
        keys_len(&self.base_tree.1)
    }

    /// Whether the forest holds the quad.
    pub fn has(&self, s: u32, p: u32, o: u32, g: u32) -> (present: bool)
        requires
            self.wf(),
        ensures
            present == self@.quads.contains((s, p, o, g)),
    {
        self.base_tree.0.contains(&self.base_tree.1, &[s, p, o, g])
    }
}

impl TreedDataset {
    /// Inserts the quad. Returns `true` if the quad was not in the forest
    /// before. Only trees that are built are touched.
    pub fn insert_by_index(&mut self, spog: [u32; 4]) -> (inserted: bool)
        requires
            old(self).wf(),
        ensures
            final(self).wf(),
            final(self)@ == old(self)@.with_quads(old(self)@.quads.insert(tuple_of(spog))),
            inserted == !old(self)@.quads.contains(tuple_of(spog)),
    {
        let ghost q = tuple_of(spog);
        let ghost before = self@;
        let ghost grown = before.quads.insert(q);
        proof {
            self.base_tree.0.lemma_wf_permutation();
            lemma_layout_inverse(before.primary, q);
        }
        if self.base_tree.0.insert_into(&mut self.base_tree.1, &spog) {
            proof {
                assert(self.base_tree.1@ =~= old(self).base_tree.1@);
                assert(grown =~= before.quads);
            }
            return false;
        }
        proof {
            assert forall|x: Quad| #[trigger] self@.quads.contains(x) <==> grown.contains(x) by {
                lemma_layout_inverse(before.primary, x);
            }
            assert(self@.quads =~= grown);
        }
        let mut i: usize = 0;
        while i < self.optional_trees.len()
            invariant
                0 <= i <= self.optional_trees.len(),
                self.base_tree.0.wf(),
                self.base_tree.1@.finite(),
                self.base_tree.0 == old(self).base_tree.0,
                self@.quads == grown,
                grown == old(self)@.quads.insert(q),
                q == tuple_of(spog),
                self.optional_trees.len() == old(self).optional_trees.len(),
                forall|j: int|
                    0 <= j < self.optional_trees.len() ==> {
                        &&& (#[trigger] self.optional_trees[j]).0 == old(self).optional_trees[j].0
                        &&& self.optional_trees[j].0.wf()
                        &&& latch_filled(self.optional_trees[j].1) == latch_filled(
                            old(self).optional_trees[j].1,
                        )
                    },
                forall|j: int|
                    0 <= j < i && latch_filled((#[trigger] self.optional_trees[j]).1)
                        ==> latch_keys(self.optional_trees[j].1) == keys_of(
                        self.optional_trees[j].0.roles(),
                        grown,
                    ),
                forall|j: int|
                    i <= j < self.optional_trees.len() && latch_filled(
                        (#[trigger] self.optional_trees[j]).1,
                    ) ==> latch_keys(self.optional_trees[j].1) == keys_of(
                        self.optional_trees[j].0.roles(),
                        old(self)@.quads,
                    ),
            decreases self.optional_trees.len() - i,
        {
            let ghost trees = self.optional_trees@;
            let order = self.optional_trees[i].0;
            let optional_tree_tuple = &mut self.optional_trees[i];
            if let Some(instancied_tree) = latch_get_mut(&mut optional_tree_tuple.1) {
                order.insert_into(instancied_tree, &spog);
            }
            proof {
                order.lemma_wf_permutation();
                if latch_filled(self.optional_trees[i as int].1) {
                    let roles = order.roles();
                    assert forall|k: Key| #[trigger]
                        keys_of(roles, old(self)@.quads).insert(layout(roles, q)).contains(k)
                            <==> keys_of(roles, grown).contains(k) by {
                        lemma_layout_inverse(roles, k);
                        lemma_layout_inverse(roles, q);
                    }
                    assert(keys_of(roles, old(self)@.quads).insert(layout(roles, q)) =~= keys_of(
                        roles,
                        grown,
                    ));
                }
                assert forall|j: int| 0 <= j < self.optional_trees.len() && j != i implies (
                #[trigger] self.optional_trees[j]) == trees[j] by {}
            }
            i = i + 1;
        }
        proof {
            assert(self@.secondaries =~= before.secondaries);
            assert(self@.built =~= before.built);
        }
        true
    }
}

impl TreedDataset {
    /// Deletes the quad. Returns `true` if the quad was in the forest. Only
    /// trees that are built are touched.
    pub fn delete_by_index(&mut self, spog: [u32; 4]) -> (deleted: bool)
        requires
            old(self).wf(),
        ensures
            final(self).wf(),
            final(self)@ == old(self)@.with_quads(old(self)@.quads.remove(tuple_of(spog))),
            deleted == old(self)@.quads.contains(tuple_of(spog)),
    {
        let ghost q = tuple_of(spog);
        let ghost before = self@;
        let ghost shrunk = before.quads.remove(q);
        proof {
            self.base_tree.0.lemma_wf_permutation();
            lemma_layout_inverse(before.primary, q);
        }
        if !self.base_tree.0.delete_from(&mut self.base_tree.1, &spog) {
            proof {
                assert(self.base_tree.1@ =~= old(self).base_tree.1@);
                assert(shrunk =~= before.quads);
            }
            return false;
        }
        proof {
            assert forall|x: Quad| #[trigger] self@.quads.contains(x) <==> shrunk.contains(x) by {
                lemma_layout_inverse(before.primary, x);
            }
            assert(self@.quads =~= shrunk);
        }
        let mut i: usize = 0;
        while i < self.optional_trees.len()
            invariant
                0 <= i <= self.optional_trees.len(),
                self.base_tree.0.wf(),
                self.base_tree.1@.finite(),
                self.base_tree.0 == old(self).base_tree.0,
                self@.quads == shrunk,
                shrunk == old(self)@.quads.remove(q),
                q == tuple_of(spog),
                self.optional_trees.len() == old(self).optional_trees.len(),
                forall|j: int|
                    0 <= j < self.optional_trees.len() ==> {
                        &&& (#[trigger] self.optional_trees[j]).0 == old(self).optional_trees[j].0
                        &&& self.optional_trees[j].0.wf()
                        &&& latch_filled(self.optional_trees[j].1) == latch_filled(
                            old(self).optional_trees[j].1,
                        )
                    },
                forall|j: int|
                    0 <= j < i && latch_filled((#[trigger] self.optional_trees[j]).1)
                        ==> latch_keys(self.optional_trees[j].1) == keys_of(
                        self.optional_trees[j].0.roles(),
                        shrunk,
                    ),
                forall|j: int|
                    i <= j < self.optional_trees.len() && latch_filled(
                        (#[trigger] self.optional_trees[j]).1,
                    ) ==> latch_keys(self.optional_trees[j].1) == keys_of(
                        self.optional_trees[j].0.roles(),
                        old(self)@.quads,
                    ),
            decreases self.optional_trees.len() - i,
        {
            let ghost trees = self.optional_trees@;
            let order = self.optional_trees[i].0;
            let optional_tree_tuple = &mut self.optional_trees[i];
            if let Some(instancied_tree) = latch_get_mut(&mut optional_tree_tuple.1) {
                order.delete_from(instancied_tree, &spog);
            }
            proof {
                order.lemma_wf_permutation();
                if latch_filled(self.optional_trees[i as int].1) {
                    let roles = order.roles();
                    assert forall|k: Key| #[trigger]
                        keys_of(roles, old(self)@.quads).remove(layout(roles, q)).contains(k)
                            <==> keys_of(roles, shrunk).contains(k) by {
                        lemma_layout_inverse(roles, k);
                        lemma_layout_inverse(roles, q);
                    }
                    assert(keys_of(roles, old(self)@.quads).remove(layout(roles, q)) =~= keys_of(
                        roles,
                        shrunk,
                    ));
                }
                assert forall|j: int| 0 <= j < self.optional_trees.len() && j != i implies (
                #[trigger] self.optional_trees[j]) == trees[j] by {}
            }
            i = i + 1;
        }
        proof {
            assert(self@.secondaries =~= before.secondaries);
            assert(self@.built =~= before.built);
        }
        true
    }

    /// The number of secondary trees that are built.
    pub fn number_of_optional_built_trees(&self) -> (n: usize)
        ensures
            n == self@.built_count(),
    {
        let mut n: usize = 0;
        let mut i: usize = 0;
        while i < self.optional_trees.len()
            invariant
                0 <= i <= self.optional_trees.len(),
                n <= i,
                n == count_true(self@.built.take(i as int)),
            decreases self.optional_trees.len() - i,
        {
            proof {
                assert(self@.built.take(i + 1).drop_last() =~= self@.built.take(i as int));
            }
            if latch_get(&self.optional_trees[i].1).is_some() {
                n = n + 1;
            }
            i = i + 1;
        }
        proof {
            assert(self@.built.take(i as int) =~= self@.built);
        }
        n
    }
}

/// The number by which a forest's view knows the tree at `pos`: -1 for the
/// primary tree, which `None` stands for.
pub open spec fn tree_number(pos: Option<usize>) -> int {
    match pos {
        Some(x) => x as int,
        None => -1,
    }
}

impl ForestView {
    /// Only one index can be preferred to all other candidates.
    pub proof fn lemma_best_unique(self, p: Pattern, can_build: bool, c: int)
        requires
            self.is_best(p, can_build, c),
        ensures
            self.best(p, can_build) == c,
    {
        let d = self.best(p, can_build);
        assert(self.is_best(p, can_build, d));
        if d != c {
            assert(self.is_candidate(d, can_build));
            assert(self.is_candidate(c, can_build));
            assert(self.outranks(p, c, d));
            assert(self.outranks(p, d, c));
        }
    }

    /// What a query yields: each quad of the forest that agrees with the
    /// pattern, once, and nothing else.
    pub proof fn lemma_scan(self, p: Pattern, can_build: bool, c: int)
        requires
            self.wf(),
            self.is_best(p, can_build, c),
        ensures
            self.scan(p, can_build).no_duplicates(),
            self.scan(p, can_build).to_set() == matching(self.quads, p),
            self.scan(p, can_build).len() == matching(self.quads, p).len(),
            self.scan(p, can_build).len() <= self.quads.len(),
    {
        self.lemma_best_unique(p, can_build, c);
        let roles = self.roles_at(c);
        lemma_keys_of(roles, self.quads);
        lemma_index_scan(roles, keys_of(roles, self.quads), p);
    }
}

impl TreedDataset {
    /// The tree that serves a query for `term_roles`: the one that pins the
    /// longest prefix; among those that pin as much, one that is built
    /// rather than one that is not, and then the one declared first. `None`
    /// is the primary tree. A tree that is not built is only considered if
    /// `can_build_new_tree` allows it.
    fn best_tree(
        &self,
        term_roles: &[&Option<u32>; 4],
        can_build_new_tree: bool,
    ) -> (pos: Option<usize>)
        requires
            self.wf(),
        ensures
            self@.is_best(pattern_of_refs(*term_roles), can_build_new_tree, tree_number(pos)),
            self@.best(pattern_of_refs(*term_roles), can_build_new_tree) == tree_number(pos),
    {
        let ghost p = pattern_of_refs(*term_roles);
        let ghost view = self@;
        let mut best_alt_tree_pos: Option<usize> = None;
        let mut best_index_score: usize = self.base_tree.0.index_conformance(term_roles);
        let mut best_is_built: bool = true;
        let mut i: usize = 0;
        while i < self.optional_trees.len()
            invariant
                0 <= i <= self.optional_trees.len(),
                self.wf(),
                view == self@,
                p == pattern_of_refs(*term_roles),
                view.is_candidate(tree_number(best_alt_tree_pos), can_build_new_tree),
                tree_number(best_alt_tree_pos) < i,
                best_index_score == prefix_score(view.roles_at(tree_number(best_alt_tree_pos)), p),
                best_is_built == view.built_at(tree_number(best_alt_tree_pos)),
                forall|d: int| #[trigger]
                    view.is_candidate(d, can_build_new_tree) && d < i && d != tree_number(
                        best_alt_tree_pos,
                    ) ==> view.outranks(p, tree_number(best_alt_tree_pos), d),
            decreases self.optional_trees.len() - i,
        {
            let is_built = latch_get(&self.optional_trees[i].1).is_some();
            assert(is_built == view.built[i as int]);
            assert(view.roles_at(i as int) == self.optional_trees[i as int].0.roles());
            if can_build_new_tree || is_built {
                let score = self.optional_trees[i].0.index_conformance(term_roles);
                if score > best_index_score || (score == best_index_score && is_built
                    && !best_is_built) {
                    best_alt_tree_pos = Some(i);
                    best_index_score = score;
                    best_is_built = is_built;
                }
            }
            i = i + 1;
        }
        proof {
            view.lemma_best_unique(p, can_build_new_tree, tree_number(best_alt_tree_pos));
        }
        best_alt_tree_pos
    }

    /// Builds secondary tree `x` from the primary tree, if it is not built.
    fn build_tree(&mut self, x: usize)
        requires
            old(self).wf(),
            x < old(self)@.built.len(),
        ensures
            final(self).wf(),
            final(self)@ == old(self)@.with_built(x as int),
    {
        let ghost before = self@;
        if latch_get(&self.optional_trees[x].1).is_none() {
            let content = self.base_tree.0.filter(&self.base_tree.1, [None, None, None, None]);
            let order = self.optional_trees[x].0;
            let mut map = keys_new();
            let ghost everything = content.remaining();
            order.insert_all_into(&mut map, content);
            proof {
                let none: Pattern = (None, None, None, None);
                assert(tuple_of::<Option<u32>>([None, None, None, None]) == none);
                self.base_tree.0.lemma_wf_permutation();
                order.lemma_wf_permutation();
                lemma_index_scan(before.primary, self.base_tree.1@, none);
                assert(matching(before.quads, none) =~= before.quads) by {
                    assert forall|q: Quad| agrees(q, none) by {}
                }
                assert(map@ =~= keys_of(order.roles(), before.quads));
            }
            let ghost trees = self.optional_trees@;
            let cell = &mut self.optional_trees[x];
            let set_result = latch_set(&mut cell.1, map);
            proof {
                assert(set_result is Ok);
                assert forall|j: int| 0 <= j < self.optional_trees.len() && j != x implies (
                #[trigger] self.optional_trees[j]) == trees[j] by {}
                assert(self@.secondaries =~= before.secondaries);
                assert(self@.built =~= before.built.update(x as int, true));
            }
        } else {
            proof {
                assert(before.built.update(x as int, true) =~= before.built);
            }
        }
    }

    /// The quads that agree with `spog`, as a scan of the tree that serves
    /// the pattern. If that tree is a secondary one that is not built, it
    /// is built now, which `can_build_new_tree` has to allow: without it
    /// only built trees are considered.
    pub fn search_all_matching_quads(
        &mut self,
        spog: [Option<u32>; 4],
        can_build_new_tree: bool,
    ) -> (scan: FilteredIndexQuads)
        requires
            old(self).wf(),
        ensures
            final(self).wf(),
            final(self)@ == old(self)@.with_built(
                old(self)@.best(tuple_of(spog), can_build_new_tree),
            ),
            !can_build_new_tree ==> final(self)@ == old(self)@,
            scan.wf(),
            scan.remaining() == old(self)@.scan(tuple_of(spog), can_build_new_tree),
            scan.remaining().no_duplicates(),
            scan.remaining().to_set() == matching(old(self)@.quads, tuple_of(spog)),
    {
        let ghost before = self@;
        let ghost p = tuple_of(spog);
        let term_roles = [&spog[0], &spog[1], &spog[2], &spog[3]];
        assert(pattern_of_refs(term_roles) == p);
        let best_alt_tree_pos = self.best_tree(&term_roles, can_build_new_tree);
        proof {
            self.lemma_wf();
            before.lemma_scan(p, can_build_new_tree, tree_number(best_alt_tree_pos));
        }
        match best_alt_tree_pos {
            Some(x) => {
                self.build_tree(x);
                proof {
                    if !can_build_new_tree {
                        assert(before.built.update(x as int, true) =~= before.built);
                    }
                }
                let alternative_tree_description = &self.optional_trees[x];
                proof {
                    assert(self@.built[x as int]);
                    assert(self@.secondaries[x as int] == before.secondaries[x as int]);
                    assert(self@.quads == before.quads);
                    assert(before.roles_at(x as int) == alternative_tree_description.0.roles());
                    assert(*alternative_tree_description == self.optional_trees[x as int]);
                    assert(latch_keys(self.optional_trees[x as int].1) == keys_of(
                        self.optional_trees[x as int].0.roles(),
                        self@.quads,
                    ));
                }
                let tree = latch_get(&alternative_tree_description.1).unwrap();
                let found = alternative_tree_description.0.filter(tree, spog);
                found
            },
            None => {
                proof {
                    lemma_quads_of(before.primary, self.base_tree.1@);
                }
                self.base_tree.0.filter(&self.base_tree.1, spog)
            },
        }
    }

    /// The quads that agree with `spog`, as a scan of the tree that serves
    /// the pattern best, which is built now if it was not.
    pub fn filter(&mut self, spog: [Option<u32>; 4]) -> (scan: FilteredIndexQuads)
        requires
            old(self).wf(),
        ensures
            final(self).wf(),
            final(self)@ == old(self)@.with_built(old(self)@.best(tuple_of(spog), true)),
            scan.wf(),
            scan.remaining() == old(self)@.scan(tuple_of(spog), true),
            scan.remaining().no_duplicates(),
            scan.remaining().to_set() == matching(old(self)@.quads, tuple_of(spog)),
    {
        self.search_all_matching_quads(spog, true)
    }

    /// Builds the tree that serves patterns of the shape of `spog` best, if
    /// it is not built. Building it again changes nothing.
    pub fn ensure_has_index_for(&mut self, spog: &[Option<u32>; 4])
        requires
            old(self).wf(),
        ensures
            final(self).wf(),
            final(self)@ == old(self)@.with_built(old(self)@.best(tuple_of(*spog), true)),
    {
        let term_roles = [&spog[0], &spog[1], &spog[2], &spog[3]];
        assert(pattern_of_refs(term_roles) == tuple_of(*spog));
        match self.best_tree(&term_roles, true) {
            Some(x) => {
                self.build_tree(x);
            },
            None => {},
        }
    }
}

/// The order of the primary tree of a default forest: object, graph,
/// predicate, subject.
pub open spec fn default_primary() -> Four<int> {
    (2, 3, 1, 0)
}

/// The orders of the secondary trees of a default forest, as declared:
/// SPOG, GPSO, POGS, GSPO, OSGP. With the primary order they offer, for
/// every choice of bound positions, an order that starts with them.
pub open spec fn default_secondaries() -> Seq<Four<int>> {
    seq![(0, 1, 2, 3), (3, 1, 0, 2), (1, 2, 3, 0), (3, 0, 1, 2), (2, 0, 3, 1)]
}

/// An empty forest with no secondary tree built.
pub open spec fn empty_forest(primary: Four<int>, secondaries: Seq<Four<int>>) -> ForestView {
    ForestView {
        primary,
        secondaries,
        built: first_built(0, secondaries.len() as int),
        quads: Set::empty(),
    }
}

/// The orders among which `new_anti` chooses the primary one, in the order
/// in which it tries them: OGPS, GPSO, POGS, SPOG, GSPO, OSGP.
pub open spec fn anti_candidates() -> Seq<Four<int>> {
    seq![(2, 3, 1, 0), (3, 1, 0, 2), (1, 2, 3, 0), (0, 1, 2, 3), (3, 0, 1, 2), (2, 0, 3, 1)]
}

/// The pattern shape that binds each position that is not free.
pub open spec fn anti_pattern(s: bool, p: bool, o: bool, g: bool) -> Pattern {
    (
        if s {
            None
        } else {
            Some(0u32)
        },
        if p {
            None
        } else {
            Some(0u32)
        },
        if o {
            None
        } else {
            Some(0u32)
        },
        if g {
            None
        } else {
            Some(0u32)
        },
    )
}

/// Whether `b` is the first of `candidates` with the highest prefix score
/// for `p`.
pub open spec fn is_first_best(candidates: Seq<Four<int>>, p: Pattern, b: int) -> bool {
    &&& 0 <= b < candidates.len()
    &&& forall|j: int|
        0 <= j < candidates.len() ==> prefix_score(#[trigger] candidates[j], p) <= prefix_score(
            candidates[b],
            p,
        )
    &&& forall|j: int|
        0 <= j < b ==> prefix_score(#[trigger] candidates[j], p) < prefix_score(candidates[b], p)
}

/// The first of `candidates` with the highest prefix score for `p`.
pub open spec fn first_best(candidates: Seq<Four<int>>, p: Pattern) -> int {
    choose|b: int| is_first_best(candidates, p, b)
}

/// Only one candidate is the first with the highest score.
pub proof fn lemma_first_best_unique(candidates: Seq<Four<int>>, p: Pattern, b: int)
    requires
        is_first_best(candidates, p, b),
    ensures
        first_best(candidates, p) == b,
{
    let c = first_best(candidates, p);
    assert(is_first_best(candidates, p, c));
    if c < b {
        assert(prefix_score(candidates[c], p) < prefix_score(candidates[b], p));
    } else if b < c {
        assert(prefix_score(candidates[b], p) < prefix_score(candidates[c], p));
    }
}

impl TreedDataset {
    /// A forest with the first of `default_initialized` as the order of its
    /// primary tree. The other orders of `default_initialized` get a
    /// secondary tree that is built from the start, those of
    /// `optional_indexes` one that is built on demand.
    pub fn new_with_indexes(
        default_initialized: &Vec<[TermRole; 4]>,
        optional_indexes: Option<&Vec<[TermRole; 4]>>,
    ) -> (forest: TreedDataset)
        requires
            default_initialized.len() > 0,
            forall|i: int|
                0 <= i < default_initialized.len() ==> is_permutation(
                    positions(#[trigger] default_initialized[i]),
                ),
            optional_indexes is Some ==> forall|i: int|
                0 <= i < optional_indexes.unwrap().len() ==> is_permutation(
                    positions(#[trigger] optional_indexes.unwrap()[i]),
                ),
        ensures
            forest.wf(),
            forest@.primary == positions(default_initialized[0]),
            forest@.secondaries == index_roles(default_initialized@.skip(1)) + optional_roles(
                optional_indexes,
            ),
            forest@.built == first_built(
                default_initialized.len() - 1,
                forest@.secondaries.len() as int,
            ),
            forest@.quads == Set::<Quad>::empty(),
    {
        let mut default_initialized_blocks: Vec<BlockOrder> = Vec::new();
        let mut i: usize = 0;
        while i < default_initialized.len()
            invariant
                0 <= i <= default_initialized.len(),
                default_initialized_blocks.len() == i,
                forall|j: int|
                    0 <= j < default_initialized.len() ==> is_permutation(
                        positions(#[trigger] default_initialized[j]),
                    ),
                forall|j: int|
                    0 <= j < i ==> (#[trigger] default_initialized_blocks[j]).wf()
                        && default_initialized_blocks[j].roles() == positions(
                        default_initialized[j],
                    ),
            decreases default_initialized.len() - i,
        {
            default_initialized_blocks.push(BlockOrder::new(default_initialized[i]));
            i = i + 1;
        }
        let mut optional_indexes_blocks: Vec<BlockOrder> = Vec::new();
        match optional_indexes {
            None => {},
            Some(optional_indexes) => {
                let mut k: usize = 0;
                while k < optional_indexes.len()
                    invariant
                        0 <= k <= optional_indexes.len(),
                        optional_indexes_blocks.len() == k,
                        forall|j: int|
                            0 <= j < optional_indexes.len() ==> is_permutation(
                                positions(#[trigger] optional_indexes[j]),
                            ),
                        forall|j: int|
                            0 <= j < k ==> (#[trigger] optional_indexes_blocks[j]).wf()
                                && optional_indexes_blocks[j].roles() == positions(
                                optional_indexes[j],
                            ),
                    decreases optional_indexes.len() - k,
                {
                    optional_indexes_blocks.push(BlockOrder::new(optional_indexes[k]));
                    k = k + 1;
                }
            },
        }
        proof {
            assert(block_roles(default_initialized_blocks@.skip(1)) =~= index_roles(
                default_initialized@.skip(1),
            ));
            assert(block_roles(optional_indexes_blocks@) =~= optional_roles(optional_indexes));
        }
        Self::new_with_blocks(default_initialized_blocks, optional_indexes_blocks)
    }

    /// An empty forest with the default orders: a primary tree in the order
    /// object, graph, predicate, subject, and five secondary trees, none of
    /// them built.
    pub fn new() -> (forest: TreedDataset)
        ensures
            forest.wf(),
            forest@ == empty_forest(default_primary(), default_secondaries()),
    {
        let primary = vec![
            [TermRole::Object, TermRole::Graph, TermRole::Predicate, TermRole::Subject],
        ];
        let secondaries = vec![
            [TermRole::Subject, TermRole::Predicate, TermRole::Object, TermRole::Graph],
            [TermRole::Graph, TermRole::Predicate, TermRole::Subject, TermRole::Object],
            [TermRole::Predicate, TermRole::Object, TermRole::Graph, TermRole::Subject],
            [TermRole::Graph, TermRole::Subject, TermRole::Predicate, TermRole::Object],
            [TermRole::Object, TermRole::Subject, TermRole::Graph, TermRole::Predicate],
        ];
        let forest = TreedDataset::new_with_indexes(&primary, Some(&secondaries));
        proof {
            assert(index_roles(primary@.skip(1)) =~= Seq::empty());
            assert(forest@.secondaries =~= default_secondaries());
            assert(forest@.built =~= first_built(0, 5));
        }
        forest
    }

    /// The default forest: the same as `new`.
    pub fn default() -> (forest: TreedDataset)
        ensures
            forest.wf(),
            forest@ == empty_forest(default_primary(), default_secondaries()),
    {
        TreedDataset::new()
    }

    /// An empty forest for queries that leave free the positions given as
    /// `true` and bind the others. Its primary order is the first of the
    /// six default orders that pins the longest prefix for such queries;
    /// the other five are declared as secondary orders.
    pub fn new_anti(s: bool, p: bool, o: bool, g: bool) -> (forest: TreedDataset)
        ensures
            forest.wf(),
            forest@ == empty_forest(
                anti_candidates()[first_best(anti_candidates(), anti_pattern(s, p, o, g))],
                anti_candidates().remove(first_best(anti_candidates(), anti_pattern(s, p, o, g))),
            ),
    {
        let zero: Option<u32> = Some(0);
        let none: Option<u32> = None;
        let term_roles = [
            if s {
                &none
            } else {
                &zero
            },
            if p {
                &none
            } else {
                &zero
            },
            if o {
                &none
            } else {
                &zero
            },
            if g {
                &none
            } else {
                &zero
            },
        ];
        let ghost shape = anti_pattern(s, p, o, g);
        assert(pattern_of_refs(term_roles) == shape);
        let mut block_candidates = vec![
            [TermRole::Object, TermRole::Graph, TermRole::Predicate, TermRole::Subject],
            [TermRole::Graph, TermRole::Predicate, TermRole::Subject, TermRole::Object],
            [TermRole::Predicate, TermRole::Object, TermRole::Graph, TermRole::Subject],
            [TermRole::Subject, TermRole::Predicate, TermRole::Object, TermRole::Graph],
            [TermRole::Graph, TermRole::Subject, TermRole::Predicate, TermRole::Object],
            [TermRole::Object, TermRole::Subject, TermRole::Graph, TermRole::Predicate],
        ];
        let ghost candidates = anti_candidates();
        assert(index_roles(block_candidates@) =~= candidates);
        assert forall|j: int| 0 <= j < 6 implies is_permutation(
            positions(#[trigger] block_candidates[j]),
        ) by {
            assert(positions(block_candidates[j]) == candidates[j]);
        }
        let mut best_tree: usize = 0;
        let mut best_tree_score: usize = 0;
        let mut i: usize = 0;
        while i < block_candidates.len()
            invariant
                0 <= i <= 6,
                block_candidates.len() == 6,
                candidates == anti_candidates(),
                index_roles(block_candidates@) == candidates,
                forall|j: int|
                    0 <= j < 6 ==> is_permutation(positions(#[trigger] block_candidates[j])),
                pattern_of_refs(term_roles) == shape,
                0 <= best_tree < 6,
                i == 0 ==> best_tree == 0 && best_tree_score == 0,
                i > 0 ==> best_tree < i && best_tree_score == prefix_score(
                    candidates[best_tree as int],
                    shape,
                ),
                forall|j: int|
                    0 <= j < i ==> prefix_score(#[trigger] candidates[j], shape)
                        <= best_tree_score,
                forall|j: int|
                    0 <= j < best_tree ==> prefix_score(#[trigger] candidates[j], shape)
                        < best_tree_score,
            decreases 6 - i,
        {
            let block_order = BlockOrder::new(block_candidates[i]);
            let score = block_order.index_conformance(&term_roles);
            assert(positions(block_candidates[i as int]) == candidates[i as int]);
            if score > best_tree_score {
                best_tree_score = score;
                best_tree = i;
            }
            i = i + 1;
        }
        proof {
            assert(is_first_best(candidates, shape, best_tree as int));
            lemma_first_best_unique(candidates, shape, best_tree as int);
        }
        let init_block = block_candidates[best_tree];
        block_candidates.remove(best_tree);
        let primary = vec![init_block];
        let forest = TreedDataset::new_with_indexes(&primary, Some(&block_candidates));
        proof {
            assert(index_roles(primary@.skip(1)) =~= Seq::empty());
            assert(index_roles(block_candidates@) =~= candidates.remove(best_tree as int));
            assert(forest@.secondaries =~= candidates.remove(best_tree as int));
            assert(forest@.built =~= first_built(0, 5));
        }
        forest
    }
}

/// A sequence of quads as a packed array: four identifiers per quad, in
/// (subject, predicate, object, graph) order.
pub open spec fn flatten(quads: Seq<Quad>) -> Seq<u32> {
    Seq::new(4 * quads.len(), |i: int| pick(quads[i / 4], i % 4))
}

/// The quads of a packed array. Identifiers after the last full group of
/// four are left out.
pub open spec fn packed_quads(encoded: Seq<u32>) -> Seq<Quad> {
    Seq::new(
        (encoded.len() / 4) as nat,
        |i: int| (encoded[4 * i], encoded[4 * i + 1], encoded[4 * i + 2], encoded[4 * i + 3]),
    )
}

/// Flattening one more quad appends its four identifiers.
pub proof fn lemma_flatten_push(quads: Seq<Quad>, q: Quad)
    ensures
        flatten(quads.push(q)) == flatten(quads) + seq![q.0, q.1, q.2, q.3],
{
    assert(flatten(quads.push(q)) =~= flatten(quads) + seq![q.0, q.1, q.2, q.3]);
}

/// The set of a sequence with one more element.
pub proof fn lemma_push_to_set<T>(s: Seq<T>, x: T)
    ensures
        s.push(x).to_set() == s.to_set().insert(x),
{
    assert forall|y: T| s.push(x).to_set().contains(y) <==> s.to_set().insert(x).contains(y) by {
        if s.push(x).contains(y) {
            let i = choose|i: int| 0 <= i < s.push(x).len() && s.push(x)[i] == y;
            if i < s.len() {
                assert(s[i] == y);
            }
        }
        if s.contains(y) {
            let i = choose|i: int| 0 <= i < s.len() && s[i] == y;
            assert(s.push(x)[i] == y);
        }
        if y == x {
            assert(s.push(x)[s.len() as int] == y);
        }
    }
    assert(s.push(x).to_set() =~= s.to_set().insert(x));
}

/// `Vec::into_boxed_slice`: the same elements, as a boxed slice.
#[verifier::external_body]
fn into_boxed(vector: Vec<u32>) -> (boxed: Box<[u32]>)
    ensures
        boxed@ == vector@,
{
    vector.into_boxed_slice()
}

impl TreedDataset {
    /// Adds the quad. Returns `true` if it was new.
    pub fn add(&mut self, s: u32, p: u32, o: u32, g: u32) -> (inserted: bool)
        requires
            old(self).wf(),
        ensures
            final(self).wf(),
            final(self)@ == old(self)@.with_quads(old(self)@.quads.insert((s, p, o, g))),
            inserted == !old(self)@.quads.contains((s, p, o, g)),
    {
        self.insert_by_index([s, p, o, g])
    }

    /// Removes the quad. Returns `true` if it was there.
    pub fn remove(&mut self, s: u32, p: u32, o: u32, g: u32) -> (deleted: bool)
        requires
            old(self).wf(),
        ensures
            final(self).wf(),
            final(self)@ == old(self)@.with_quads(old(self)@.quads.remove((s, p, o, g))),
            deleted == old(self)@.quads.contains((s, p, o, g)),
    {
        self.delete_by_index([s, p, o, g])
    }

    /// The quads that agree with the pattern, packed, in the order of the
    /// tree that serves the pattern best. That tree is built now if it was
    /// not. Every quad of the forest that agrees with the pattern is there
    /// once, and no other quad.
    pub fn get_all(
        &mut self,
        s: Option<u32>,
        p: Option<u32>,
        o: Option<u32>,
        g: Option<u32>,
    ) -> (all: Box<[u32]>)
        requires
            old(self).wf(),
        ensures
            final(self).wf(),
            final(self)@ == old(self)@.with_built(old(self)@.best((s, p, o, g), true)),
            all@ == flatten(old(self)@.scan((s, p, o, g), true)),
            old(self)@.scan((s, p, o, g), true).no_duplicates(),
            old(self)@.scan((s, p, o, g), true).to_set() == matching(
                old(self)@.quads,
                (s, p, o, g),
            ),
    {
        let mut vector: Vec<u32> = Vec::new();
        let mut scan = self.filter([s, p, o, g]);
        let ghost all = scan.remaining();
        let ghost mut done: Seq<Quad> = Seq::empty();
        proof {
            assert(vector@ =~= flatten(done));
        }
        loop
            invariant
                scan.wf(),
                all == done + scan.remaining(),
                vector@ == flatten(done),
            ensures
                scan.remaining().len() == 0,
            decreases scan.remaining().len(),
        {
            let ghost before = scan.remaining();
            match scan.next() {
                None => {
                    break ;
                },
                Some(quad) => {
                    vector.push(quad[0]);
                    vector.push(quad[1]);
                    vector.push(quad[2]);
                    vector.push(quad[3]);
                    proof {
                        let q = tuple_of(quad);
                        lemma_flatten_push(done, q);
                        assert(vector@ =~= flatten(done) + seq![q.0, q.1, q.2, q.3]);
                        assert(done.push(q) + scan.remaining() =~= done + before);
                        done = done.push(q);
                    }
                },
            }
        }
        proof {
            assert(all =~= done);
        }
        into_boxed(vector)
    }

    /// A new forest, with the default orders, of the quads that agree with
    /// the pattern. The tree of this forest that serves the pattern best
    /// is built now if it was not.
    pub fn new_from(
        &mut self,
        s: Option<u32>,
        p: Option<u32>,
        o: Option<u32>,
        g: Option<u32>,
    ) -> (new_tree: TreedDataset)
        requires
            old(self).wf(),
        ensures
            final(self).wf(),
            final(self)@ == old(self)@.with_built(old(self)@.best((s, p, o, g), true)),
            new_tree.wf(),
            new_tree@ == empty_forest(default_primary(), default_secondaries()).with_quads(
                matching(old(self)@.quads, (s, p, o, g)),
            ),
    {
        let mut new_tree = TreedDataset::new();
        let mut scan = self.filter([s, p, o, g]);
        let ghost all = scan.remaining();
        let ghost mut done: Seq<Quad> = Seq::empty();
        let ghost empty = empty_forest(default_primary(), default_secondaries());
        proof {
            assert(done.to_set() =~= Set::<Quad>::empty());
        }
        loop
            invariant
                scan.wf(),
                all == done + scan.remaining(),
                new_tree.wf(),
                empty == empty_forest(default_primary(), default_secondaries()),
                new_tree@ == empty.with_quads(done.to_set()),
            ensures
                scan.remaining().len() == 0,
            decreases scan.remaining().len(),
        {
            let ghost before = scan.remaining();
            match scan.next() {
                None => {
                    break ;
                },
                Some(quad) => {
                    new_tree.insert_by_index(quad);
                    proof {
                        let q = tuple_of(quad);
                        lemma_push_to_set(done, q);
                        assert(done.push(q) + scan.remaining() =~= done + before);
                        done = done.push(q);
                    }
                },
            }
        }
        proof {
            assert(all =~= done);
        }
        new_tree
    }

    /// Adds every quad of a packed array. Identifiers after the last full
    /// group of four are left out.
    pub fn insert_all_from_slice(&mut self, encoded_quads: &[u32])
        requires
            old(self).wf(),
        ensures
            final(self).wf(),
            final(self)@ == old(self)@.with_quads(
                old(self)@.quads.union(packed_quads(encoded_quads@).to_set()),
            ),
    {
        let ghost before = self@;
        let ghost packed = packed_quads(encoded_quads@);
        let length: usize = encoded_quads.len();
        let count: usize = length / 4;
        proof {
            assert(packed.take(0).to_set() =~= Set::<Quad>::empty());
            assert(before.quads.union(packed.take(0).to_set()) =~= before.quads);
        }
        let mut i: usize = 0;
        while i < count
            invariant
                0 <= i <= count,
                length == encoded_quads@.len(),
                count == length / 4,
                packed == packed_quads(encoded_quads@),
                self.wf(),
                self@ == before.with_quads(before.quads.union(packed.take(i as int).to_set())),
            decreases count - i,
        {
            self.add(
                encoded_quads[i * 4],
                encoded_quads[i * 4 + 1],
                encoded_quads[i * 4 + 2],
                encoded_quads[i * 4 + 3],
            );
            proof {
                let q = packed[i as int];
                assert(packed.take(i + 1) =~= packed.take(i as int).push(q));
                lemma_push_to_set(packed.take(i as int), q);
                assert(before.quads.union(packed.take(i as int).to_set()).insert(q)
                    =~= before.quads.union(packed.take(i + 1).to_set()));
            }
            i = i + 1;
        }
        proof {
            assert(packed.take(i as int) =~= packed);
        }
    }

    /// A forest, with the default orders, of the quads of a packed array.
    pub fn new_from_slice(encoded_quads: &[u32]) -> (new_tree: TreedDataset)
        ensures
            new_tree.wf(),
            new_tree@ == empty_forest(default_primary(), default_secondaries()).with_quads(
                packed_quads(encoded_quads@).to_set(),
            ),
    {
        let mut new_tree = TreedDataset::new();
        new_tree.insert_all_from_slice(encoded_quads);
        proof {
            assert(Set::<Quad>::empty().union(packed_quads(encoded_quads@).to_set())
                =~= packed_quads(encoded_quads@).to_set());
        }
        new_tree
    }
}

/// The quads that a sequence of arrays holds.
pub open spec fn tuples(quads: Seq<[u32; 4]>) -> Seq<Quad> {
    Seq::new(quads.len(), |i: int| tuple_of(quads[i]))
}

impl TreedDataset {
    /// Deletes every quad that agrees with the pattern. The quads are found
    /// in the built tree that serves the pattern best. If they are fewer
    /// than the quads of the forest divided by two more than the number of
    /// built secondary trees, they are deleted one by one. Else every
    /// secondary tree is dropped, to be built again on demand, and the
    /// primary tree is rebuilt from the keys that stay.
    pub fn delete_matches(
        &mut self,
        s: Option<u32>,
        p: Option<u32>,
        o: Option<u32>,
        g: Option<u32>,
    )
        requires
            old(self).wf(),
        ensures
            final(self).wf(),
            final(self)@ == old(self)@.without_matches((s, p, o, g)),
    {
        let ghost before = self@;
        let ghost pattern: Pattern = (s, p, o, g);
        let ghost gone = matching(before.quads, pattern);
        let spog = [s, p, o, g];
        let mut scan = self.search_all_matching_quads(spog, false);
        let ghost all = scan.remaining();
        let mut quads: Vec<[u32; 4]> = Vec::new();
        proof {
            self.lemma_wf();
            all.unique_seq_to_set();
            assert(tuples(quads@) =~= Seq::<Quad>::empty());
        }
        loop
            invariant
                scan.wf(),
                all == tuples(quads@) + scan.remaining(),
            ensures
                scan.remaining().len() == 0,
            decreases scan.remaining().len(),
        {
            let ghost rest = scan.remaining();
            let ghost found = tuples(quads@);
            match scan.next() {
                None => {
                    break ;
                },
                Some(quad) => {
                    quads.push(quad);
                    proof {
                        assert(tuples(quads@) =~= found.push(tuple_of(quad)));
                        assert(tuples(quads@) + scan.remaining() =~= found + rest);
                    }
                },
            }
        }
        proof {
            assert(all =~= tuples(quads@));
        }
        let built = self.number_of_optional_built_trees();
        let size = self.size();
        let few = match built.checked_add(2) {
            Some(ratio_threshhold) => quads.len() < size / ratio_threshhold,
            None => {
                proof {
                    let n: int = size as int;
                    let d: int = 2 + before.built_count() as int;
                    assert(n / d == 0) by (nonlinear_arith)
                        requires
                            0 <= n < d,
                    ;
                }
                false
            },
        };
        assert(few == !before.compacts(pattern));
        if few {
            let mut i: usize = 0;
            proof {
                assert(tuples(quads@).take(0).to_set() =~= Set::<Quad>::empty());
                assert(before.quads.difference(Set::<Quad>::empty()) =~= before.quads);
            }
            while i < quads.len()
                invariant
                    0 <= i <= quads.len(),
                    self.wf(),
                    self@ == before.with_quads(
                        before.quads.difference(tuples(quads@).take(i as int).to_set()),
                    ),
                decreases quads.len() - i,
            {
                self.delete_by_index(quads[i]);
                proof {
                    let q = tuple_of(quads[i as int]);
                    let done = tuples(quads@).take(i as int);
                    assert(tuples(quads@).take(i + 1) =~= done.push(q));
                    lemma_push_to_set(done, q);
                    assert(before.quads.difference(done.to_set()).remove(q)
                        =~= before.quads.difference(done.push(q).to_set()));
                }
                i = i + 1;
            }
            proof {
                assert(tuples(quads@).take(i as int) =~= tuples(quads@));
            }
        } else {
            let ghost entry_base = self.base_tree;
            let ghost entry_trees = self.optional_trees@;
            let mut i: usize = 0;
            while i < self.optional_trees.len()
                invariant
                    0 <= i <= self.optional_trees.len(),
                    self.base_tree == entry_base,
                    self.optional_trees.len() == entry_trees.len(),
                    forall|j: int|
                        0 <= j < self.optional_trees.len() ==> (#[trigger] self.optional_trees[j]).0
                            == entry_trees[j].0,
                    forall|j: int|
                        0 <= j < i ==> !latch_filled((#[trigger] self.optional_trees[j]).1),
                decreases self.optional_trees.len() - i,
            {
                let ghost trees = self.optional_trees@;
                let optional_tree_tuple = &mut self.optional_trees[i];
                latch_take(&mut optional_tree_tuple.1);
                proof {
                    assert forall|j: int| 0 <= j < self.optional_trees.len() && j != i implies (
                    #[trigger] self.optional_trees[j]) == trees[j] by {}
                }
                i = i + 1;
            }
            let new_tree = self.base_tree.0.build_new_tree_by_filtering(&self.base_tree.1, &spog);
            proof {
                let roles = before.primary;
                let keys = entry_base.1@;
                self.base_tree.0.lemma_wf_permutation();
                keys.lemma_len_filter(|k: Key| !agrees(k, layout(roles, pattern)));
                assert forall|q: Quad| #[trigger]
                    quads_of(roles, new_tree@).contains(q) <==> before.quads.difference(
                        gone,
                    ).contains(q) by {
                    lemma_layout_inverse(roles, q);
                    crate::order::lemma_agrees_layout(roles, layout(roles, q), pattern);
                }
                assert(quads_of(roles, new_tree@) =~= before.quads.difference(gone));
            }
            self.base_tree.1 = new_tree;
            proof {
                assert(self@.secondaries =~= before.secondaries);
                assert(self@.built =~= before.with_none_built().built);
            }
        }
    }
}

/// Merging the keys of two trees of one order merges their quads: the
/// keys of the intersection, the union and the difference stand for the
/// intersection, the union and the difference of the quads, and one set of
/// keys holds the other exactly when its quads hold the other's.
pub proof fn lemma_merge_keys(roles: Four<int>, a: Set<Key>, b: Set<Key>)
    requires
        is_permutation(roles),
    ensures
        quads_of(roles, a.intersect(b)) == quads_of(roles, a).intersect(quads_of(roles, b)),
        quads_of(roles, a.union(b)) == quads_of(roles, a).union(quads_of(roles, b)),
        quads_of(roles, a.difference(b)) == quads_of(roles, a).difference(quads_of(roles, b)),
        b.subset_of(a) == quads_of(roles, b).subset_of(quads_of(roles, a)),
{
    assert(quads_of(roles, a.intersect(b)) =~= quads_of(roles, a).intersect(quads_of(roles, b)));
    assert(quads_of(roles, a.union(b)) =~= quads_of(roles, a).union(quads_of(roles, b)));
    assert(quads_of(roles, a.difference(b)) =~= quads_of(roles, a).difference(
        quads_of(roles, b),
    ));
    if quads_of(roles, b).subset_of(quads_of(roles, a)) {
        assert forall|k: Key| b.contains(k) implies a.contains(k) by {
            lemma_layout_inverse(roles, k);
            assert(quads_of(roles, b).contains(unlayout(roles, k)));
        }
    }
}

impl TreedDataset {
    /// Whether the two forests keep their primary trees in the same order,
    /// so that the trees can be merged key by key.
    pub fn are_trivially_mergeable_trees(lhs: &Self, rhs: &Self) -> (mergeable: bool)
        ensures
            mergeable == (lhs@.primary == rhs@.primary),
    {
        let left = lhs.base_tree.0.term_roles();
        let right = rhs.base_tree.0.term_roles();
        left[0] == right[0] && left[1] == right[1] && left[2] == right[2] && left[3] == right[3]
    }

    /// A forest, with the default orders, of the quads that `merged` holds
    /// as keys of `order`. Keys in the default primary order become the
    /// primary tree as they are.
    fn new_tree_from_fusion(order: &BlockOrder, merged: BTreeSet<Key>) -> (new_tree: Self)
        requires
            order.wf(),
            merged@.finite(),
        ensures
            new_tree.wf(),
            new_tree@ == empty_forest(default_primary(), default_secondaries()).with_quads(
                quads_of(order.roles(), merged@),
            ),
    {
        let mut new_tree = Self::new();
        let roles = order.term_roles();
        let ghost empty = empty_forest(default_primary(), default_secondaries());
        if roles[0] == TermRole::Object && roles[1] == TermRole::Graph && roles[2]
            == TermRole::Predicate && roles[3] == TermRole::Subject {
            assert(order.roles() == default_primary());
            proof {
                assert forall|i: int| 0 <= i < new_tree.optional_trees.len() implies !latch_filled(
                    (#[trigger] new_tree.optional_trees[i]).1,
                ) by {
                    assert(!new_tree@.built[i]);
                }
            }
            new_tree.base_tree.1 = merged;
            proof {
                assert(new_tree@.secondaries =~= empty.secondaries);
                assert(new_tree@.built =~= empty.built);
            }
        } else {
            let mut scan = order.filter(&merged, [None, None, None, None]);
            let ghost all = scan.remaining();
            let ghost mut done: Seq<Quad> = Seq::empty();
            proof {
                let none: Pattern = (None, None, None, None);
                assert(tuple_of::<Option<u32>>([None, None, None, None]) == none);
                order.lemma_wf_permutation();
                lemma_index_scan(order.roles(), merged@, none);
                assert(matching(quads_of(order.roles(), merged@), none) =~= quads_of(
                    order.roles(),
                    merged@,
                )) by {
                    assert forall|q: Quad| agrees(q, none) by {}
                }
                assert(done.to_set() =~= Set::<Quad>::empty());
            }
            loop
                invariant
                    scan.wf(),
                    all == done + scan.remaining(),
                    new_tree.wf(),
                    empty == empty_forest(default_primary(), default_secondaries()),
                    new_tree@ == empty.with_quads(done.to_set()),
                ensures
                    scan.remaining().len() == 0,
                decreases scan.remaining().len(),
            {
                let ghost before = scan.remaining();
                match scan.next() {
                    None => {
                        break ;
                    },
                    Some(quad) => {
                        new_tree.insert_by_index(quad);
                        proof {
                            let q = tuple_of(quad);
                            lemma_push_to_set(done, q);
                            assert(done.push(q) + scan.remaining() =~= done + before);
                            done = done.push(q);
                        }
                    },
                }
            }
            proof {
                assert(all =~= done);
            }
        }
        new_tree
    }

    /// Every quad of the forest, in the order of the primary tree.
    fn all_quads(&self) -> (scan: FilteredIndexQuads)
        requires
            self.wf(),
        ensures
            scan.wf(),
            scan.remaining().no_duplicates(),
            scan.remaining().to_set() == self@.quads,
    {
        proof {
            let none: Pattern = (None, None, None, None);
            assert(tuple_of::<Option<u32>>([None, None, None, None]) == none);
            self.base_tree.0.lemma_wf_permutation();
            lemma_index_scan(self@.primary, self.base_tree.1@, none);
            assert(matching(self@.quads, none) =~= self@.quads) by {
                assert forall|q: Quad| agrees(q, none) by {}
            }
        }
        self.base_tree.0.filter(&self.base_tree.1, [None, None, None, None])
    }

    /// A forest, with the default orders, of the quads that are in both
    /// forests.
    pub fn insersect(&self, other: &TreedDataset) -> (new_tree: TreedDataset)
        requires
            self.wf(),
            other.wf(),
        ensures
            new_tree.wf(),
            new_tree@ == empty_forest(default_primary(), default_secondaries()).with_quads(
                self@.quads.intersect(other@.quads),
            ),
    {
        broadcast use vstd::set::group_set_axioms;

        if TreedDataset::are_trivially_mergeable_trees(self, other) {
            proof {
                self.base_tree.0.lemma_wf_permutation();
                lemma_merge_keys(self@.primary, self.base_tree.1@, other.base_tree.1@);
            }
            Self::new_tree_from_fusion(
                &self.base_tree.0,
                keys_intersection(&self.base_tree.1, &other.base_tree.1),
            )
        } else {
            let mut new_tree = Self::new();
            let mut scan = self.all_quads();
            let ghost all = scan.remaining();
            let ghost mut done: Seq<Quad> = Seq::empty();
            let ghost empty = empty_forest(default_primary(), default_secondaries());
            proof {
                assert(done.to_set().intersect(other@.quads) =~= Set::<Quad>::empty());
            }
            loop
                invariant
                    scan.wf(),
                    other.wf(),
                    all == done + scan.remaining(),
                    new_tree.wf(),
                    empty == empty_forest(default_primary(), default_secondaries()),
                    new_tree@ == empty.with_quads(done.to_set().intersect(other@.quads)),
                ensures
                    scan.remaining().len() == 0,
                decreases scan.remaining().len(),
            {
                let ghost before = scan.remaining();
                match scan.next() {
                    None => {
                        break ;
                    },
                    Some(quad) => {
                        proof {
                            let q = tuple_of(quad);
                            lemma_push_to_set(done, q);
                            assert(done.push(q) + scan.remaining() =~= done + before);
                            if other@.quads.contains(q) {
                                assert(done.to_set().intersect(other@.quads).insert(q)
                                    =~= done.push(q).to_set().intersect(other@.quads));
                            } else {
                                assert(done.to_set().intersect(other@.quads) =~= done.push(
                                    q,
                                ).to_set().intersect(other@.quads));
                            }
                            done = done.push(q);
                        }
                        if other.has(quad[0], quad[1], quad[2], quad[3]) {
                            new_tree.add(quad[0], quad[1], quad[2], quad[3]);
                        }
                    },
                }
            }
            proof {
                assert(all =~= done);
            }
            new_tree
        }
    }

    /// A forest, with the default orders, of the quads that are in either
    /// forest.
    pub fn union(&self, other: &TreedDataset) -> (new_tree: TreedDataset)
        requires
            self.wf(),
            other.wf(),
        ensures
            new_tree.wf(),
            new_tree@ == empty_forest(default_primary(), default_secondaries()).with_quads(
                self@.quads.union(other@.quads),
            ),
    {
        broadcast use vstd::set::group_set_axioms;

        if TreedDataset::are_trivially_mergeable_trees(self, other) {
            proof {
                self.base_tree.0.lemma_wf_permutation();
                lemma_merge_keys(self@.primary, self.base_tree.1@, other.base_tree.1@);
            }
            Self::new_tree_from_fusion(
                &self.base_tree.0,
                keys_union(&self.base_tree.1, &other.base_tree.1),
            )
        } else {
            let mut new_tree = Self::new();
            new_tree.add_all(self);
            new_tree.add_all(other);
            proof {
                assert(Set::<Quad>::empty().union(self@.quads).union(other@.quads)
                    =~= self@.quads.union(other@.quads));
            }
            new_tree
        }
    }

    /// Adds every quad of `other`.
    fn add_all(&mut self, other: &TreedDataset)
        requires
            old(self).wf(),
            other.wf(),
        ensures
            final(self).wf(),
            final(self)@ == old(self)@.with_quads(old(self)@.quads.union(other@.quads)),
    {
        let ghost start = self@;
        let mut scan = other.all_quads();
        let ghost all = scan.remaining();
        let ghost mut done: Seq<Quad> = Seq::empty();
        proof {
            assert(start.quads.union(done.to_set()) =~= start.quads);
        }
        loop
            invariant
                scan.wf(),
                all == done + scan.remaining(),
                self.wf(),
                self@ == start.with_quads(start.quads.union(done.to_set())),
            ensures
                scan.remaining().len() == 0,
            decreases scan.remaining().len(),
        {
            let ghost before = scan.remaining();
            match scan.next() {
                None => {
                    break ;
                },
                Some(quad) => {
                    self.add(quad[0], quad[1], quad[2], quad[3]);
                    proof {
                        let q = tuple_of(quad);
                        lemma_push_to_set(done, q);
                        assert(done.push(q) + scan.remaining() =~= done + before);
                        assert(start.quads.union(done.to_set()).insert(q) =~= start.quads.union(
                            done.push(q).to_set(),
                        ));
                        done = done.push(q);
                    }
                },
            }
        }
        proof {
            assert(all =~= done);
        }
    }

    /// A forest, with the default orders, of the quads of this forest that
    /// are not in `other`.
    pub fn difference(&self, other: &TreedDataset) -> (new_tree: TreedDataset)
        requires
            self.wf(),
            other.wf(),
        ensures
            new_tree.wf(),
            new_tree@ == empty_forest(default_primary(), default_secondaries()).with_quads(
                self@.quads.difference(other@.quads),
            ),
    {
        broadcast use vstd::set::group_set_axioms;

        if TreedDataset::are_trivially_mergeable_trees(self, other) {
            proof {
                self.base_tree.0.lemma_wf_permutation();
                lemma_merge_keys(self@.primary, self.base_tree.1@, other.base_tree.1@);
            }
            Self::new_tree_from_fusion(
                &self.base_tree.0,
                keys_difference(&self.base_tree.1, &other.base_tree.1),
            )
        } else {
            let mut new_tree = Self::new();
            let mut scan = self.all_quads();
            let ghost all = scan.remaining();
            let ghost mut done: Seq<Quad> = Seq::empty();
            let ghost empty = empty_forest(default_primary(), default_secondaries());
            proof {
                assert(done.to_set().difference(other@.quads) =~= Set::<Quad>::empty());
            }
            loop
                invariant
                    scan.wf(),
                    other.wf(),
                    all == done + scan.remaining(),
                    new_tree.wf(),
                    empty == empty_forest(default_primary(), default_secondaries()),
                    new_tree@ == empty.with_quads(done.to_set().difference(other@.quads)),
                ensures
                    scan.remaining().len() == 0,
                decreases scan.remaining().len(),
            {
                let ghost before = scan.remaining();
                match scan.next() {
                    None => {
                        break ;
                    },
                    Some(quad) => {
                        proof {
                            let q = tuple_of(quad);
                            lemma_push_to_set(done, q);
                            assert(done.push(q) + scan.remaining() =~= done + before);
                            if !other@.quads.contains(q) {
                                assert(done.to_set().difference(other@.quads).insert(q)
                                    =~= done.push(q).to_set().difference(other@.quads));
                            } else {
                                assert(done.to_set().difference(other@.quads) =~= done.push(
                                    q,
                                ).to_set().difference(other@.quads));
                            }
                            done = done.push(q);
                        }
                        if !other.has(quad[0], quad[1], quad[2], quad[3]) {
                            new_tree.add(quad[0], quad[1], quad[2], quad[3]);
                        }
                    },
                }
            }
            proof {
                assert(all =~= done);
            }
            new_tree
        }
    }

    /// Whether every quad of `other` is in this forest.
    pub fn contains(&self, other: &TreedDataset) -> (all_there: bool)
        requires
            self.wf(),
            other.wf(),
        ensures
            all_there == other@.quads.subset_of(self@.quads),
    {
        if TreedDataset::are_trivially_mergeable_trees(self, other) {
            proof {
                self.base_tree.0.lemma_wf_permutation();
                lemma_merge_keys(self@.primary, self.base_tree.1@, other.base_tree.1@);
            }
            keys_is_superset(&self.base_tree.1, &other.base_tree.1)
        } else {
            let mut scan = other.all_quads();
            let ghost all = scan.remaining();
            let ghost mut done: Seq<Quad> = Seq::empty();
            loop
                invariant
                    scan.wf(),
                    self.wf(),
                    all == done + scan.remaining(),
                    all.to_set() == other@.quads,
                    done.to_set().subset_of(self@.quads),
                ensures
                    scan.remaining().len() == 0,
                decreases scan.remaining().len(),
            {
                let ghost before = scan.remaining();
                match scan.next() {
                    None => {
                        break ;
                    },
                    Some(quad) => {
                        proof {
                            let q = tuple_of(quad);
                            lemma_push_to_set(done, q);
                            assert(done.push(q) + scan.remaining() =~= done + before);
                        }
                        if !self.has(quad[0], quad[1], quad[2], quad[3]) {
                            proof {
                                let q = tuple_of(quad);
                                assert(all[done.len() as int] == q);
                                assert(all.to_set().contains(q));
                            }
                            return false;
                        }
                        proof {
                            done = done.push(tuple_of(quad));
                        }
                    },
                }
            }
            proof {
                assert(all =~= done);
            }
            true
        }
    }

    /// Whether the two forests hold the same quads: as many, and every
    /// quad of `other` in this forest.
    pub fn has_same_elements(&self, other: &TreedDataset) -> (same: bool)
        requires
            self.wf(),
            other.wf(),
        ensures
            same == (self@.quads.len() == other@.quads.len() && other@.quads.subset_of(
                self@.quads,
            )),
            same == (self@.quads == other@.quads),
    {
        proof {
            self.lemma_wf();
            other.lemma_wf();
            if self@.quads.len() == other@.quads.len() && other@.quads.subset_of(self@.quads) {
                vstd::set_lib::lemma_subset_equality(other@.quads, self@.quads);
            }
        }
        if self.size() != other.size() {
            return false;
        }
        self.contains(other)
    }
}

impl TreedDataset {
    /// A forest, with the default orders, of the quads of a packed array
    /// that are in this forest.
    pub fn intersect_slice(&self, other: &[u32]) -> (new_tree: TreedDataset)
        requires
            self.wf(),
        ensures
            new_tree.wf(),
            new_tree@ == empty_forest(default_primary(), default_secondaries()).with_quads(
                self@.quads.intersect(packed_quads(other@).to_set()),
            ),
    {
        let mut new_tree = Self::new();
        let ghost packed = packed_quads(other@);
        let ghost empty = empty_forest(default_primary(), default_secondaries());
        let length: usize = other.len();
        let count: usize = length / 4;
        proof {
            assert(self@.quads.intersect(packed.take(0).to_set()) =~= Set::<Quad>::empty());
        }
        let mut i: usize = 0;
        while i < count
            invariant
                0 <= i <= count,
                length == other@.len(),
                count == length / 4,
                packed == packed_quads(other@),
                self.wf(),
                new_tree.wf(),
                empty == empty_forest(default_primary(), default_secondaries()),
                new_tree@ == empty.with_quads(
                    self@.quads.intersect(packed.take(i as int).to_set()),
                ),
            decreases count - i,
        {
            proof {
                let q = packed[i as int];
                let done = packed.take(i as int);
                assert(packed.take(i + 1) =~= done.push(q));
                lemma_push_to_set(done, q);
                if self@.quads.contains(q) {
                    assert(self@.quads.intersect(done.to_set()).insert(q)
                        =~= self@.quads.intersect(done.push(q).to_set()));
                } else {
                    assert(self@.quads.intersect(done.to_set()) =~= self@.quads.intersect(
                        done.push(q).to_set(),
                    ));
                }
            }
            if self.has(other[i * 4], other[i * 4 + 1], other[i * 4 + 2], other[i * 4 + 3]) {
                new_tree.add(other[i * 4], other[i * 4 + 1], other[i * 4 + 2], other[i * 4 + 3]);
            }
            i = i + 1;
        }
        proof {
            assert(packed.take(i as int) =~= packed);
        }
        new_tree
    }

    /// A forest, with the default orders, of the quads of this forest and
    /// those of a packed array.
    pub fn union_slice(&self, other: &[u32]) -> (new_tree: TreedDataset)
        requires
            self.wf(),
        ensures
            new_tree.wf(),
            new_tree@ == empty_forest(default_primary(), default_secondaries()).with_quads(
                self@.quads.union(packed_quads(other@).to_set()),
            ),
    {
        let mut new_tree = Self::new();
        new_tree.add_all(self);
        new_tree.insert_all_from_slice(other);
        proof {
            assert(Set::<Quad>::empty().union(self@.quads) =~= self@.quads);
        }
        new_tree
    }

    /// A forest, with the default orders, of the quads of this forest that
    /// are not in a packed array.
    pub fn difference_slice(&self, other: &[u32]) -> (new_tree: TreedDataset)
        requires
            self.wf(),
        ensures
            new_tree.wf(),
            new_tree@ == empty_forest(default_primary(), default_secondaries()).with_quads(
                self@.quads.difference(packed_quads(other@).to_set()),
            ),
    {
        let mut new_tree = Self::new();
        new_tree.add_all(self);
        let ghost packed = packed_quads(other@);
        let ghost empty = empty_forest(default_primary(), default_secondaries());
        let length: usize = other.len();
        let count: usize = length / 4;
        proof {
            assert(Set::<Quad>::empty().union(self@.quads) =~= self@.quads);
            assert(self@.quads.difference(packed.take(0).to_set()) =~= self@.quads);
        }
        let mut i: usize = 0;
        while i < count
            invariant
                0 <= i <= count,
                length == other@.len(),
                count == length / 4,
                packed == packed_quads(other@),
                new_tree.wf(),
                empty == empty_forest(default_primary(), default_secondaries()),
                new_tree@ == empty.with_quads(
                    self@.quads.difference(packed.take(i as int).to_set()),
                ),
            decreases count - i,
        {
            new_tree.delete_by_index(
                [other[i * 4], other[i * 4 + 1], other[i * 4 + 2], other[i * 4 + 3]],
            );
            proof {
                let q = packed[i as int];
                let done = packed.take(i as int);
                assert(packed.take(i + 1) =~= done.push(q));
                lemma_push_to_set(done, q);
                assert(self@.quads.difference(done.to_set()).remove(q) =~= self@.quads.difference(
                    done.push(q).to_set(),
                ));
            }
            i = i + 1;
        }
        proof {
            assert(packed.take(i as int) =~= packed);
        }
        new_tree
    }

    /// Whether every quad of a packed array is in this forest. The array
    /// has to hold full quads only.
    pub fn contains_slice(&self, other: &[u32]) -> (all_there: bool)
        requires
            self.wf(),
            other@.len() % 4 == 0,
        ensures
            all_there == packed_quads(other@).to_set().subset_of(self@.quads),
    {
        let ghost packed = packed_quads(other@);
        let length: usize = other.len();
        let count: usize = length / 4;
        let mut i: usize = 0;
        while i != count
            invariant
                0 <= i <= count,
                length == other@.len(),
                count == length / 4,
                packed == packed_quads(other@),
                self.wf(),
                packed.take(i as int).to_set().subset_of(self@.quads),
            decreases count - i,
        {
            proof {
                let q = packed[i as int];
                assert(packed.take(i + 1) =~= packed.take(i as int).push(q));
                lemma_push_to_set(packed.take(i as int), q);
            }
            if !self.has(other[i * 4], other[i * 4 + 1], other[i * 4 + 2], other[i * 4 + 3]) {
                proof {
                    assert(packed.to_set().contains(packed[i as int]));
                }
                return false;
            }
            i = i + 1;
        }
        proof {
            assert(packed.take(i as int) =~= packed);
        }
        true
    }

    /// Whether the quads of the forest are the quads of a packed array,
    /// in whatever order the array holds them and however often it
    /// repeats one. Identifiers after the last full group of four are left
    /// out.
    pub fn equals_slice(&self, other: &[u32]) -> (same: bool)
        requires
            self.wf(),
        ensures
            same == (self@.quads == packed_quads(other@).to_set()),
    {
        let ghost packed = packed_quads(other@);
        let length: usize = other.len();
        let count: usize = length / 4;
        let size = self.size();
        proof {
            self.lemma_wf();
        }
        if count < size {
            proof {
                packed.lemma_cardinality_of_set();
            }
            return false;
        }
        let mut seen = keys_new();
        let mut i: usize = 0;
        proof {
            assert(packed.take(0).to_set() =~= Set::<Quad>::empty());
        }
        while i != count
            invariant
                0 <= i <= count,
                length == other@.len(),
                count == length / 4,
                packed == packed_quads(other@),
                self.wf(),
                seen@ == packed.take(i as int).to_set(),
                seen@.finite(),
                seen@.subset_of(self@.quads),
            decreases count - i,
        {
            proof {
                let q = packed[i as int];
                assert(packed.take(i + 1) =~= packed.take(i as int).push(q));
                lemma_push_to_set(packed.take(i as int), q);
            }
            if !self.has(other[i * 4], other[i * 4 + 1], other[i * 4 + 2], other[i * 4 + 3]) {
                proof {
                    assert(packed.to_set().contains(packed[i as int]));
                }
                return false;
            }
            keys_insert(
                &mut seen,
                (other[i * 4], other[i * 4 + 1], other[i * 4 + 2], other[i * 4 + 3]),
            );
            i = i + 1;
        }
        proof {
            assert(packed.take(i as int) =~= packed);
            if seen@.len() == self@.quads.len() {
                vstd::set_lib::lemma_subset_equality(seen@, self@.quads);
            }
        }
        keys_len(&seen) == size
    }
}

} // verus!
