//! The forest as a host sees it: a forest with the default orders, queried
//! with patterns of optional identifiers and filled from and emptied into
//! packed arrays.

use vstd::prelude::*;
use crate::dataset::{
    default_primary,
    default_secondaries,
    empty_forest,
    flatten,
    packed_quads,
    ForestView,
    TreedDataset,
};
use crate::index::{keys_of, matching, quads_of};
use crate::order::{Key, Pattern, Quad};

verus! {

/// The pattern shape that binds, with an arbitrary identifier, each
/// position given as `true`.
pub open spec fn bound_pattern(s: bool, p: bool, o: bool, g: bool) -> Pattern {
    (
        if s {
            Some(0u32)
        } else {
            None
        },
        if p {
            Some(0u32)
        } else {
            None
        },
        if o {
            Some(0u32)
        } else {
            None
        },
        if g {
            Some(0u32)
        } else {
            None
        },
    )
}

/// A forest of quads of identifiers with the default orders: a primary
/// tree in the order object, graph, predicate, subject, and the secondary
/// trees SPOG, GPSO, POGS, GSPO and OSGP, each built when a query first
/// asks for it.
pub struct ForestOfIdentifierQuads {
    trees: TreedDataset,
}

impl View for ForestOfIdentifierQuads {
    type V = ForestView;

    closed spec fn view(&self) -> ForestView {
        self.trees@
    }
}

impl ForestOfIdentifierQuads {
    /// The forest is well formed and has the default orders.
    pub closed spec fn wf(&self) -> bool {
        &&& self.trees.wf()
        &&& self.trees@.primary == default_primary()
        &&& self.trees@.secondaries == default_secondaries()
    }

    /// The keys of secondary tree `i`, where it is built.
    pub closed spec fn secondary_keys(&self, i: int) -> Set<Key> {
        self.trees.secondary_keys(i)
    }

    /// The view of a well-formed forest is well formed and has the default
    /// orders, and every built secondary tree stands for the same quads as
    /// the primary one: its keys are the keys of those quads in its own
    /// order, one key for each quad.
    pub proof fn lemma_wf(&self)
        requires
            self.wf(),
        ensures
            self@.wf(),
            self@.primary == default_primary(),
            self@.secondaries == default_secondaries(),
            forall|i: int|
                0 <= i < self@.built.len() && #[trigger] self@.built[i] ==> {
                    &&& quads_of(self@.secondaries[i], self.secondary_keys(i)) == self@.quads
                    &&& self.secondary_keys(i) == keys_of(self@.secondaries[i], self@.quads)
                    &&& self.secondary_keys(i).len() == self@.quads.len()
                },
    {
        self.trees.lemma_wf();
    }

    /// An empty forest, with no secondary tree built.
    pub fn new() -> (forest: Self)
        ensures
            forest.wf(),
            forest@ == empty_forest(default_primary(), default_secondaries()),
    {
        Self { trees: TreedDataset::new() }
    }

    /// The number of quads.
    pub fn size(&self) -> (n: usize)
        requires
            self.wf(),
        ensures
            n == self@.quads.len(),
    {
        self.trees.size()
    }

    /// Adds the quad. Returns `true` if it was new.
    pub fn add(&mut self, s: u32, p: u32, o: u32, g: u32) -> (inserted: bool)
        requires
            old(self).wf(),
        ensures
            final(self).wf(),
            final(self)@ == old(self)@.with_quads(old(self)@.quads.insert((s, p, o, g))),
            inserted == !old(self)@.quads.contains((s, p, o, g)),
    {
        self.trees.insert_by_index([s, p, o, g])
    }

    /// Removes the quad. Returns `true` if it was there.
    pub fn remove(&mut self, s: u32, p: u32, o: u32, g: u32) -> (deleted: bool)
        requires
            old(self).wf(),
        ensures
            final(self).wf(),
            final(self)@ == old(self)@.with_quads(old(self)@.quads.remove((s, p, o, g))),
            deleted == old(self)@.quads.contains((s, p, o, g)),
    {
        self.trees.delete_by_index([s, p, o, g])
    }

    /// Whether the forest holds the quad.
    pub fn has(&self, s: u32, p: u32, o: u32, g: u32) -> (present: bool)
        requires
            self.wf(),
        ensures
            present == self@.quads.contains((s, p, o, g)),
    {
        self.trees.has(s, p, o, g)
    }

    /// The quads that agree with the pattern, packed, in the order of the
    /// tree that serves the pattern best. That tree is built now if it was
    /// not. Every quad of the forest that agrees with the pattern is there
    /// once, and no other quad.
    pub fn get_all(
        &mut self,
        s: Option<u32>,
        p: Option<u32>,
        o: Option<u32>,
        g: Option<u32>,
    ) -> (all: Box<[u32]>)
        requires
            old(self).wf(),
        ensures
            final(self).wf(),
            final(self)@ == old(self)@.with_built(old(self)@.best((s, p, o, g), true)),
            all@ == flatten(old(self)@.scan((s, p, o, g), true)),
            old(self)@.scan((s, p, o, g), true).no_duplicates(),
            old(self)@.scan((s, p, o, g), true).to_set() == matching(
                old(self)@.quads,
                (s, p, o, g),
            ),
    {
        self.trees.get_all(s, p, o, g)
    }

    /// A new forest of the quads that agree with the pattern. The tree of
    /// this forest that serves the pattern best is built now if it was not.
    pub fn new_from(
        &mut self,
        s: Option<u32>,
        p: Option<u32>,
        o: Option<u32>,
        g: Option<u32>,
    ) -> (new_tree: Self)
        requires
            old(self).wf(),
        ensures
            final(self).wf(),
            final(self)@ == old(self)@.with_built(old(self)@.best((s, p, o, g), true)),
            new_tree.wf(),
            new_tree@ == empty_forest(default_primary(), default_secondaries()).with_quads(
                matching(old(self)@.quads, (s, p, o, g)),
            ),
    {
        Self { trees: self.trees.new_from(s, p, o, g) }
    }

    /// Adds every quad of a packed array. Identifiers after the last full
    /// group of four are left out.
    pub fn insert_from_identifier_list(&mut self, encoded_quads: &[u32])
        requires
            old(self).wf(),
        ensures
            final(self).wf(),
            final(self)@ == old(self)@.with_quads(
                old(self)@.quads.union(packed_quads(encoded_quads@).to_set()),
            ),
    {
        self.trees.insert_all_from_slice(encoded_quads);
    }

    /// A forest of the quads of a packed array.
    pub fn new_from_identifier_list(encoded_quads: &[u32]) -> (new_tree: Self)
        ensures
            new_tree.wf(),
            new_tree@ == empty_forest(default_primary(), default_secondaries()).with_quads(
                packed_quads(encoded_quads@).to_set(),
            ),
    {
        let mut new_tree = Self::new();
        new_tree.insert_from_identifier_list(encoded_quads);
        proof {
            assert(Set::<Quad>::empty().union(packed_quads(encoded_quads@).to_set())
                =~= packed_quads(encoded_quads@).to_set());
        }
        new_tree
    }

    /// The number of secondary trees that are built.
    pub fn number_of_optional_built_trees(&self) -> (n: usize)
        ensures
            n == self@.built_count(),
    {
        self.trees.number_of_optional_built_trees()
    }

    /// The number of secondary trees that are built.
    pub fn get_number_of_living_trees(&self) -> (n: usize)
        ensures
            n == self@.built_count(),
    {
        self.trees.number_of_optional_built_trees()
    }

    /// Deletes every quad that agrees with the pattern. Where these are
    /// many, every secondary tree is dropped, to be built again on demand.
    pub fn delete_matches(
        &mut self,
        s: Option<u32>,
        p: Option<u32>,
        o: Option<u32>,
        g: Option<u32>,
    )
        requires
            old(self).wf(),
        ensures
            final(self).wf(),
            final(self)@ == old(self)@.without_matches((s, p, o, g)),
    {
        self.trees.delete_matches(s, p, o, g);
    }

    /// Whether the primary trees of the two forests are in the same order,
    /// so that they can be merged key by key. Well-formed forests always are.
    pub fn are_trivially_mergeable_trees(lhs: &Self, rhs: &Self) -> (mergeable: bool)
        ensures
            mergeable == (lhs@.primary == rhs@.primary),
            lhs.wf() && rhs.wf() ==> mergeable,
    {
        TreedDataset::are_trivially_mergeable_trees(&lhs.trees, &rhs.trees)
    }

    /// A forest of the quads that are in both forests.
    pub fn insersect(&self, other: &ForestOfIdentifierQuads) -> (new_tree: ForestOfIdentifierQuads)
        requires
            self.wf(),
            other.wf(),
        ensures
            new_tree.wf(),
            new_tree@ == empty_forest(default_primary(), default_secondaries()).with_quads(
                self@.quads.intersect(other@.quads),
            ),
    {
        Self { trees: self.trees.insersect(&other.trees) }
    }

    /// A forest of the quads of a packed array that are in this forest.
    pub fn intersect_slice(&self, other: &[u32]) -> (new_tree: Self)
        requires
            self.wf(),
        ensures
            new_tree.wf(),
            new_tree@ == empty_forest(default_primary(), default_secondaries()).with_quads(
                self@.quads.intersect(packed_quads(other@).to_set()),
            ),
    {
        Self { trees: self.trees.intersect_slice(other) }
    }

    /// A forest of the quads of this forest and those of a packed array.
    pub fn union_slice(&self, other: &[u32]) -> (new_tree: Self)
        requires
            self.wf(),
        ensures
            new_tree.wf(),
            new_tree@ == empty_forest(default_primary(), default_secondaries()).with_quads(
                self@.quads.union(packed_quads(other@).to_set()),
            ),
    {
        Self { trees: self.trees.union_slice(other) }
    }

    /// A forest of the quads of this forest that are not in a packed array.
    pub fn difference_slice(&self, other: &[u32]) -> (new_tree: Self)
        requires
            self.wf(),
        ensures
            new_tree.wf(),
            new_tree@ == empty_forest(default_primary(), default_secondaries()).with_quads(
                self@.quads.difference(packed_quads(other@).to_set()),
            ),
    {
        Self { trees: self.trees.difference_slice(other) }
    }

    /// A forest of the quads that are in either forest.
    pub fn union(&self, other: &ForestOfIdentifierQuads) -> (new_tree: Self)
        requires
            self.wf(),
            other.wf(),
        ensures
            new_tree.wf(),
            new_tree@ == empty_forest(default_primary(), default_secondaries()).with_quads(
                self@.quads.union(other@.quads),
            ),
    {
        Self { trees: self.trees.union(&other.trees) }
    }

    /// A forest of the quads of this forest that are not in `other`.
    pub fn difference(&self, other: &ForestOfIdentifierQuads) -> (new_tree: Self)
        requires
            self.wf(),
            other.wf(),
        ensures
            new_tree.wf(),
            new_tree@ == empty_forest(default_primary(), default_secondaries()).with_quads(
                self@.quads.difference(other@.quads),
            ),
    {
        Self { trees: self.trees.difference(&other.trees) }
    }

    /// Whether every quad of `other` is in this forest.
    pub fn contains(&self, other: &ForestOfIdentifierQuads) -> (all_there: bool)
        requires
            self.wf(),
            other.wf(),
        ensures
            all_there == other@.quads.subset_of(self@.quads),
    {
        self.trees.contains(&other.trees)
    }

    /// Whether every quad of a packed array is in this forest. The array
    /// has to hold full quads only.
    pub fn contains_slice(&self, other: &[u32]) -> (all_there: bool)
        requires
            self.wf(),
            other@.len() % 4 == 0,
        ensures
            all_there == packed_quads(other@).to_set().subset_of(self@.quads),
    {
        self.trees.contains_slice(other)
    }

    /// Whether the quads of the forest are the quads of a packed array,
    /// in whatever order the array holds them and however often it
    /// repeats one. Identifiers after the last full group of four are left
    /// out.
    pub fn equals_slice(&self, other: &[u32]) -> (same: bool)
        requires
            self.wf(),
        ensures
            same == (self@.quads == packed_quads(other@).to_set()),
    {
        self.trees.equals_slice(other)
    }

    /// Whether the two forests hold the same quads: as many, and every
    /// quad of `other` in this forest.
    pub fn has_same_elements(&self, other: &ForestOfIdentifierQuads) -> (same: bool)
        requires
            self.wf(),
            other.wf(),
        ensures
            same == (self@.quads.len() == other@.quads.len() && other@.quads.subset_of(
                self@.quads,
            )),
            same == (self@.quads == other@.quads),
    {
        self.trees.has_same_elements(&other.trees)
    }

    /// The number of quads that agree with the pattern. The tree that
    /// serves the pattern best is built now if it was not.
    pub fn match_count(
        &mut self,
        s: Option<u32>,
        p: Option<u32>,
        o: Option<u32>,
        g: Option<u32>,
    ) -> (n: usize)
        requires
            old(self).wf(),
        ensures
            final(self).wf(),
            final(self)@ == old(self)@.with_built(old(self)@.best((s, p, o, g), true)),
            n == matching(old(self)@.quads, (s, p, o, g)).len(),
    {
        let spog = [s, p, o, g];
        let mut scan = self.trees.search_all_matching_quads(spog, true);
        let ghost all = scan.remaining();
        let mut n: usize = 0;
        proof {
            old(self).trees.lemma_wf();
            all.unique_seq_to_set();
            vstd::set_lib::lemma_len_subset(
                matching(old(self)@.quads, (s, p, o, g)),
                old(self)@.quads,
            );
            old(self).trees.lemma_size_fits();
        }
        loop
            invariant
                scan.wf(),
                n + scan.remaining().len() == all.len(),
                all.len() <= usize::MAX,
            ensures
                scan.remaining().len() == 0,
            decreases scan.remaining().len(),
        {
            match scan.next() {
                None => {
                    break ;
                },
                Some(_) => {
                    n = n + 1;
                },
            }
        }
        n
    }

    /// Builds the tree that serves best the patterns that bind the
    /// positions given as `true`, if it is not built. Building it again
    /// changes nothing.
    pub fn ensure_has_index_for(&mut self, s: bool, p: bool, o: bool, g: bool)
        requires
            old(self).wf(),
        ensures
            final(self).wf(),
            final(self)@ == old(self)@.with_built(old(self)@.best(bound_pattern(s, p, o, g), true)),
    {
        let zero: Option<u32> = Some(0);
        let none: Option<u32> = None;
        let spog = [
            if s {
                zero
            } else {
                none
            },
            if p {
                zero
            } else {
                none
            },
            if o {
                zero
            } else {
                none
            },
            if g {
                zero
            } else {
                none
            },
        ];
        self.trees.ensure_has_index_for(&spog);
    }
}

} // verus!
