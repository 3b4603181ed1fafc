//! Component orders: the permutations of (subject, predicate, object, graph)
//! under which a quad is laid out as a key, and what a pattern means for a
//! key laid out that way.

use vstd::prelude::*;

verus! {

/// Four values of one kind, addressed by position 0 to 3. A quad in
/// (subject, predicate, object, graph) order, a key in the order of its index,
/// and a pattern of optional values all have this shape.
pub type Four<T> = (T, T, T, T);

/// A quad of identifiers in (subject, predicate, object, graph) order.
pub type Quad = Four<u32>;

/// A quad laid out in the order of one index.
pub type Key = Four<u32>;

/// A pattern: one optional identifier per position. `None` leaves the
/// position free.
pub type Pattern = Four<Option<u32>>;

/// The value at position `i` of `t`.
pub open spec fn pick<T>(t: Four<T>, i: int) -> T {
    if i == 0 {
        t.0
    } else if i == 1 {
        t.1
    } else if i == 2 {
        t.2
    } else {
        t.3
    }
}

/// The four elements of an array, as a tuple.
pub open spec fn tuple_of<T>(a: [T; 4]) -> Four<T> {
    (a[0], a[1], a[2], a[3])
}

/// Whether `t` agrees with `p` wherever `p` gives a value. Both are laid out
/// in the same order.
pub open spec fn agrees(t: Four<u32>, p: Pattern) -> bool {
    forall|i: int| 0 <= i < 4 ==> (#[trigger] pick(p, i)) is Some ==> pick(p, i) == Some(pick(t, i))
}

/// The role that a term plays in a quad.
#[derive(Clone, Copy, Debug, Eq, PartialEq, PartialOrd, Ord, Structural)]
pub enum TermRole {
    Subject,
    Predicate,
    Object,
    Graph,
}

impl TermRole {
    /// The position of this role in a quad: 0 for the subject up to 3 for the graph.
    pub open spec fn position(self) -> int {
        match self {
            TermRole::Subject => 0,
            TermRole::Predicate => 1,
            TermRole::Object => 2,
            TermRole::Graph => 3,
        }
    }

    /// The position of this role in a quad.
    pub fn index(self) -> (i: usize)
        ensures
            i == self.position(),
    {
        match self {
            TermRole::Subject => 0,
            TermRole::Predicate => 1,
            TermRole::Object => 2,
            TermRole::Graph => 3,
        }
    }
}

/// Four values in the order of some index, as they are stored in a tree.
#[derive(PartialEq, PartialOrd, Eq, Ord, Debug, Clone, Copy)]
pub struct Block<T> {
    pub data: [T; 4],
}

impl<T> Block<T> {
    /// The four values of the block.
    pub open spec fn tuple(self) -> Four<T> {
        tuple_of(self.data)
    }
}

impl<T> Block<T> where T: Clone {
    /// Creates a block with the given values.
    pub fn new(values: [T; 4]) -> (b: Block<T>)
        ensures
            b.data == values,
    {
        Block { data: values }
    }
}

impl Block<u32> {
    /// Whether every value that `filter_block` gives equals the value of
    /// this block in the same slot.
    pub fn match_option_block(&self, filter_block: &Block<Option<u32>>) -> (r: bool)
        ensures
            r == agrees(self.tuple(), filter_block.tuple()),
    {
        let mut i: usize = 0;
        while i < 4
            invariant
                0 <= i <= 4,
                forall|j: int|
                    0 <= j < i ==> (#[trigger] pick(filter_block.tuple(), j)) is Some ==> pick(
                        filter_block.tuple(),
                        j,
                    ) == Some(pick(self.tuple(), j)),
            decreases 4 - i,
        {
            if let Some(filter_data) = filter_block.data[i] {
                if self.data[i] != filter_data {
                    assert(pick(filter_block.tuple(), i as int) == Some(filter_data));
                    assert(pick(self.tuple(), i as int) == self.data[i as int]);
                    return false;
                }
            }
            assert(pick(filter_block.tuple(), i as int) == filter_block.data[i as int]);
            assert(pick(self.tuple(), i as int) == self.data[i as int]);
            i = i + 1;
        }
        true
    }

    /// The block as a key of a tree.
    pub fn to_key(&self) -> (k: Key)
        ensures
            k == self.tuple(),
    {
        (self.data[0], self.data[1], self.data[2], self.data[3])
    }

    /// The block that holds the values of a key of a tree.
    pub fn from_key(k: Key) -> (b: Block<u32>)
        ensures
            b.tuple() == k,
    {
        Block { data: [k.0, k.1, k.2, k.3] }
    }
}

/// Whether `roles` lists each of the four positions 0 to 3 exactly once.
pub open spec fn is_permutation(roles: Four<int>) -> bool {
    &&& 0 <= roles.0 < 4 && 0 <= roles.1 < 4 && 0 <= roles.2 < 4 && 0 <= roles.3 < 4
    &&& roles.0 != roles.1 && roles.0 != roles.2 && roles.0 != roles.3
    &&& roles.1 != roles.2 && roles.1 != roles.3
    &&& roles.2 != roles.3
}

/// The key slot that holds quad position `pos` under `roles`.
pub open spec fn slot_of(roles: Four<int>, pos: int) -> int {
    if roles.0 == pos {
        0
    } else if roles.1 == pos {
        1
    } else if roles.2 == pos {
        2
    } else {
        3
    }
}

/// A quad-order tuple laid out in key order: slot `i` holds the value of
/// quad position `roles[i]`.
pub open spec fn layout<T>(roles: Four<int>, q: Four<T>) -> Four<T> {
    (pick(q, roles.0), pick(q, roles.1), pick(q, roles.2), pick(q, roles.3))
}

/// A key-order tuple put back in quad order.
pub open spec fn unlayout<T>(roles: Four<int>, k: Four<T>) -> Four<T> {
    (
        pick(k, slot_of(roles, 0)),
        pick(k, slot_of(roles, 1)),
        pick(k, slot_of(roles, 2)),
        pick(k, slot_of(roles, 3)),
    )
}

/// The number of leading key slots whose quad position the pattern binds.
pub open spec fn prefix_score(roles: Four<int>, p: Pattern) -> int {
    if pick(p, roles.0) is None {
        0
    } else if pick(p, roles.1) is None {
        1
    } else if pick(p, roles.2) is None {
        2
    } else if pick(p, roles.3) is None {
        3
    } else {
        4
    }
}

/// The value of slot `i` in a bound of the range for `p`: the bound value
/// inside the pinned prefix, `free` after it.
pub open spec fn bound_slot(roles: Four<int>, p: Pattern, i: int, free: u32) -> u32 {
    if i < prefix_score(roles, p) {
        pick(p, pick(roles, i)).unwrap()
    } else {
        free
    }
}

/// The least key of the range that serves `p`.
pub open spec fn lower_bound(roles: Four<int>, p: Pattern) -> Key {
    (
        bound_slot(roles, p, 0, 0),
        bound_slot(roles, p, 1, 0),
        bound_slot(roles, p, 2, 0),
        bound_slot(roles, p, 3, 0),
    )
}

/// The greatest key of the range that serves `p`.
pub open spec fn upper_bound(roles: Four<int>, p: Pattern) -> Key {
    (
        bound_slot(roles, p, 0, u32::MAX),
        bound_slot(roles, p, 1, u32::MAX),
        bound_slot(roles, p, 2, u32::MAX),
        bound_slot(roles, p, 3, u32::MAX),
    )
}

/// Keys of one order compare slot by slot, the first slot that differs
/// deciding: `a` comes before `b`.
pub open spec fn key_lt(a: Key, b: Key) -> bool {
    a.0 < b.0 || (a.0 == b.0 && (a.1 < b.1 || (a.1 == b.1 && (a.2 < b.2 || (a.2 == b.2 && a.3
        < b.3)))))
}

/// `a` comes before `b` or is `b`.
pub open spec fn key_le(a: Key, b: Key) -> bool {
    a == b || key_lt(a, b)
}

/// Whether `k` lies in the range from `lo` to `hi`, both ends included.
pub open spec fn in_range(k: Key, lo: Key, hi: Key) -> bool {
    key_le(lo, k) && key_le(k, hi)
}

/// Laying out and putting back are inverse to each other.
pub proof fn lemma_layout_inverse<T>(roles: Four<int>, t: Four<T>)
    requires
        is_permutation(roles),
    ensures
        unlayout(roles, layout(roles, t)) == t,
        layout(roles, unlayout(roles, t)) == t,
        forall|i: int| 0 <= i < 4 ==> slot_of(roles, #[trigger] pick(roles, i)) == i,
        forall|p: int| 0 <= p < 4 ==> pick(roles, #[trigger] slot_of(roles, p)) == p,
{
}

/// A key agrees with a laid-out pattern exactly when its quad agrees with
/// the pattern.
pub proof fn lemma_agrees_layout(roles: Four<int>, k: Key, p: Pattern)
    requires
        is_permutation(roles),
    ensures
        agrees(k, layout(roles, p)) == agrees(unlayout(roles, k), p),
{
    let q = unlayout(roles, k);
    let f = layout(roles, p);
    lemma_layout_inverse(roles, k);
    if agrees(k, f) {
        assert forall|i: int| 0 <= i < 4 && (#[trigger] pick(p, i)) is Some implies pick(p, i)
            == Some(pick(q, i)) by {
            let s = slot_of(roles, i);
            assert(pick(f, s) == pick(p, i));
            assert(pick(q, i) == pick(k, s));
        }
    }
    if agrees(q, p) {
        assert forall|i: int| 0 <= i < 4 && (#[trigger] pick(f, i)) is Some implies pick(f, i)
            == Some(pick(k, i)) by {
            let r = pick(roles, i);
            assert(pick(f, i) == pick(p, r));
            assert(pick(q, r) == pick(k, i));
        }
    }
}

/// The range for a pattern is not empty as a range, and every key that
/// agrees with the laid-out pattern lies in it.
pub proof fn lemma_range_covers(roles: Four<int>, p: Pattern, k: Key)
    requires
        is_permutation(roles),
    ensures
        key_le(lower_bound(roles, p), upper_bound(roles, p)),
        agrees(k, layout(roles, p)) ==> in_range(k, lower_bound(roles, p), upper_bound(roles, p)),
{
    let f = layout(roles, p);
    if agrees(k, f) {
        assert(pick(f, 0) is Some ==> pick(f, 0) == Some(pick(k, 0)));
        assert(pick(f, 1) is Some ==> pick(f, 1) == Some(pick(k, 1)));
        assert(pick(f, 2) is Some ==> pick(f, 2) == Some(pick(k, 2)));
        assert(pick(f, 3) is Some ==> pick(f, 3) == Some(pick(k, 3)));
    }
}

/// The quad positions that an array of roles lists, slot by slot.
pub open spec fn positions(term_roles: [TermRole; 4]) -> Four<int> {
    (
        term_roles[0].position(),
        term_roles[1].position(),
        term_roles[2].position(),
        term_roles[3].position(),
    )
}

/// The pattern that an array of borrowed optional identifiers stands for.
pub open spec fn pattern_of_refs(request: [&Option<u32>; 4]) -> Pattern {
    (*request[0], *request[1], *request[2], *request[3])
}

/// A component order: the order in which an index lays out the four terms
/// of a quad, with the two tables that convert between a quad and its key.
#[derive(Clone, Copy)]
pub struct BlockOrder {
    term_roles: [TermRole; 4],
    to_block_index_to_destination: [usize; 4],
    to_indices_index_to_destination: [usize; 4],
}

impl BlockOrder {
    /// The quad position that each key slot holds.
    pub closed spec fn roles(&self) -> Four<int> {
        positions(self.term_roles)
    }

    /// The order lists every position once, and its two tables are the
    /// permutation and its inverse.
    pub closed spec fn wf(&self) -> bool {
        &&& is_permutation(self.roles())
        &&& forall|i: int|
            0 <= i < 4 ==> #[trigger] self.to_block_index_to_destination[i] == pick(
                self.roles(),
                i,
            )
        &&& forall|p: int|
            0 <= p < 4 ==> #[trigger] self.to_indices_index_to_destination[p] == slot_of(
                self.roles(),
                p,
            )
    }

    /// A well-formed order is a permutation of the four positions.
    pub proof fn lemma_wf_permutation(&self)
        requires
            self.wf(),
        ensures
            is_permutation(self.roles()),
    {
    }

    /// Builds the order that lays out a quad as `term_roles` lists its terms.
    pub fn new(term_roles: [TermRole; 4]) -> (order: BlockOrder)
        requires
            is_permutation(positions(term_roles)),
        ensures
            order.wf(),
            order.roles() == positions(term_roles),
    {
        let mut to_block_index_to_destination: [usize; 4] = [0; 4];
        let mut to_indices_index_to_destination: [usize; 4] = [0; 4];
        let ghost roles = positions(term_roles);
        let mut position: usize = 0;
        while position < 4
            invariant
                0 <= position <= 4,
                roles == positions(term_roles),
                is_permutation(roles),
                forall|i: int|
                    0 <= i < position ==> #[trigger] to_block_index_to_destination[i] == pick(
                        roles,
                        i,
                    ),
                forall|i: int|
                    0 <= i < position ==> to_indices_index_to_destination[#[trigger] pick(roles, i)]
                        == i,
            decreases 4 - position,
        {
            let role: usize = term_roles[position].index();
            assert(role == pick(roles, position as int));
            to_indices_index_to_destination[role] = position;
            to_block_index_to_destination[position] = role;
            position = position + 1;
        }
        proof {
            lemma_layout_inverse(roles, roles);
            assert forall|p: int| 0 <= p < 4 implies #[trigger] to_indices_index_to_destination[p]
                == slot_of(roles, p) by {
                assert(pick(roles, slot_of(roles, p)) == p);
            }
        }
        BlockOrder { term_roles, to_block_index_to_destination, to_indices_index_to_destination }
    }

    /// The roles of this order, slot by slot.
    pub fn term_roles(&self) -> (term_roles: [TermRole; 4])
        ensures
            positions(term_roles) == self.roles(),
    {
        self.term_roles
    }

    /// Lays out a quad as a block of this order.
    pub fn to_block<T>(&self, indices: &[T; 4]) -> (block: Block<T>) where T: Copy
        requires
            self.wf(),
        ensures
            block.tuple() == layout(self.roles(), tuple_of(*indices)),
    {
        Block {
            data: [
                indices[self.to_block_index_to_destination[0]],
                indices[self.to_block_index_to_destination[1]],
                indices[self.to_block_index_to_destination[2]],
                indices[self.to_block_index_to_destination[3]],
            ],
        }
    }

    /// Lays out a pattern as a block of this order.
    pub fn to_filter_block<T>(&self, indices: &[Option<T>; 4]) -> (block: Block<Option<T>>) where
        T: Copy + PartialEq,

        requires
            self.wf(),
        ensures
            block.tuple() == layout(self.roles(), tuple_of(*indices)),
    {
        Block {
            data: [
                indices[self.to_block_index_to_destination[0]],
                indices[self.to_block_index_to_destination[1]],
                indices[self.to_block_index_to_destination[2]],
                indices[self.to_block_index_to_destination[3]],
            ],
        }
    }

    /// Puts the values of a block of this order back in quad order.
    pub fn to_indices<T>(&self, block: &Block<T>) -> (indices: [T; 4]) where T: Copy
        requires
            self.wf(),
        ensures
            tuple_of(indices) == unlayout(self.roles(), block.tuple()),
    {
        [
            block.data[self.to_indices_index_to_destination[0]],
            block.data[self.to_indices_index_to_destination[1]],
            block.data[self.to_indices_index_to_destination[2]],
            block.data[self.to_indices_index_to_destination[3]],
        ]
    }

    /// The number of leading slots of this order that the request binds:
    /// the length of the key prefix that a scan for it can pin.
    pub fn index_conformance(&self, request: &[&Option<u32>; 4]) -> (score: usize)
        requires
            self.wf(),
        ensures
            score == prefix_score(self.roles(), pattern_of_refs(*request)),
    {
        let mut score: usize = 0;
        while score < 4
            invariant
                0 <= score <= 4,
                self.wf(),
                forall|i: int|
                    0 <= i < score ==> pick(
                        pattern_of_refs(*request),
                        #[trigger] pick(self.roles(), i),
                    ) is Some,
            decreases 4 - score,
        {
            let role: usize = self.term_roles[score].index();
            assert(role == pick(self.roles(), score as int));
            if request[role].is_none() {
                assert(pick(pattern_of_refs(*request), role as int) is None);
                assert(pick(self.roles(), 0) == self.roles().0);
                assert(pick(self.roles(), 1) == self.roles().1);
                assert(pick(self.roles(), 2) == self.roles().2);
                return score;
            }
            assert(pick(pattern_of_refs(*request), role as int) is Some);
            score = score + 1;
        }
        assert(pick(self.roles(), 0) == self.roles().0);
        assert(pick(self.roles(), 1) == self.roles().1);
        assert(pick(self.roles(), 2) == self.roles().2);
        assert(pick(self.roles(), 3) == self.roles().3);
        score
    }

    /// The inclusive range of keys that a scan for `spog` has to visit, as
    /// its least and its greatest key, and the pattern laid out in this
    /// order, against which each key of the range is still to be held.
    pub fn range(&self, spog: [Option<u32>; 4]) -> (bounds: (
        Block<u32>,
        Block<u32>,
        Block<Option<u32>>,
    ))
        requires
            self.wf(),
        ensures
            bounds.0.tuple() == lower_bound(self.roles(), tuple_of(spog)),
            bounds.1.tuple() == upper_bound(self.roles(), tuple_of(spog)),
            bounds.2.tuple() == layout(self.roles(), tuple_of(spog)),
            key_le(bounds.0.tuple(), bounds.1.tuple()),
    {
        let mut min: [u32; 4] = [u32::MIN; 4];
        let mut max: [u32; 4] = [u32::MAX; 4];
        let ghost roles = self.roles();
        let ghost p = tuple_of(spog);
        let mut i: usize = 0;
        while i < 4
            invariant
                0 <= i <= 4,
                self.wf(),
                roles == self.roles(),
                p == tuple_of(spog),
                i <= prefix_score(roles, p),
                forall|j: int|
                    0 <= j < 4 ==> #[trigger] min[j] == (if j < i {
                        bound_slot(roles, p, j, 0)
                    } else {
                        0
                    }),
                forall|j: int|
                    0 <= j < 4 ==> #[trigger] max[j] == (if j < i {
                        bound_slot(roles, p, j, u32::MAX)
                    } else {
                        u32::MAX
                    }),
            ensures
                i == prefix_score(roles, p),
            decreases 4 - i,
        {
            let role: usize = self.term_roles[i].index();
            assert(role == pick(roles, i as int));
            assert(spog[role as int] == pick(p, role as int));
            match spog[role] {
                None => {
                    assert(prefix_score(roles, p) == i);
                    break ;
                },
                Some(set_value) => {
                    assert(prefix_score(roles, p) > i);
                    min[i] = set_value;
                    max[i] = set_value;
                },
            }
            i = i + 1;
        }
        assert(i == prefix_score(roles, p));
        proof {
            lemma_range_covers(roles, p, (0, 0, 0, 0));
        }
        (Block::new(min), Block::new(max), self.to_filter_block(&spog))
    }
}

} // verus!
