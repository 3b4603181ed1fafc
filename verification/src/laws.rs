//! What holds of every forest, whatever was done to it.

use vstd::prelude::*;
use crate::dataset::{
    anti_candidates,
    default_primary,
    default_secondaries,
    empty_forest,
    flatten,
    packed_quads,
    ForestView,
};
use crate::index::matching;
use crate::order::{agrees, pick, prefix_score, Pattern, Quad};

verus! {

/// Among the first `n` secondary indexes and the primary one there is an
/// index that is preferred to every other candidate among them.
proof fn lemma_best_among(v: ForestView, p: Pattern, can_build: bool, n: int) -> (c: int)
    requires
        v.built.len() == v.secondaries.len(),
        0 <= n <= v.secondaries.len(),
    ensures
        v.is_candidate(c, can_build),
        c < n,
        forall|d: int| #[trigger]
            v.is_candidate(d, can_build) && d < n && d != c ==> v.outranks(p, c, d),
    decreases n,
{
    if n == 0 {
        -1
    } else {
        let c = lemma_best_among(v, p, can_build, n - 1);
        let last = n - 1;
        if v.is_candidate(last, can_build) && v.outranks(p, last, c) {
            last
        } else {
            c
        }
    }
}

/// Every query is served by exactly one index: the candidate that is
/// preferred to all others.
pub proof fn lemma_best_exists(v: ForestView, p: Pattern, can_build: bool)
    requires
        v.built.len() == v.secondaries.len(),
    ensures
        v.is_best(p, can_build, v.best(p, can_build)),
        -1 <= v.best(p, can_build) < v.secondaries.len(),
{
    let c = lemma_best_among(v, p, can_build, v.secondaries.len() as int);
    assert(v.is_best(p, can_build, c));
}

/// After a quad is added the forest holds it, and holds one quad more if
/// the quad was new and as many as before if it was not.
pub proof fn lemma_add(v: ForestView, q: Quad)
    requires
        v.wf(),
    ensures
        v.with_quads(v.quads.insert(q)).wf(),
        v.with_quads(v.quads.insert(q)).quads.contains(q),
        v.with_quads(v.quads.insert(q)).quads.len() >= v.quads.len(),
        v.with_quads(v.quads.insert(q)).quads.len() == v.quads.len() + if v.quads.contains(q) {
            0int
        } else {
            1int
        },
{
    broadcast use vstd::set::group_set_axioms;

}

/// Removing a quad that was just added as new gives the forest back as it
/// was, and so does adding a quad again that was just removed. Removing a
/// quad twice is removing it once.
pub proof fn lemma_add_remove(v: ForestView, q: Quad)
    requires
        v.wf(),
    ensures
        !v.quads.contains(q) ==> v.with_quads(v.quads.insert(q)).with_quads(
            v.quads.insert(q).remove(q),
        ) == v,
        v.quads.contains(q) ==> v.with_quads(v.quads.remove(q)).with_quads(
            v.quads.remove(q).insert(q),
        ) == v,
        v.with_quads(v.quads.remove(q)).with_quads(v.quads.remove(q).remove(q)) == v.with_quads(
            v.quads.remove(q),
        ),
        v.with_quads(v.quads.remove(q)).wf(),
        !v.with_quads(v.quads.remove(q)).quads.contains(q),
{
    broadcast use vstd::set::group_set_axioms;

    if !v.quads.contains(q) {
        assert(v.quads.insert(q).remove(q) =~= v.quads);
    }
    if v.quads.contains(q) {
        assert(v.quads.remove(q).insert(q) =~= v.quads);
    }
    assert(v.quads.remove(q).remove(q) =~= v.quads.remove(q));
}

/// A query yields every quad of the forest that agrees with the pattern,
/// each once, and no other quad. A pattern that binds nothing yields every
/// quad, and one that binds all four positions yields that quad or nothing.
pub proof fn lemma_query(v: ForestView, p: Pattern, can_build: bool)
    requires
        v.wf(),
    ensures
        v.scan(p, can_build).no_duplicates(),
        v.scan(p, can_build).to_set() == matching(v.quads, p),
        forall|q: Quad| #[trigger]
            v.scan(p, can_build).contains(q) <==> v.quads.contains(q) && agrees(q, p),
        v.scan(p, can_build).len() == matching(v.quads, p).len(),
        p == (None::<u32>, None::<u32>, None::<u32>, None::<u32>) ==> v.scan(
            p,
            can_build,
        ).to_set() == v.quads,
        p.0 is Some && p.1 is Some && p.2 is Some && p.3 is Some ==> v.scan(p, can_build).len()
            <= 1,
{
    lemma_best_exists(v, p, can_build);
    v.lemma_scan(p, can_build, v.best(p, can_build));
    let found = v.scan(p, can_build);
    assert forall|q: Quad| #[trigger] found.contains(q) <==> v.quads.contains(q) && agrees(
        q,
        p,
    ) by {
        assert(found.contains(q) <==> found.to_set().contains(q));
    }
    if p == (None::<u32>, None::<u32>, None::<u32>, None::<u32>) {
        assert(matching(v.quads, p) =~= v.quads) by {
            assert forall|q: Quad| agrees(q, p) by {}
        }
    }
    if p.0 is Some && p.1 is Some && p.2 is Some && p.3 is Some {
        let only: Quad = (p.0.unwrap(), p.1.unwrap(), p.2.unwrap(), p.3.unwrap());
        assert forall|q: Quad| agrees(q, p) implies q == only by {
            assert(pick(p, 0) == Some(pick(q, 0)));
            assert(pick(p, 1) == Some(pick(q, 1)));
            assert(pick(p, 2) == Some(pick(q, 2)));
            assert(pick(p, 3) == Some(pick(q, 3)));
        }
        if found.len() > 1 {
            assert(found.contains(found[0]));
            assert(found.contains(found[1]));
            assert(found[0] == found[1]);
        }
    }
}

/// Building the index that serves a pattern leaves the quads as they are
/// and does not change which index serves the pattern, so that building it
/// a second time changes nothing. This holds of every forest, one that a
/// deletion has just compacted included.
pub proof fn lemma_build_once(v: ForestView, p: Pattern, emptied: Pattern)
    requires
        v.wf(),
    ensures
        v.with_built(v.best(p, true)).quads == v.quads,
        v.with_built(v.best(p, true)).best(p, true) == v.best(p, true),
        v.with_built(v.best(p, true)).with_built(v.with_built(v.best(p, true)).best(p, true))
            == v.with_built(v.best(p, true)),
        v.without_matches(emptied).wf(),
        v.without_matches(emptied).with_built(v.without_matches(emptied).best(p, true)).with_built(
            v.without_matches(emptied).with_built(v.without_matches(emptied).best(p, true)).best(
                p,
                true,
            ),
        ) == v.without_matches(emptied).with_built(v.without_matches(emptied).best(p, true)),
{
    broadcast use vstd::set::group_set_axioms;

    lemma_built_best(v, p);
    let u = v.without_matches(emptied);
    assert(u.wf());
    lemma_built_best(u, p);
}

/// Building the index that serves a pattern does not change which index
/// serves it, and building it again changes nothing.
proof fn lemma_built_best(v: ForestView, p: Pattern)
    requires
        v.built.len() == v.secondaries.len(),
    ensures
        v.with_built(v.best(p, true)).best(p, true) == v.best(p, true),
        v.with_built(v.best(p, true)).with_built(v.best(p, true)) == v.with_built(
            v.best(p, true),
        ),
{
    lemma_best_exists(v, p, true);
    let c = v.best(p, true);
    let w = v.with_built(c);
    assert forall|d: int| #[trigger] w.is_candidate(d, true) && d != c implies w.outranks(
        p,
        c,
        d,
    ) by {
        assert(v.is_candidate(d, true));
        assert(v.outranks(p, c, d));
    }
    assert(w.is_best(p, true, c));
    w.lemma_best_unique(p, true, c);
    if 0 <= c < v.built.len() {
        assert(w.built.update(c, true) =~= w.built);
    }
}

/// Two finite sets of quads are the same set exactly when they have as
/// many quads and the one holds every quad of the other.
pub proof fn lemma_same_elements(a: Set<Quad>, b: Set<Quad>)
    requires
        a.finite(),
        b.finite(),
    ensures
        (a == b) <==> (a.len() == b.len() && b.subset_of(a)),
{
    if a.len() == b.len() && b.subset_of(a) {
        vstd::set_lib::lemma_subset_equality(b, a);
    }
}

/// Unpacking a packed sequence of quads gives the sequence back.
pub proof fn lemma_unpack(quads: Seq<Quad>)
    ensures
        packed_quads(flatten(quads)) == quads,
{
    assert(packed_quads(flatten(quads)) =~= quads);
}

/// The quads that a query for everything yields, packed and unpacked
/// again, are the quads of the forest.
pub proof fn lemma_round_trip(v: ForestView)
    requires
        v.wf(),
    ensures
        packed_quads(
            flatten(v.scan((None::<u32>, None::<u32>, None::<u32>, None::<u32>), true)),
        ).to_set() == v.quads,
{
    let none: Pattern = (None, None, None, None);
    lemma_query(v, none, true);
    lemma_unpack(v.scan(none, true));
}

/// The number of positions that a pattern binds.
pub open spec fn bound_count(p: Pattern) -> int {
    (if p.0 is Some {
        1int
    } else {
        0int
    }) + (if p.1 is Some {
        1int
    } else {
        0int
    }) + (if p.2 is Some {
        1int
    } else {
        0int
    }) + (if p.3 is Some {
        1int
    } else {
        0int
    })
}

/// In a forest with the default orders, whatever positions a pattern
/// binds, the index that serves it when building is allowed starts with
/// exactly those positions: its scan visits no key that disagrees with the
/// pattern on a bound position.
pub proof fn lemma_default_orders_cover(v: ForestView, p: Pattern)
    requires
        v.primary == default_primary(),
        v.secondaries == default_secondaries(),
        v.built.len() == v.secondaries.len(),
    ensures
        prefix_score(v.roles_at(v.best(p, true)), p) == bound_count(p),
{
    lemma_best_exists(v, p, true);
    let c = v.best(p, true);
    let s = v.secondaries;
    assert(s[0] == (0int, 1int, 2int, 3int));
    assert(s[1] == (3int, 1int, 0int, 2int));
    assert(s[2] == (1int, 2int, 3int, 0int));
    assert(s[3] == (3int, 0int, 1int, 2int));
    assert(s[4] == (2int, 0int, 3int, 1int));
    assert(v.is_candidate(-1, true));
    assert(v.is_candidate(0, true));
    assert(v.is_candidate(1, true));
    assert(v.is_candidate(2, true));
    assert(v.is_candidate(3, true));
    assert(v.is_candidate(4, true));
    assert(c != -1 ==> v.outranks(p, c, -1));
    assert(c != 0 ==> v.outranks(p, c, 0));
    assert(c != 1 ==> v.outranks(p, c, 1));
    assert(c != 2 ==> v.outranks(p, c, 2));
    assert(c != 3 ==> v.outranks(p, c, 3));
    assert(c != 4 ==> v.outranks(p, c, 4));
}

/// The orders of a default forest, and those of a forest that `new_anti`
/// makes, are six different permutations.
pub proof fn lemma_default_orders_distinct(choice: int)
    requires
        0 <= choice < 6,
    ensures
        empty_forest(default_primary(), default_secondaries()).has_distinct_orders(),
        empty_forest(default_primary(), default_secondaries()).wf(),
        empty_forest(
            anti_candidates()[choice],
            anti_candidates().remove(choice),
        ).has_distinct_orders(),
        empty_forest(anti_candidates()[choice], anti_candidates().remove(choice)).wf(),
{
    broadcast use vstd::set::group_set_axioms;

    let d = default_secondaries();
    assert(d[0] == (0int, 1int, 2int, 3int));
    assert(d[1] == (3int, 1int, 0int, 2int));
    assert(d[2] == (1int, 2int, 3int, 0int));
    assert(d[3] == (3int, 0int, 1int, 2int));
    assert(d[4] == (2int, 0int, 3int, 1int));
    let a = anti_candidates();
    assert(a[0] == (2int, 3int, 1int, 0int));
    assert(a[1] == (3int, 1int, 0int, 2int));
    assert(a[2] == (1int, 2int, 3int, 0int));
    assert(a[3] == (0int, 1int, 2int, 3int));
    assert(a[4] == (3int, 0int, 1int, 2int));
    assert(a[5] == (2int, 0int, 3int, 1int));
    let r = a.remove(choice);
    assert forall|i: int| 0 <= i < r.len() implies #[trigger] r[i] == a[if i < choice {
        i
    } else {
        i + 1
    }] by {}
}

} // verus!
