use quad_forest::dataset::TreedDataset;
use quad_forest::order::{BlockOrder, TermRole};

const S: TermRole = TermRole::Subject;
const P: TermRole = TermRole::Predicate;
const O: TermRole = TermRole::Object;
const G: TermRole = TermRole::Graph;

fn unpack(packed: &[u32]) -> Vec<[u32; 4]> {
    assert_eq!(packed.len() % 4, 0);
    packed.chunks(4).map(|c| [c[0], c[1], c[2], c[3]]).collect()
}

fn everything(forest: &mut TreedDataset) -> Vec<[u32; 4]> {
    unpack(&forest.get_all(None, None, None, None))
}

fn collect(mut scan: quad_forest::FilteredIndexQuads) -> Vec<[u32; 4]> {
    let mut found = Vec::new();
    while let Some(quad) = scan.next() {
        found.push(quad);
    }
    found
}

#[test]
fn new_forest_is_empty() {
    let mut forest = TreedDataset::new();
    assert_eq!(forest.size(), 0);
    assert_eq!(forest.number_of_optional_built_trees(), 0);
    assert!(!forest.has(0, 0, 0, 0));
    assert!(forest.get_all(None, None, None, None).is_empty());
    assert!(forest.get_all(Some(1), Some(2), Some(3), Some(4)).is_empty());
}

#[test]
fn default_forest_is_like_new() {
    let mut forest = TreedDataset::default();
    assert_eq!(forest.size(), 0);
    assert_eq!(forest.number_of_optional_built_trees(), 0);
    forest.add(1, 2, 3, 4);
    forest.add(2, 1, 1, 1);
    assert_eq!(everything(&mut forest), vec![[2, 1, 1, 1], [1, 2, 3, 4]]);
    forest.get_all(Some(1), None, None, None);
    forest.get_all(None, Some(1), None, None);
    forest.get_all(None, None, None, Some(1));
    assert_eq!(forest.number_of_optional_built_trees(), 3);
}

#[test]
fn add_makes_has_true_and_size_grow() {
    let mut forest = TreedDataset::new();
    assert!(!forest.has(1, 2, 3, 4));
    let before = forest.size();
    assert!(forest.add(1, 2, 3, 4));
    assert!(forest.has(1, 2, 3, 4));
    assert_eq!(forest.size(), before + 1);
    assert!(!forest.add(1, 2, 3, 4));
    assert!(forest.has(1, 2, 3, 4));
    assert_eq!(forest.size(), before + 1);
}

#[test]
fn insert_by_index_reports_new_quads() {
    let mut forest = TreedDataset::new();
    assert!(forest.insert_by_index([4, 3, 2, 1]));
    assert!(!forest.insert_by_index([4, 3, 2, 1]));
    assert!(forest.has(4, 3, 2, 1));
    assert!(!forest.has(1, 2, 3, 4));
}

#[test]
fn remove_undoes_add_and_is_idempotent() {
    let mut forest = TreedDataset::new();
    forest.add(5, 5, 5, 5);
    let before = everything(&mut forest);
    assert!(forest.add(1, 2, 3, 4));
    assert!(forest.remove(1, 2, 3, 4));
    assert_eq!(everything(&mut forest), before);
    assert_eq!(forest.size(), 1);
    assert!(!forest.remove(1, 2, 3, 4));
    assert_eq!(everything(&mut forest), before);
    assert!(!forest.delete_by_index([1, 2, 3, 4]));
    assert!(forest.delete_by_index([5, 5, 5, 5]));
    assert_eq!(forest.size(), 0);
}

#[test]
fn get_all_yields_each_match_once() {
    let mut forest = TreedDataset::new();
    for quad in [[1, 2, 3, 4], [1, 2, 3, 5], [1, 9, 3, 4], [2, 2, 3, 4], [1, 2, 8, 4]] {
        forest.add(quad[0], quad[1], quad[2], quad[3]);
    }
    let mut found = unpack(&forest.get_all(None, Some(2), None, Some(4)));
    found.sort();
    assert_eq!(found, vec![[1, 2, 3, 4], [1, 2, 8, 4], [2, 2, 3, 4]]);
    assert_eq!(unpack(&forest.get_all(Some(1), Some(2), Some(3), Some(5))), vec![[1, 2, 3, 5]]);
    assert!(forest.get_all(Some(1), Some(2), Some(3), Some(6)).is_empty());
    assert_eq!(everything(&mut forest).len(), 5);
}

#[test]
fn primary_order_is_object_graph_predicate_subject() {
    let mut forest = TreedDataset::new();
    forest.add(1, 2, 3, 4);
    forest.add(2, 1, 1, 1);
    forest.add(0, 0, 3, 2);
    assert_eq!(everything(&mut forest), vec![[2, 1, 1, 1], [0, 0, 3, 2], [1, 2, 3, 4]]);
    assert_eq!(forest.number_of_optional_built_trees(), 0);
}

#[test]
fn query_builds_the_best_secondary_tree_once() {
    let mut forest = TreedDataset::new();
    forest.add(1, 5, 0, 0);
    forest.add(1, 2, 9, 9);
    forest.add(3, 1, 1, 1);
    assert_eq!(
        unpack(&forest.get_all(Some(1), None, None, None)),
        vec![[1, 2, 9, 9], [1, 5, 0, 0]]
    );
    assert_eq!(forest.number_of_optional_built_trees(), 1);
    forest.get_all(Some(1), None, None, None);
    forest.get_all(Some(3), None, None, None);
    forest.get_all(Some(3), Some(1), None, None);
    assert_eq!(forest.number_of_optional_built_trees(), 1);
}

#[test]
fn query_served_by_the_primary_builds_nothing() {
    let mut forest = TreedDataset::new();
    forest.add(1, 2, 3, 4);
    forest.get_all(None, None, Some(3), None);
    forest.get_all(None, None, Some(3), Some(4));
    forest.get_all(None, Some(2), Some(3), Some(4));
    forest.get_all(Some(1), Some(2), Some(3), Some(4));
    forest.get_all(None, None, None, None);
    assert_eq!(forest.number_of_optional_built_trees(), 0);
}

#[test]
fn equal_scores_prefer_the_tree_declared_first() {
    let mut forest = TreedDataset::new();
    forest.add(2, 1, 0, 5);
    forest.add(1, 2, 0, 5);
    assert_eq!(
        unpack(&forest.get_all(None, None, None, Some(5))),
        vec![[2, 1, 0, 5], [1, 2, 0, 5]]
    );
    assert_eq!(forest.number_of_optional_built_trees(), 1);
}

#[test]
fn equal_scores_prefer_a_built_tree() {
    let mut forest = TreedDataset::new();
    forest.add(2, 1, 0, 5);
    forest.add(1, 2, 0, 5);
    forest.get_all(Some(1), None, None, Some(5));
    assert_eq!(forest.number_of_optional_built_trees(), 1);
    assert_eq!(
        unpack(&forest.get_all(None, None, None, Some(5))),
        vec![[1, 2, 0, 5], [2, 1, 0, 5]]
    );
    assert_eq!(forest.number_of_optional_built_trees(), 1);
}

#[test]
fn search_without_building_uses_built_trees_only() {
    let mut forest = TreedDataset::new();
    forest.add(1, 5, 0, 0);
    forest.add(1, 2, 9, 9);
    forest.add(3, 1, 1, 1);
    let found = collect(forest.search_all_matching_quads([Some(1), None, None, None], false));
    assert_eq!(found, vec![[1, 5, 0, 0], [1, 2, 9, 9]]);
    assert_eq!(forest.number_of_optional_built_trees(), 0);
    let found = collect(forest.search_all_matching_quads([Some(1), None, None, None], true));
    assert_eq!(found, vec![[1, 2, 9, 9], [1, 5, 0, 0]]);
    assert_eq!(forest.number_of_optional_built_trees(), 1);
    let found = collect(forest.search_all_matching_quads([Some(1), None, None, None], false));
    assert_eq!(found, vec![[1, 2, 9, 9], [1, 5, 0, 0]]);
}

#[test]
fn filter_builds_like_a_search_that_may_build() {
    let mut forest = TreedDataset::new();
    forest.add(1, 5, 0, 0);
    forest.add(1, 2, 9, 9);
    assert_eq!(collect(forest.filter([Some(1), None, None, None])), vec![[1, 2, 9, 9], [1, 5, 0, 0]]);
    assert_eq!(forest.number_of_optional_built_trees(), 1);
}

#[test]
fn ensure_has_index_for_builds_once() {
    let mut forest = TreedDataset::new();
    forest.add(1, 2, 3, 4);
    forest.ensure_has_index_for(&[None, Some(0), None, None]);
    assert_eq!(forest.number_of_optional_built_trees(), 1);
    forest.ensure_has_index_for(&[None, Some(0), None, None]);
    assert_eq!(forest.number_of_optional_built_trees(), 1);
    forest.ensure_has_index_for(&[None, None, Some(0), None]);
    assert_eq!(forest.number_of_optional_built_trees(), 1);
    forest.ensure_has_index_for(&[Some(7), None, None, None]);
    assert_eq!(forest.number_of_optional_built_trees(), 2);
    assert_eq!(everything(&mut forest), vec![[1, 2, 3, 4]]);
}

#[test]
fn built_trees_follow_additions_and_removals() {
    let mut forest = TreedDataset::new();
    forest.add(1, 2, 3, 4);
    forest.get_all(Some(1), None, None, None);
    forest.get_all(None, Some(2), None, None);
    assert_eq!(forest.number_of_optional_built_trees(), 2);
    forest.add(1, 0, 0, 0);
    forest.add(9, 2, 0, 0);
    forest.remove(1, 2, 3, 4);
    assert_eq!(unpack(&forest.get_all(Some(1), None, None, None)), vec![[1, 0, 0, 0]]);
    assert_eq!(unpack(&forest.get_all(None, Some(2), None, None)), vec![[9, 2, 0, 0]]);
    assert_eq!(forest.number_of_optional_built_trees(), 2);
    assert_eq!(forest.size(), 2);
}

#[test]
fn new_from_copies_the_matches() {
    let mut forest = TreedDataset::new();
    for quad in [[1, 2, 3, 4], [1, 2, 3, 5], [1, 9, 3, 4]] {
        forest.add(quad[0], quad[1], quad[2], quad[3]);
    }
    let mut part = forest.new_from(None, Some(2), None, None);
    assert_eq!(part.size(), 2);
    assert!(part.has(1, 2, 3, 4));
    assert!(part.has(1, 2, 3, 5));
    assert_eq!(part.number_of_optional_built_trees(), 0);
    assert_eq!(everything(&mut part), vec![[1, 2, 3, 4], [1, 2, 3, 5]]);
    assert_eq!(forest.size(), 3);
    assert_eq!(forest.number_of_optional_built_trees(), 1);
}

#[test]
fn packed_import_leaves_out_a_trailing_partial_quad() {
    let mut forest = TreedDataset::new();
    forest.insert_all_from_slice(&[1, 2, 3, 4, 5, 6, 7]);
    assert_eq!(forest.size(), 1);
    assert!(forest.has(1, 2, 3, 4));
    forest.insert_all_from_slice(&[1, 2, 3]);
    forest.insert_all_from_slice(&[]);
    assert_eq!(forest.size(), 1);
    forest.insert_all_from_slice(&[1, 2, 3, 4, 4, 3, 2, 1, 4, 3, 2, 1]);
    assert_eq!(forest.size(), 2);
    let other = TreedDataset::new_from_slice(&[9, 9, 9, 9, 0]);
    assert_eq!(other.size(), 1);
    assert!(other.has(9, 9, 9, 9));
}

#[test]
fn round_trip_through_a_packed_array() {
    let mut forest = TreedDataset::new();
    for quad in [[1, 2, 3, 4], [0, 0, 0, 0], [u32::MAX, 1, u32::MAX, 0], [7, 7, 7, 7]] {
        forest.add(quad[0], quad[1], quad[2], quad[3]);
    }
    let packed = forest.get_all(None, None, None, None);
    let copy = TreedDataset::new_from_slice(&packed);
    assert!(copy.has_same_elements(&forest));
    assert!(forest.has_same_elements(&copy));
    assert!(forest.equals_slice(&packed));
}

#[test]
fn delete_matches_of_few_quads_keeps_the_built_trees() {
    let mut forest = TreedDataset::new();
    for i in 0..10u32 {
        forest.add(i, 1, 2, 3);
    }
    forest.get_all(Some(4), None, None, None);
    assert_eq!(forest.number_of_optional_built_trees(), 1);
    forest.delete_matches(Some(4), None, None, None);
    assert_eq!(forest.size(), 9);
    assert!(!forest.has(4, 1, 2, 3));
    assert_eq!(forest.number_of_optional_built_trees(), 1);
    forest.delete_matches(Some(5), None, None, None);
    forest.delete_matches(Some(6), None, None, None);
    assert_eq!(forest.size(), 7);
    assert_eq!(forest.number_of_optional_built_trees(), 1);
    assert!(forest.get_all(Some(5), None, None, None).is_empty());
    assert_eq!(unpack(&forest.get_all(Some(7), None, None, None)), vec![[7, 1, 2, 3]]);
}

#[test]
fn delete_matches_of_many_quads_drops_the_built_trees() {
    let mut forest = TreedDataset::new();
    for i in 0..10u32 {
        forest.add(i % 2, i, 2, 3);
    }
    forest.get_all(Some(0), None, None, None);
    forest.get_all(None, Some(3), None, None);
    assert_eq!(forest.number_of_optional_built_trees(), 2);
    forest.delete_matches(Some(1), None, None, None);
    assert_eq!(forest.size(), 5);
    assert_eq!(forest.number_of_optional_built_trees(), 0);
    assert_eq!(
        unpack(&forest.get_all(Some(0), None, None, None)),
        vec![[0, 0, 2, 3], [0, 2, 2, 3], [0, 4, 2, 3], [0, 6, 2, 3], [0, 8, 2, 3]]
    );
    assert_eq!(forest.number_of_optional_built_trees(), 1);
}

#[test]
fn delete_matches_threshold_is_exact() {
    let mut forest = TreedDataset::new();
    for i in 0..9u32 {
        forest.add(if i < 2 { 1 } else { 0 }, i, 0, 0);
    }
    forest.ensure_has_index_for(&[Some(0), None, None, None]);
    assert_eq!(forest.number_of_optional_built_trees(), 1);
    forest.delete_matches(Some(1), None, None, None);
    assert_eq!(forest.size(), 7);
    assert_eq!(forest.number_of_optional_built_trees(), 1);
    forest.add(1, 0, 0, 0);
    forest.add(1, 1, 0, 0);
    forest.add(1, 2, 0, 0);
    assert_eq!(forest.size(), 10);
    forest.delete_matches(Some(1), None, None, None);
    assert_eq!(forest.size(), 7);
    assert_eq!(forest.number_of_optional_built_trees(), 0);
}

#[test]
fn delete_matches_without_match_on_empty_forest() {
    let mut forest = TreedDataset::new();
    forest.delete_matches(Some(1), None, None, None);
    assert_eq!(forest.size(), 0);
    forest.add(1, 2, 3, 4);
    forest.delete_matches(None, None, None, None);
    assert_eq!(forest.size(), 0);
    assert!(everything(&mut forest).is_empty());
}

#[test]
fn new_with_blocks_builds_the_default_initialized_trees() {
    let mut forest = TreedDataset::new_with_blocks(
        vec![BlockOrder::new([S, P, O, G]), BlockOrder::new([G, S, P, O])],
        vec![BlockOrder::new([P, O, G, S])],
    );
    assert_eq!(forest.number_of_optional_built_trees(), 1);
    forest.add(2, 1, 1, 1);
    forest.add(1, 2, 3, 4);
    forest.add(1, 1, 1, 4);
    assert_eq!(everything(&mut forest), vec![[1, 1, 1, 4], [1, 2, 3, 4], [2, 1, 1, 1]]);
    let found = collect(forest.search_all_matching_quads([None, None, None, Some(4)], false));
    assert_eq!(found, vec![[1, 1, 1, 4], [1, 2, 3, 4]]);
    let found = collect(forest.search_all_matching_quads([None, Some(1), None, None], false));
    assert_eq!(found, vec![[1, 1, 1, 4], [2, 1, 1, 1]]);
    assert_eq!(forest.number_of_optional_built_trees(), 1);
    assert_eq!(
        unpack(&forest.get_all(None, Some(1), None, None)),
        vec![[2, 1, 1, 1], [1, 1, 1, 4]]
    );
    assert_eq!(forest.number_of_optional_built_trees(), 2);
}

#[test]
fn new_with_indexes_takes_roles() {
    let mut forest = TreedDataset::new_with_indexes(&vec![[G, P, S, O]], None);
    forest.add(1, 2, 3, 4);
    forest.add(9, 9, 9, 0);
    forest.add(0, 1, 0, 4);
    assert_eq!(everything(&mut forest), vec![[9, 9, 9, 0], [0, 1, 0, 4], [1, 2, 3, 4]]);
    forest.get_all(Some(1), None, None, None);
    assert_eq!(forest.number_of_optional_built_trees(), 0);
    let mut forest = TreedDataset::new_with_indexes(&vec![[G, P, S, O]], Some(&vec![[S, P, O, G]]));
    forest.add(1, 2, 3, 4);
    forest.get_all(Some(1), None, None, None);
    assert_eq!(forest.number_of_optional_built_trees(), 1);
}

#[test]
fn new_anti_picks_the_first_best_primary_order() {
    let quads = [[1, 2, 3, 4], [2, 1, 1, 1], [0, 3, 2, 0]];
    let fill = |forest: &mut TreedDataset| {
        for q in quads {
            forest.add(q[0], q[1], q[2], q[3]);
        }
    };
    let mut ogps = TreedDataset::new_anti(true, true, true, true);
    fill(&mut ogps);
    assert_eq!(everything(&mut ogps), vec![[2, 1, 1, 1], [0, 3, 2, 0], [1, 2, 3, 4]]);
    let mut spog = TreedDataset::new_anti(false, true, true, true);
    fill(&mut spog);
    assert_eq!(everything(&mut spog), vec![[0, 3, 2, 0], [1, 2, 3, 4], [2, 1, 1, 1]]);
    spog.get_all(Some(1), None, None, None);
    assert_eq!(spog.number_of_optional_built_trees(), 0);
    let mut gpso = TreedDataset::new_anti(true, true, true, false);
    fill(&mut gpso);
    assert_eq!(everything(&mut gpso), vec![[0, 3, 2, 0], [2, 1, 1, 1], [1, 2, 3, 4]]);
    let mut gspo = TreedDataset::new_anti(false, true, true, false);
    fill(&mut gspo);
    gspo.add(5, 0, 0, 1);
    assert_eq!(everything(&mut gspo), vec![[0, 3, 2, 0], [2, 1, 1, 1], [5, 0, 0, 1], [1, 2, 3, 4]]);
    gspo.get_all(Some(1), None, None, Some(4));
    assert_eq!(gspo.number_of_optional_built_trees(), 0);
    gspo.get_all(None, None, Some(1), None);
    assert_eq!(gspo.number_of_optional_built_trees(), 1);
    let mut pogs = TreedDataset::new_anti(true, false, true, true);
    fill(&mut pogs);
    assert_eq!(everything(&mut pogs), vec![[2, 1, 1, 1], [1, 2, 3, 4], [0, 3, 2, 0]]);
    let mut all_bound = TreedDataset::new_anti(false, false, false, false);
    fill(&mut all_bound);
    assert_eq!(everything(&mut all_bound), vec![[2, 1, 1, 1], [0, 3, 2, 0], [1, 2, 3, 4]]);
}

#[test]
fn forests_with_the_same_primary_order_are_mergeable() {
    let default = TreedDataset::new();
    let other = TreedDataset::new_from_slice(&[1, 2, 3, 4]);
    let spog = TreedDataset::new_anti(false, true, true, true);
    let spog_too = TreedDataset::new_with_indexes(&vec![[S, P, O, G]], None);
    assert!(TreedDataset::are_trivially_mergeable_trees(&default, &other));
    assert!(TreedDataset::are_trivially_mergeable_trees(&spog, &spog_too));
    assert!(!TreedDataset::are_trivially_mergeable_trees(&default, &spog));
    assert!(!TreedDataset::are_trivially_mergeable_trees(&spog, &default));
}

fn filled(mut forest: TreedDataset, quads: &[[u32; 4]]) -> TreedDataset {
    for q in quads {
        forest.add(q[0], q[1], q[2], q[3]);
    }
    forest
}

#[test]
fn merge_and_quad_by_quad_algebra_agree() {
    let left = [[1, 1, 1, 1], [2, 2, 2, 2], [5, 0, 9, 3], [0, 0, 0, 1]];
    let right = [[2, 2, 2, 2], [3, 3, 3, 3], [0, 0, 0, 1]];
    let makers: [fn() -> TreedDataset; 3] = [
        || TreedDataset::new(),
        || TreedDataset::new_anti(false, true, true, true),
        || TreedDataset::new_with_indexes(&vec![[G, P, S, O]], None),
    ];
    for make_a in makers {
        for make_b in makers {
            let a = filled(make_a(), &left);
            let b = filled(make_b(), &right);
            let mut both = a.insersect(&b);
            assert_eq!(everything(&mut both), vec![[0, 0, 0, 1], [2, 2, 2, 2]]);
            let mut either = a.union(&b);
            assert_eq!(
                everything(&mut either),
                vec![[0, 0, 0, 1], [1, 1, 1, 1], [2, 2, 2, 2], [3, 3, 3, 3], [5, 0, 9, 3]]
            );
            let mut rest = a.difference(&b);
            assert_eq!(everything(&mut rest), vec![[1, 1, 1, 1], [5, 0, 9, 3]]);
            let mut other_rest = b.difference(&a);
            assert_eq!(everything(&mut other_rest), vec![[3, 3, 3, 3]]);
            assert!(!a.contains(&b));
            assert!(!b.contains(&a));
            assert!(a.contains(&both));
            assert!(b.contains(&both));
            assert!(either.contains(&a));
            assert!(either.contains(&b));
            assert!(a.contains(&rest));
            assert!(!a.has_same_elements(&b));
            assert!(either.has_same_elements(&b.union(&a)));
            assert_eq!(both.number_of_optional_built_trees(), 0);
        }
    }
}

#[test]
fn has_same_elements_needs_equal_size_and_containment() {
    let a = TreedDataset::new_from_slice(&[1, 1, 1, 1, 2, 2, 2, 2]);
    let same = TreedDataset::new_from_slice(&[2, 2, 2, 2, 1, 1, 1, 1]);
    let smaller = TreedDataset::new_from_slice(&[1, 1, 1, 1]);
    let other = TreedDataset::new_from_slice(&[1, 1, 1, 1, 3, 3, 3, 3]);
    assert!(a.has_same_elements(&same));
    assert_eq!(a.has_same_elements(&same), a.size() == same.size() && a.contains(&same));
    assert!(!a.has_same_elements(&smaller));
    assert!(a.contains(&smaller));
    assert!(!smaller.has_same_elements(&a));
    assert!(!a.has_same_elements(&other));
    assert_eq!(a.has_same_elements(&other), a.size() == other.size() && a.contains(&other));
    assert!(TreedDataset::new().has_same_elements(&TreedDataset::new()));
}

#[test]
fn packed_array_algebra() {
    let mut forest = TreedDataset::new_from_slice(&[1, 1, 1, 1, 2, 2, 2, 2]);
    let list = [2, 2, 2, 2, 3, 3, 3, 3, 2, 2, 2, 2, 9];
    let mut both = forest.intersect_slice(&list);
    assert_eq!(everything(&mut both), vec![[2, 2, 2, 2]]);
    let mut either = forest.union_slice(&list);
    assert_eq!(everything(&mut either), vec![[1, 1, 1, 1], [2, 2, 2, 2], [3, 3, 3, 3]]);
    let mut rest = forest.difference_slice(&list);
    assert_eq!(everything(&mut rest), vec![[1, 1, 1, 1]]);
    assert_eq!(forest.size(), 2);
    assert_eq!(everything(&mut forest), vec![[1, 1, 1, 1], [2, 2, 2, 2]]);
}

#[test]
fn contains_slice_checks_every_quad() {
    let forest = TreedDataset::new_from_slice(&[1, 1, 1, 1, 2, 2, 2, 2]);
    assert!(forest.contains_slice(&[]));
    assert!(forest.contains_slice(&[2, 2, 2, 2]));
    assert!(forest.contains_slice(&[2, 2, 2, 2, 1, 1, 1, 1, 2, 2, 2, 2]));
    assert!(!forest.contains_slice(&[2, 2, 2, 2, 3, 3, 3, 3]));
    assert!(!forest.contains_slice(&[1, 1, 1, 2]));
}

#[test]
fn equals_slice_compares_the_sets_of_quads() {
    let forest = TreedDataset::new_from_slice(&[1, 1, 1, 1, 2, 2, 2, 2]);
    assert!(forest.equals_slice(&[2, 2, 2, 2, 1, 1, 1, 1]));
    assert!(!forest.equals_slice(&[2, 2, 2, 2, 3, 3, 3, 3]));
    assert!(!forest.equals_slice(&[2, 2, 2, 2]));
    assert!(!forest.equals_slice(&[1, 1, 1, 1, 2, 2, 2, 2, 3, 3, 3, 3]));
    assert!(!forest.equals_slice(&[1, 1, 1, 1, 1, 1, 1, 1]));
    assert!(!forest.equals_slice(&[]));
    assert!(TreedDataset::new().equals_slice(&[]));
    assert!(!TreedDataset::new().equals_slice(&[0, 0, 0, 0]));
}

#[test]
fn equals_slice_takes_a_repeated_quad_once() {
    let forest = TreedDataset::new_from_slice(&[1, 1, 1, 1, 2, 2, 2, 2]);
    assert!(forest.equals_slice(&[1, 1, 1, 1, 2, 2, 2, 2, 1, 1, 1, 1]));
    assert!(forest.equals_slice(&[2, 2, 2, 2, 2, 2, 2, 2, 1, 1, 1, 1, 2, 2, 2, 2]));
    assert!(!forest.equals_slice(&[2, 2, 2, 2, 2, 2, 2, 2, 2, 2, 2, 2]));
    let single = TreedDataset::new_from_slice(&[1, 1, 1, 1]);
    assert!(single.equals_slice(&[1, 1, 1, 1, 1, 1, 1, 1]));
}

#[test]
fn equals_slice_leaves_out_a_trailing_partial_quad() {
    let forest = TreedDataset::new_from_slice(&[1, 1, 1, 1, 2, 2, 2, 2]);
    assert!(forest.equals_slice(&[1, 1, 1, 1, 2, 2, 2, 2, 9]));
    assert!(forest.equals_slice(&[1, 1, 1, 1, 2, 2, 2, 2, 3, 3, 3]));
    assert!(!forest.equals_slice(&[1, 1, 1]));
    assert!(TreedDataset::new().equals_slice(&[1, 2, 3]));
}

#[test]
fn equals_slice_is_equality_with_the_forest_of_the_array() {
    let forest = TreedDataset::new_from_slice(&[1, 1, 1, 1, 2, 2, 2, 2]);
    let lists: [&[u32]; 6] = [
        &[],
        &[1, 1, 1, 1, 1, 1, 1, 1],
        &[2, 2, 2, 2, 1, 1, 1, 1],
        &[2, 2, 2, 2, 1, 1, 1, 1, 2, 2, 2, 2, 5],
        &[2, 2, 2, 2, 1, 1, 1, 1, 0, 0, 0, 0],
        &[7, 7, 7, 7, 8, 8, 8, 8],
    ];
    for list in lists {
        let other = TreedDataset::new_from_slice(list);
        assert_eq!(forest.equals_slice(list), forest.has_same_elements(&other));
    }
}

#[test]
fn extreme_identifiers_in_a_forest() {
    let mut forest = TreedDataset::new();
    forest.add(0, 0, 0, 0);
    forest.add(u32::MAX, u32::MAX, u32::MAX, u32::MAX);
    forest.add(0, u32::MAX, 0, u32::MAX);
    assert_eq!(forest.size(), 3);
    assert_eq!(
        unpack(&forest.get_all(Some(0), None, None, None)),
        vec![[0, 0, 0, 0], [0, u32::MAX, 0, u32::MAX]]
    );
    assert_eq!(
        unpack(&forest.get_all(None, None, None, Some(u32::MAX))),
        vec![[0, u32::MAX, 0, u32::MAX], [u32::MAX; 4]]
    );
    assert_eq!(unpack(&forest.get_all(None, None, Some(u32::MAX), None)), vec![[u32::MAX; 4]]);
    forest.delete_matches(None, Some(u32::MAX), None, None);
    assert_eq!(everything(&mut forest), vec![[0, 0, 0, 0]]);
}
