use quad_forest::order::{Block, BlockOrder, TermRole};
use std::collections::BTreeSet;

const S: TermRole = TermRole::Subject;
const P: TermRole = TermRole::Predicate;
const O: TermRole = TermRole::Object;
const G: TermRole = TermRole::Graph;

#[test]
fn term_role_index_is_its_position() {
    assert_eq!(S.index(), 0);
    assert_eq!(P.index(), 1);
    assert_eq!(O.index(), 2);
    assert_eq!(G.index(), 3);
}

#[test]
fn block_new_keeps_values() {
    let block = Block::new([5u32, 6, 7, 8]);
    assert_eq!(block.data, [5, 6, 7, 8]);
}

#[test]
fn block_key_round_trip() {
    let block = Block::from_key((1, 2, 3, 4));
    assert_eq!(block.data, [1, 2, 3, 4]);
    assert_eq!(block.to_key(), (1, 2, 3, 4));
}

#[test]
fn match_option_block_checks_every_given_slot() {
    let block = Block::new([1u32, 2, 3, 4]);
    assert!(block.match_option_block(&Block::new([None, None, None, None])));
    assert!(block.match_option_block(&Block::new([Some(1), None, Some(3), None])));
    assert!(block.match_option_block(&Block::new([Some(1), Some(2), Some(3), Some(4)])));
    assert!(!block.match_option_block(&Block::new([Some(1), Some(2), Some(3), Some(5)])));
    assert!(!block.match_option_block(&Block::new([Some(0), None, None, None])));
    assert!(!block.match_option_block(&Block::new([None, None, Some(4), None])));
}

#[test]
fn to_block_permutes_into_key_order() {
    let order = BlockOrder::new([O, G, P, S]);
    assert_eq!(order.to_block(&[1u32, 2, 3, 4]).data, [3, 4, 2, 1]);
    let order = BlockOrder::new([G, P, S, O]);
    assert_eq!(order.to_block(&[1u32, 2, 3, 4]).data, [4, 2, 1, 3]);
    let order = BlockOrder::new([S, P, O, G]);
    assert_eq!(order.to_block(&[1u32, 2, 3, 4]).data, [1, 2, 3, 4]);
}

#[test]
fn to_indices_is_the_inverse_of_to_block() {
    let orders = [
        [O, G, P, S],
        [S, P, O, G],
        [G, P, S, O],
        [P, O, G, S],
        [G, S, P, O],
        [O, S, G, P],
    ];
    for roles in orders {
        let order = BlockOrder::new(roles);
        let quad = [11u32, 22, 33, 44];
        let block = order.to_block(&quad);
        assert_eq!(order.to_indices(&block), quad);
        let key = Block::new([9u32, 8, 7, 6]);
        assert_eq!(order.to_block(&order.to_indices(&key)).data, key.data);
    }
    let order = BlockOrder::new([O, G, P, S]);
    assert_eq!(order.to_indices(&Block::new([3u32, 4, 2, 1])), [1, 2, 3, 4]);
}

#[test]
fn term_roles_are_kept() {
    let order = BlockOrder::new([P, O, G, S]);
    assert_eq!(order.term_roles(), [P, O, G, S]);
}

#[test]
fn to_filter_block_permutes_the_pattern() {
    let order = BlockOrder::new([O, G, P, S]);
    let filter = order.to_filter_block(&[Some(1u32), None, Some(3), None]);
    assert_eq!(filter.data, [Some(3), None, None, Some(1)]);
}

#[test]
fn index_conformance_counts_the_bound_prefix() {
    let some = Some(0u32);
    let none: Option<u32> = None;
    let ogps = BlockOrder::new([O, G, P, S]);
    assert_eq!(ogps.index_conformance(&[&some, &none, &some, &some]), 2);
    assert_eq!(ogps.index_conformance(&[&some, &some, &none, &some]), 0);
    assert_eq!(ogps.index_conformance(&[&none, &none, &some, &none]), 1);
    assert_eq!(ogps.index_conformance(&[&none, &some, &some, &some]), 3);
    let spog = BlockOrder::new([S, P, O, G]);
    assert_eq!(spog.index_conformance(&[&none, &none, &none, &none]), 0);
    assert_eq!(spog.index_conformance(&[&some, &some, &some, &some]), 4);
    assert_eq!(spog.index_conformance(&[&none, &some, &some, &some]), 0);
}

#[test]
fn range_pins_the_bound_prefix() {
    let order = BlockOrder::new([O, G, P, S]);
    let (lo, hi, filter) = order.range([Some(7), None, Some(3), Some(9)]);
    assert_eq!(lo.data, [3, 9, 0, 0]);
    assert_eq!(hi.data, [3, 9, u32::MAX, u32::MAX]);
    assert_eq!(filter.data, [Some(3), Some(9), None, Some(7)]);
}

#[test]
fn range_without_bound_prefix_is_everything() {
    let order = BlockOrder::new([O, G, P, S]);
    let (lo, hi, filter) = order.range([Some(7), Some(8), None, Some(9)]);
    assert_eq!(lo.data, [0, 0, 0, 0]);
    assert_eq!(hi.data, [u32::MAX; 4]);
    assert_eq!(filter.data, [None, Some(9), Some(8), Some(7)]);
}

#[test]
fn range_of_a_full_pattern_is_one_key() {
    let order = BlockOrder::new([G, S, P, O]);
    let (lo, hi, filter) = order.range([Some(0), Some(u32::MAX), Some(5), Some(6)]);
    assert_eq!(lo.data, [6, 0, u32::MAX, 5]);
    assert_eq!(hi.data, [6, 0, u32::MAX, 5]);
    assert_eq!(filter.data, [Some(6), Some(0), Some(u32::MAX), Some(5)]);
}

#[test]
fn insert_into_reports_presence() {
    let order = BlockOrder::new([O, G, P, S]);
    let mut tree = BTreeSet::new();
    assert!(!order.insert_into(&mut tree, &[1, 2, 3, 4]));
    assert!(order.insert_into(&mut tree, &[1, 2, 3, 4]));
    assert_eq!(tree.len(), 1);
    assert!(tree.contains(&(3, 4, 2, 1)));
}

#[test]
fn delete_from_reports_presence() {
    let order = BlockOrder::new([O, G, P, S]);
    let mut tree = BTreeSet::new();
    order.insert_into(&mut tree, &[1, 2, 3, 4]);
    assert!(!order.delete_from(&mut tree, &[4, 3, 2, 1]));
    assert_eq!(tree.len(), 1);
    assert!(order.delete_from(&mut tree, &[1, 2, 3, 4]));
    assert!(tree.is_empty());
    assert!(!order.delete_from(&mut tree, &[1, 2, 3, 4]));
}

#[test]
fn contains_looks_up_the_permuted_key() {
    let order = BlockOrder::new([G, P, S, O]);
    let mut tree = BTreeSet::new();
    tree.insert((4u32, 2u32, 1u32, 3u32));
    assert!(order.contains(&tree, &[1, 2, 3, 4]));
    assert!(!order.contains(&tree, &[4, 2, 1, 3]));
}

fn drain(mut scan: quad_forest::FilteredIndexQuads) -> Vec<[u32; 4]> {
    let mut found = Vec::new();
    while let Some(quad) = scan.next() {
        found.push(quad);
    }
    found
}

#[test]
fn filter_scans_in_key_order() {
    let order = BlockOrder::new([O, G, P, S]);
    let mut tree = BTreeSet::new();
    for quad in [[1, 2, 3, 4], [1, 2, 3, 5], [1, 9, 3, 4], [7, 7, 2, 9], [5, 5, 4, 0]] {
        order.insert_into(&mut tree, &quad);
    }
    assert_eq!(
        drain(order.filter(&tree, [None, None, None, None])),
        vec![[7, 7, 2, 9], [1, 2, 3, 4], [1, 9, 3, 4], [1, 2, 3, 5], [5, 5, 4, 0]]
    );
    assert_eq!(
        drain(order.filter(&tree, [None, None, Some(3), None])),
        vec![[1, 2, 3, 4], [1, 9, 3, 4], [1, 2, 3, 5]]
    );
    assert_eq!(
        drain(order.filter(&tree, [None, None, Some(3), Some(4)])),
        vec![[1, 2, 3, 4], [1, 9, 3, 4]]
    );
    assert_eq!(drain(order.filter(&tree, [None, Some(9), None, None])), vec![[1, 9, 3, 4]]);
    assert_eq!(drain(order.filter(&tree, [Some(1), Some(2), Some(3), Some(5)])), vec![[1, 2, 3, 5]]);
    assert!(drain(order.filter(&tree, [Some(2), None, None, None])).is_empty());
}

#[test]
fn filter_applies_the_residual_pattern() {
    let order = BlockOrder::new([S, P, O, G]);
    let mut tree = BTreeSet::new();
    for quad in [[1, 2, 3, 4], [1, 5, 3, 4], [1, 2, 8, 4], [2, 2, 3, 4]] {
        order.insert_into(&mut tree, &quad);
    }
    assert_eq!(
        drain(order.filter(&tree, [Some(1), None, Some(3), None])),
        vec![[1, 2, 3, 4], [1, 5, 3, 4]]
    );
}

#[test]
fn next_after_the_end_stays_none() {
    let order = BlockOrder::new([S, P, O, G]);
    let mut tree = BTreeSet::new();
    order.insert_into(&mut tree, &[1, 2, 3, 4]);
    let mut scan = order.filter(&tree, [None, None, None, None]);
    assert_eq!(scan.next(), Some([1, 2, 3, 4]));
    assert_eq!(scan.next(), None);
    assert_eq!(scan.next(), None);
}

#[test]
fn extreme_identifiers_are_ordinary() {
    let order = BlockOrder::new([S, P, O, G]);
    let mut tree = BTreeSet::new();
    for quad in [[0, 0, 0, 0], [u32::MAX; 4], [0, u32::MAX, 0, u32::MAX], [5, 5, 5, 5]] {
        order.insert_into(&mut tree, &quad);
    }
    assert_eq!(
        drain(order.filter(&tree, [Some(0), None, None, None])),
        vec![[0, 0, 0, 0], [0, u32::MAX, 0, u32::MAX]]
    );
    assert_eq!(
        drain(order.filter(&tree, [Some(u32::MAX), None, None, None])),
        vec![[u32::MAX; 4]]
    );
    assert_eq!(
        drain(order.filter(&tree, [None, None, None, Some(u32::MAX)])),
        vec![[0, u32::MAX, 0, u32::MAX], [u32::MAX; 4]]
    );
}

#[test]
fn insert_all_into_rekeys_every_quad() {
    let spog = BlockOrder::new([S, P, O, G]);
    let gpso = BlockOrder::new([G, P, S, O]);
    let mut source = BTreeSet::new();
    for quad in [[1, 2, 3, 4], [5, 6, 7, 8]] {
        spog.insert_into(&mut source, &quad);
    }
    let mut target = BTreeSet::new();
    target.insert((0u32, 0u32, 0u32, 0u32));
    gpso.insert_all_into(&mut target, spog.filter(&source, [None, None, None, None]));
    let expected: BTreeSet<(u32, u32, u32, u32)> =
        [(0, 0, 0, 0), (4, 2, 1, 3), (8, 6, 5, 7)].into_iter().collect();
    assert_eq!(target, expected);
}

#[test]
fn build_new_tree_by_filtering_keeps_what_does_not_match() {
    let order = BlockOrder::new([O, G, P, S]);
    let mut tree = BTreeSet::new();
    for quad in [[1, 2, 3, 4], [1, 2, 3, 5], [1, 9, 3, 4]] {
        order.insert_into(&mut tree, &quad);
    }
    let kept = order.build_new_tree_by_filtering(&tree, &[None, Some(2), None, None]);
    let expected: BTreeSet<(u32, u32, u32, u32)> = [(3, 4, 9, 1)].into_iter().collect();
    assert_eq!(kept, expected);
    let all = order.build_new_tree_by_filtering(&tree, &[Some(8), None, None, None]);
    assert_eq!(all, tree);
    let none = order.build_new_tree_by_filtering(&tree, &[None, None, None, None]);
    assert!(none.is_empty());
}
