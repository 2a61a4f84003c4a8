use std::collections::hash_map::DefaultHasher;
use std::collections::{BTreeSet, HashMap};
use std::hash::{Hash, Hasher};

use ficus_backend::alpha::two_sets::TwoSets;
use ficus_backend::sets::one_set::{ascending_members, OneSet};
use ficus_backend::utils::colors::Color;
use ficus_backend::utils::graph::Graph;
use ficus_backend::utils::hash_map_utils::increase_in_map;
use ficus_backend::utils::hash_utils::{calculate_poly_hash_for_collection, poly_hash_of_element_hashes};

fn default_hash(value: u64) -> u64 {
    let mut hasher = DefaultHasher::new();
    value.hash(&mut hasher);
    hasher.finish()
}

#[test]
fn poly_hash_of_small_hashes() {
    assert_eq!(poly_hash_of_element_hashes(&[]), 1);
    assert_eq!(poly_hash_of_element_hashes(&[1, 2, 3]), 3940);
}

#[test]
fn poly_hash_of_a_collection_hashes_each_element() {
    let expected = poly_hash_of_element_hashes(&[default_hash(1), default_hash(2)]);
    assert_eq!(calculate_poly_hash_for_collection(&[1, 2]), expected);
    assert_eq!(calculate_poly_hash_for_collection(&[5, 6, 7]), calculate_poly_hash_for_collection(&[5, 6, 7]));
}

#[test]
fn counting_in_a_map() {
    let mut map: HashMap<u64, usize> = HashMap::new();
    increase_in_map(&mut map, &7);
    increase_in_map(&mut map, &7);
    increase_in_map(&mut map, &3);
    assert_eq!(map.get(&7), Some(&2));
    assert_eq!(map.get(&3), Some(&1));
    assert_eq!(map.len(), 2);
}

#[test]
fn colors() {
    let c = Color::new(1, 2, 3);
    assert_eq!((c.red(), c.green(), c.blue()), (1, 2, 3));
    let black = Color::black();
    assert_eq!((black.red(), black.green(), black.blue()), (0, 0, 0));
    let used = vec![black, c];
    for _ in 0..20 {
        let r = Color::random(Some(&used));
        assert!(!used.contains(&r));
    }
    let _ = Color::random(None);
}

#[test]
fn one_set_merge_is_a_union() {
    let a = OneSet::new(1);
    let b = OneSet::new_two_elements(2, 3);
    let ab = a.merge(&b);
    let ba = b.merge(&a);
    let expected: BTreeSet<u64> = [1, 2, 3].into_iter().collect();
    assert_eq!(ab.set(), &expected);
    assert_eq!(ba.set(), &expected);
    let mut e = OneSet::empty();
    e.insert(4);
    assert!(e.set().contains(&4));
}

#[test]
fn two_sets_merge_each_side() {
    let a = TwoSets::new_one_element(1, 2);
    let b = TwoSets::new_one_element(3, 4);
    let m = a.merge(&b);
    assert_eq!(m.first_set(), &[1, 3].into_iter().collect::<BTreeSet<u64>>());
    assert_eq!(m.second_set(), &[2, 4].into_iter().collect::<BTreeSet<u64>>());
    assert!(a.is_full_subset(&m));
    assert!(!m.is_full_subset(&a));
    assert_eq!(m.to_string(), "({1,3}, {2,4})");
    let big = TwoSets::new([30, 4, 100].into_iter().collect(), BTreeSet::new());
    assert_eq!(big.to_string(), "({4,30,100}, {})");
}

#[test]
fn ascending_members_of_a_set() {
    let set: BTreeSet<u64> = [9, 1, 5].into_iter().collect();
    assert_eq!(ascending_members(&set), vec![1, 5, 9]);
    assert_eq!(ascending_members(&BTreeSet::new()), Vec::<u64>::new());
}

#[test]
fn graph_connects_only_present_nodes() {
    let mut graph: Graph<u32, u32> = Graph::empty();
    let first = graph.add_node(Some(1));
    let second = graph.add_node(None);
    assert_ne!(first, second);
    assert!(graph.connect_nodes(&first, &second, Some(5)).is_some());
    assert!(graph.connect_nodes(&first, &12345, None).is_none());
    assert_eq!(graph.all_nodes().len(), 2);
    assert_eq!(graph.all_edges().len(), 1);
}
