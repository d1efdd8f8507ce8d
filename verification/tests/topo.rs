use std::collections::{HashMap, HashSet};
use tyrosine::creature::FleekCreature;
use tyrosine::generation_manager::Handling;
use tyrosine::population::build_cache;
use tyrosine::topo::{collapse_ids, flatten, members_of};

#[test]
fn topo_hash_test() {
    let z = vec![1, 2, 3, 4];
    let y = vec![1, 2, 3, 4];
    let mut x = HashSet::new();
    x.insert(z);
    x.insert(y);
    assert_eq!(x.len(), 1);
}

#[test]
fn cache_of_no_species_is_empty() {
    assert_eq!(build_cache(&Vec::new()), HashMap::new());
}

#[test]
fn layers_are_flattened_in_order() {
    assert_eq!(flatten(&vec![vec![7, 3], vec![], vec![3, 9]]), vec![7, 3, 3, 9]);
}

#[test]
fn members_of_a_set_come_once_each() {
    let ids: HashSet<u32> = [5, 1, 8].into_iter().collect();
    let mut members = members_of(&ids);
    members.sort();
    assert_eq!(members, vec![1, 5, 8]);
}

#[test]
fn ids_are_numbered_by_first_occurrence() {
    let topo = vec![vec![10, 20], vec![30, 10], vec![40]];
    let mapping = collapse_ids(&topo, &HashSet::new());
    let expected: HashMap<u32, u32> = [(10, 0), (20, 1), (30, 2), (40, 3)].into_iter().collect();
    assert_eq!(mapping, expected);
}

#[test]
fn output_ids_are_numbered_last() {
    let topo = vec![vec![10, 20], vec![30]];
    let outputs: HashSet<u32> = [30, 50].into_iter().collect();
    let mapping = collapse_ids(&topo, &outputs);
    assert_eq!(mapping.len(), 4);
    assert_eq!(mapping[&10], 0);
    assert_eq!(mapping[&20], 1);
    let mut last = vec![mapping[&30], mapping[&50]];
    last.sort();
    assert_eq!(last, vec![3, 4]);
}

#[test]
fn one_output_takes_a_new_number() {
    let topo = vec![vec![0, 1], vec![2]];
    let outputs: HashSet<u32> = [2].into_iter().collect();
    let mapping = collapse_ids(&topo, &outputs);
    let expected: HashMap<u32, u32> = [(0, 0), (1, 1), (2, 3)].into_iter().collect();
    assert_eq!(mapping, expected);
}

#[test]
fn policies_and_kinds_can_be_told_apart() {
    assert_ne!(Handling::UniqueCreatures, Handling::PersistentCreatures);
    assert_eq!(FleekCreature {}, FleekCreature {});
}
