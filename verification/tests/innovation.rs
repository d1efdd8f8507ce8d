use tyrosine::innovation::{key_of, GlobalInnovator, InnovationRegistry};

#[test]
fn innovator_counts_from_zero() {
    let mut innovator = GlobalInnovator::new();
    assert_eq!(innovator.next(), 0);
    assert_eq!(innovator.next(), 1);
    assert_eq!(innovator.next(), 2);
    assert_eq!(innovator.innov, 3);
}

#[test]
fn same_edge_keeps_its_number_within_a_generation() {
    let mut registry = InnovationRegistry::new();
    let first = registry.issue(1, 4);
    let second = registry.issue(2, 4);
    let again = registry.issue(1, 4);
    assert_eq!(first, Some(0));
    assert_eq!(second, Some(1));
    assert_eq!(again, Some(0));
    assert_eq!(registry.innovator.innov, 2);
    assert_eq!(registry.innovations.len(), 2);
}

#[test]
fn direction_matters_for_the_number() {
    let mut registry = InnovationRegistry::new();
    assert_eq!(registry.issue(1, 4), Some(0));
    assert_eq!(registry.issue(4, 1), Some(1));
}

#[test]
fn a_new_generation_numbers_the_edge_afresh() {
    let mut registry = InnovationRegistry::new();
    assert_eq!(registry.issue(1, 4), Some(0));
    registry.clear();
    assert_eq!(registry.lookup(1, 4), None);
    assert_eq!(registry.issue(1, 4), Some(1));
    assert_eq!(registry.innovator.innov, 2);
}

#[test]
fn exhausted_counter_issues_nothing_new() {
    let mut registry = InnovationRegistry::new();
    assert_eq!(registry.issue(0, 1), Some(0));
    registry.innovator.innov = usize::MAX;
    assert_eq!(registry.issue(0, 2), None);
    assert_eq!(registry.issue(0, 1), Some(0));
    assert_eq!(registry.innovations.len(), 1);
}

#[test]
fn validity_test_of_a_registry() {
    let mut registry = InnovationRegistry::new();
    assert!(registry.is_valid());
    registry.issue(1, 4);
    registry.issue(2, 4);
    assert!(registry.is_valid());
    registry.innovator.innov = 9;
    registry.innovations.insert(key_of(3, 4), 1);
    assert!(!registry.is_valid());
    registry.innovations.insert(key_of(3, 4), 9);
    assert!(!registry.is_valid());
    registry.innovations.insert(key_of(3, 4), 8);
    assert!(registry.is_valid());
    assert_eq!(registry.lookup(3, 4), Some(8));
    assert_eq!(registry.lookup(4, 3), None);
}

#[test]
fn edges_are_kept_under_keys_of_their_own() {
    assert_eq!(key_of(0, 0), 0);
    assert_eq!(key_of(0, 7), 7);
    assert_eq!(key_of(1, 0), 1u128 << 64);
    assert_eq!(key_of(3, 4), (3u128 << 64) + 4);
    assert_ne!(key_of(3, 4), key_of(4, 3));
    assert_eq!(key_of(usize::MAX, usize::MAX), ((usize::MAX as u128) << 64) + usize::MAX as u128);
    let mut registry = InnovationRegistry::new();
    assert_eq!(registry.issue(3, 4), Some(0));
    assert_eq!(registry.innovations.get(&key_of(3, 4)), Some(&0));
}
