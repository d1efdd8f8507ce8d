use tyrosine::errors::TyrosineError;
use tyrosine::selection::{allot_slots, distribute, floor_shares, mean_fitness, rank_by_fitness};

#[test]
fn ranking_is_by_fitness_then_by_position() {
    assert_eq!(rank_by_fitness(&vec![3, 9, 3, 12, 9]), vec![3, 1, 4, 0, 2]);
    assert_eq!(rank_by_fitness(&vec![1, 2, 3]), vec![2, 1, 0]);
    assert_eq!(rank_by_fitness(&vec![5, 5, 5]), vec![0, 1, 2]);
    assert_eq!(rank_by_fitness(&vec![]), Vec::<usize>::new());
}

#[test]
fn mean_is_kept_in_parts_of_a_score() {
    assert_eq!(mean_fitness(&vec![1, 2, 4], 1), 2);
    assert_eq!(mean_fitness(&vec![1, 2, 4], 3), 7);
    assert_eq!(mean_fitness(&vec![1, 0], 1 << 63), 1 << 62);
    assert_eq!(mean_fitness(&vec![7], 1 << 64), 7 << 64);
    assert_eq!(mean_fitness(&vec![], 1 << 64), 0);
    assert_eq!(mean_fitness(&vec![u64::MAX, u64::MAX], 1 << 63), (u64::MAX as u128) << 63);
    assert_eq!(mean_fitness(&vec![u64::MAX, u64::MAX - 1], 1 << 63), ((u64::MAX as u128) << 63) - (1 << 62));
}

#[test]
fn floor_shares_are_proportional() {
    assert_eq!(floor_shares(&vec![1, 2, 3, 4], 10), Ok(vec![1, 2, 3, 4]));
    assert_eq!(floor_shares(&vec![1, 1, 1], 10), Ok(vec![3, 3, 3]));
    assert_eq!(floor_shares(&vec![0, 5], 7), Ok(vec![0, 7]));
    let high = (u64::MAX as u128) << 60;
    assert_eq!(floor_shares(&vec![high, high], 9), Ok(vec![4, 4]));
}

#[test]
fn zero_total_fitness_is_an_empty_population() {
    assert_eq!(floor_shares(&vec![0, 0, 0], 10), Err(TyrosineError::EmptyPopulation));
    assert_eq!(floor_shares(&vec![], 10), Err(TyrosineError::EmptyPopulation));
    let mut rng = rand::rng();
    assert_eq!(allot_slots(&vec![0, 0], 10, &mut rng), Err(TyrosineError::EmptyPopulation));
}

#[test]
fn distribute_raises_the_first_of_the_order() {
    assert_eq!(distribute(vec![3, 3, 3], &vec![2, 0, 1], 1), vec![3, 3, 4]);
    assert_eq!(distribute(vec![3, 3, 3], &vec![2, 0, 1], 2), vec![4, 3, 4]);
    assert_eq!(distribute(vec![3, 3, 3], &vec![2, 0, 1], 0), vec![3, 3, 3]);
}

#[test]
fn allotment_conserves_the_population_size() {
    let mut rng = rand::rng();
    for _ in 0..100 {
        let slots = allot_slots(&vec![1, 1, 1], 10, &mut rng).unwrap();
        assert_eq!(slots.iter().sum::<usize>(), 10);
        let mut sorted = slots.clone();
        sorted.sort();
        assert_eq!(sorted, vec![3, 3, 4]);
    }
    let slots = allot_slots(&vec![1, 2, 3, 4], 10, &mut rng).unwrap();
    assert_eq!(slots, vec![1, 2, 3, 4]);
    let slots = allot_slots(&vec![0, 9], 5, &mut rng).unwrap();
    assert_eq!(slots, vec![0, 5]);
}
