use tyrosine::errors::TyrosineError;
use tyrosine::genome::{Genome, WEIGHT_UNIT};
use tyrosine::population::{
    build_cache, cache_is_current, count_specimens, drop_empty, rank_members, same_generation,
    select_parents, Population,
};
use tyrosine::species::Species;

fn is_topological(genome: &Genome, order: &[usize]) -> bool {
    let mut sorted = order.to_vec();
    sorted.sort();
    let all: Vec<usize> = (0..genome.node_genes.len()).collect();
    if sorted != all {
        return false;
    }
    genome.connection_genes.iter().filter(|gene| gene.enabled).all(|gene| {
        let from = order.iter().position(|node| *node == gene.in_node).unwrap();
        let to = order.iter().position(|node| *node == gene.out_node).unwrap();
        from < to
    })
}

fn check_invariants(pop: &Population, size: usize, num_inputs: usize, num_outputs: usize) {
    assert_eq!(pop.population_size(), size);
    let total: usize = pop.species.iter().map(|species| species.members.len()).sum();
    assert_eq!(total, size);
    let mut ids = std::collections::HashSet::new();
    for species in &pop.species {
        assert!(!species.members.is_empty());
        assert!(species.id < pop.species_counter.id);
        assert!(ids.insert(species.id));
        for member in &species.members {
            assert!(member.genome.is_valid());
            assert_eq!(member.genome.num_inputs, num_inputs + 1);
            assert_eq!(member.genome.num_outputs, num_outputs);
            assert!(is_topological(&member.genome, &member.toposorted_nodes));
        }
    }
    assert_eq!(pop.index_cache, build_cache(&pop.species));
    assert!(pop.is_valid());
    let specimens = pop.get_specimens();
    assert_eq!(specimens.len(), size);
    for (index, specimen) in specimens.iter().enumerate() {
        let (at, member) = pop.index_cache[&index];
        assert_eq!(**specimen, pop.species[at].members[member]);
    }
}

#[test]
fn generate_population() {
    let pop = Population::new(100, 7, 1000).unwrap();
    assert_eq!(pop.get_specimens().len(), 1000);
}

#[test]
fn population_size() {
    let pop = Population::new(100, 7, 2000).unwrap();
    assert_eq!(pop.population_size, 2000, "Population size.");
}

#[test]
fn population_evolve() {
    let mut pop = Population::new(100, 7, 10).unwrap();
    let species_pre = pop.species.clone();
    pop.evolve(&vec![1, 2, 3, 4, 5, 6, 7, 8, 9, 10], &vec![WEIGHT_UNIT / 10, -WEIGHT_UNIT / 10]).unwrap();
    let species_post = pop.species.clone();
    if species_pre.len() != species_post.len() {
        return; // something has changed, so evolution has taken place
    }
    for (pre, post) in species_pre.iter().zip(species_post.iter()) {
        if pre.members.len() != post.members.len() {
            return; // something has changed, so evolution has taken place
        }
        for (phen_pre, phen_post) in pre.members.iter().zip(post.members.iter()) {
            if phen_pre.genome != phen_post.genome {
                return; // something has changed, so evolution has taken place
            }
        }
    }
    assert!(false, "Population should be different after evolving.");
}

#[test]
fn construction() {
    let pop = Population::new(2, 1, 10).unwrap();
    assert_eq!(pop.get_specimens().len(), 10);
    for specimen in pop.get_specimens() {
        assert_eq!(specimen.genome.num_inputs, 3);
        assert_eq!(specimen.genome.num_outputs, 1);
        assert!(is_topological(&specimen.genome, &specimen.toposorted_nodes));
    }
    assert_eq!(pop.generation(), 0);
    assert!(pop.can_evolve());
    check_invariants(&pop, 10, 2, 1);
}

#[test]
fn exhausted_counters_leave_no_room() {
    let mut pop = Population::new(2, 1, 3).unwrap();
    pop.generation = u64::MAX;
    assert!(!pop.can_evolve());
    assert_eq!(pop.evolve(&vec![1, 1, 1], &vec![]), Err(TyrosineError::CountersExhausted));
    assert_eq!(pop.evolve(&vec![1, 1], &vec![]), Err(TyrosineError::FitnessArityMismatch));
    assert_eq!(pop.generation(), u64::MAX);
    pop.generation = 0;
    pop.species_counter.id = usize::MAX - 2;
    assert!(!pop.can_evolve());
    pop.species_counter.id = usize::MAX - 3;
    assert!(pop.can_evolve());
}

#[test]
fn every_size_above_zero_succeeds() {
    for size in 1..40 {
        let pop = Population::new(3, 2, size).unwrap();
        assert!(pop.is_valid());
        assert_eq!(pop.population_size(), size);
        assert_eq!(pop.get_specimens().len(), size);
    }
}

#[test]
fn validity_test_finds_a_broken_population() {
    let pop = Population::new(2, 1, 5).unwrap();
    assert!(pop.is_valid());
    let mut wrong_size = Population::new(2, 1, 5).unwrap();
    wrong_size.population_size = 6;
    assert!(!wrong_size.is_valid());
    let mut stale_cache = Population::new(2, 1, 5).unwrap();
    stale_cache.index_cache.insert(0, (7, 7));
    assert!(!stale_cache.is_valid());
    let mut short_cache = Population::new(2, 1, 5).unwrap();
    short_cache.index_cache.remove(&4);
    assert!(!short_cache.is_valid());
    let mut long_cache = Population::new(2, 1, 5).unwrap();
    long_cache.index_cache.insert(5, (0, 0));
    assert!(!long_cache.is_valid());
    let mut low_counter = Population::new(2, 1, 5).unwrap();
    low_counter.species_counter.id = 0;
    assert!(!low_counter.is_valid());
    let mut twin_ids = Population::new(2, 1, 5).unwrap();
    if twin_ids.species.len() > 1 {
        twin_ids.species[1].id = twin_ids.species[0].id;
        assert!(!twin_ids.is_valid());
    }
    let mut other_shape = Population::new(2, 1, 5).unwrap();
    other_shape.num_outputs = 2;
    assert!(!other_shape.is_valid());
    let mut bad_order = Population::new(2, 1, 5).unwrap();
    bad_order.species[0].members[0].toposorted_nodes.swap(0, 1);
    bad_order.species[0].members[0].toposorted_nodes[0] = 0;
    assert!(!bad_order.is_valid());
    let mut bad_registry = Population::new(2, 1, 5).unwrap();
    bad_registry.innovator.innovations.insert(tyrosine::innovation::key_of(0, 3), usize::MAX);
    assert!(!bad_registry.is_valid());
}

#[test]
fn empty_population_is_refused() {
    assert_eq!(Population::new(2, 1, 0).err(), Some(TyrosineError::EmptyPopulation));
}

#[test]
fn activate_index_plans_for_the_specimen() {
    let pop = Population::new(2, 1, 5).unwrap();
    for index in 0..5 {
        let plan = pop.activate_index(index, 2).unwrap().unwrap();
        assert_eq!(plan.outputs, vec![3]);
        assert_eq!(plan.presets.len(), 3);
        let expected = pop.get_specimens()[index].activation_plan(2).unwrap();
        assert_eq!(plan, expected);
    }
    assert_eq!(pop.activate_index(5, 2), None);
    assert_eq!(pop.activate_index(0, 3), Some(Err(TyrosineError::InputArityMismatch)));
}

#[test]
fn evolve_refuses_wrong_fitness_count() {
    let mut pop = Population::new(2, 1, 6).unwrap();
    let species = pop.species.clone();
    let next = pop.innovator.innovator.innov;
    assert_eq!(pop.evolve(&vec![1, 2, 3], &vec![]), Err(TyrosineError::FitnessArityMismatch));
    assert_eq!(pop.evolve(&vec![1; 7], &vec![]), Err(TyrosineError::FitnessArityMismatch));
    assert_eq!(pop.generation(), 0);
    assert_eq!(pop.innovator.innovator.innov, next);
    assert_eq!(pop.species.len(), species.len());
    for (now, then) in pop.species.iter().zip(species.iter()) {
        assert_eq!(now.id, then.id);
        assert_eq!(now.members, then.members);
    }
    check_invariants(&pop, 6, 2, 1);
}

#[test]
fn evolve_refuses_zero_total_fitness() {
    let mut pop = Population::new(2, 1, 6).unwrap();
    let species = pop.species.clone();
    assert_eq!(pop.evolve(&vec![0; 6], &vec![]), Err(TyrosineError::EmptyPopulation));
    assert_eq!(pop.generation(), 0);
    assert_eq!(pop.species.len(), species.len());
    for (now, then) in pop.species.iter().zip(species.iter()) {
        assert_eq!(now.id, then.id);
        assert_eq!(now.type_specimen, then.type_specimen);
        assert_eq!(now.members, then.members);
    }
}

#[test]
fn evolve_conserves_the_population() {
    let table = vec![WEIGHT_UNIT / 10, -WEIGHT_UNIT / 10, WEIGHT_UNIT / 20];
    let mut pop = Population::new(3, 2, 40).unwrap();
    for generation in 0..25u64 {
        assert_eq!(pop.generation(), generation);
        check_invariants(&pop, 40, 3, 2);
        let fitnesses: Vec<u64> = pop
            .get_specimens()
            .iter()
            .map(|specimen| 1 + specimen.genome.connection_genes.len() as u64)
            .collect();
        match pop.evolve(&fitnesses, &table) {
            Ok(draws) => assert!(1 <= draws && draws <= 64),
            Err(error) => {
                assert_eq!(error, TyrosineError::InvalidTopology);
                assert_eq!(pop.generation(), generation);
                assert!(pop.is_valid());
                check_invariants(&pop, 40, 3, 2);
                return;
            }
        }
    }
    check_invariants(&pop, 40, 3, 2);
}

#[test]
fn evolve_keeps_the_elite_of_every_surviving_species() {
    let table = vec![WEIGHT_UNIT / 10, -WEIGHT_UNIT / 10];
    let mut pop = Population::new(2, 1, 30).unwrap();
    for _ in 0..10 {
        let fitnesses: Vec<u64> = (0..30u64).map(|index| 1 + (index * 7) % 11).collect();
        let (rankings, _) = rank_members(&pop.species, &fitnesses);
        let elites: Vec<(usize, Genome)> = pop
            .species
            .iter()
            .zip(rankings.iter())
            .map(|(species, ranking)| (species.id, species.members[ranking[0]].genome.clone()))
            .collect();
        if pop.evolve(&fitnesses, &table).is_err() {
            return;
        }
        for (id, elite) in &elites {
            if pop.species.iter().any(|species| species.id == *id) {
                assert!(pop.get_specimens().iter().any(|specimen| specimen.genome == *elite));
            }
        }
    }
}

#[test]
fn evolve_clears_the_innovations_of_the_last_generation() {
    let mut pop = Population::new(2, 1, 20).unwrap();
    let counter = pop.innovator.innovator.innov;
    let fitnesses = vec![1u64; 20];
    if pop.evolve(&fitnesses, &vec![]).is_ok() {
        assert!(pop.innovator.innovator.innov >= counter);
        for innov in pop.innovator.innovations.values() {
            assert!(*innov >= counter);
        }
        assert_eq!(pop.generation(), 1);
    }
}

#[test]
fn rank_members_scores_each_species() {
    let pop = Population::new(2, 1, 4).unwrap();
    let fitnesses = vec![4u64, 8, 2, 7];
    let (rankings, means) = rank_members(&pop.species, &fitnesses);
    assert_eq!(rankings.len(), pop.species.len());
    assert_eq!(means.len(), pop.species.len());
    let scale = (1u128 << 64) / 4;
    let mut offset = 0;
    for (at, species) in pop.species.iter().enumerate() {
        let own = &fitnesses[offset..offset + species.members.len()];
        let sum: u128 = own.iter().map(|fitness| *fitness as u128).sum();
        assert_eq!(means[at], sum * scale / own.len() as u128);
        let best = rankings[at][0];
        assert_eq!(own[best], *own.iter().max().unwrap());
        offset += species.members.len();
    }
}

#[test]
fn a_mean_below_one_still_counts() {
    let mut pop = Population::new(2, 1, 6).unwrap();
    let mut fitnesses = vec![0u64; 6];
    let at = pop.species[0].members.len() - 1;
    fitnesses[at] = 1;
    let (_, means) = rank_members(&pop.species, &fitnesses);
    assert!(means[0] > 0);
    assert!(means[1..].iter().all(|mean| *mean == 0));
    match pop.evolve(&fitnesses, &vec![]) {
        Ok(_) => {
            assert_eq!(pop.generation(), 1);
            assert!(pop.is_valid());
        }
        Err(error) => assert_eq!(error, TyrosineError::InvalidTopology),
    }
}

#[test]
fn parents_are_the_better_half() {
    let pop = Population::new(2, 1, 1).unwrap();
    let member = pop.species[0].members[0].clone();
    let mut species = Species::new(&member.genome, 0);
    for weight in 0..5i64 {
        let mut copy = member.clone();
        copy.genome.connection_genes.clear();
        copy.genome.connection_genes.push(tyrosine::genome::ConnectionGene {
            in_node: 1,
            out_node: 3,
            weight,
            enabled: true,
            innov: 0,
        });
        species.members.push(copy);
    }
    let parents = select_parents(&species, &vec![3, 1, 4, 0, 2]);
    let weights: Vec<i64> = parents.iter().map(|parent| parent.genome.connection_genes[0].weight).collect();
    assert_eq!(weights, vec![3, 1]);
    species.members.truncate(1);
    let only = select_parents(&species, &vec![0]);
    assert_eq!(only.len(), 1);
}

#[test]
fn drop_empty_keeps_inhabited_species_in_order() {
    let pop = Population::new(2, 1, 1).unwrap();
    let member = pop.species[0].members[0].clone();
    let mut species = Vec::new();
    for id in 0..5 {
        let mut one = Species::new(&member.genome, id);
        if id % 2 == 1 {
            one.members.push(member.clone());
        }
        species.push(one);
    }
    let kept = drop_empty(species);
    let ids: Vec<usize> = kept.iter().map(|species| species.id).collect();
    assert_eq!(ids, vec![1, 3]);
}

#[test]
fn drawing_a_generation_leaves_the_population_as_it_is() {
    let mut pop = Population::new(2, 1, 12).unwrap();
    let species = pop.species.clone();
    let counter = pop.species_counter.id;
    let next = pop.innovator.innovator.innov;
    let fitnesses: Vec<u64> = (1..=12).collect();
    let (registry, new_counter, drawn) = pop.draw_generation(&fitnesses, &vec![]).unwrap();
    assert!(same_generation(&pop.species, &species));
    assert_eq!(pop.species_counter.id, counter);
    assert_eq!(pop.innovator.innovator.innov, next);
    assert_eq!(pop.generation(), 0);
    assert!(pop.is_valid());
    assert!(registry.is_valid());
    assert!(registry.innovator.innov >= next);
    assert!(new_counter.id >= counter);
    let total: usize = drawn.iter().map(|species| species.members.len()).sum();
    assert_eq!(total, 12);
    assert_eq!(pop.draw_generation(&vec![0; 12], &vec![]).err(), Some(TyrosineError::EmptyPopulation));
}

#[test]
fn generations_are_compared_place_by_place() {
    let pop = Population::new(2, 1, 4).unwrap();
    let same = pop.species.clone();
    assert!(same_generation(&pop.species, &same));
    let mut fewer = pop.species.clone();
    fewer.pop();
    assert!(!same_generation(&pop.species, &fewer));
    let mut more_members = pop.species.clone();
    let extra = more_members[0].members[0].clone();
    more_members[0].members.push(extra);
    assert!(!same_generation(&pop.species, &more_members));
    let mut other_genome = pop.species.clone();
    other_genome[0].members[0].genome.num_outputs = 5;
    assert!(!same_generation(&pop.species, &other_genome));
    let mut other_id = pop.species.clone();
    other_id[0].id = 99;
    assert!(same_generation(&pop.species, &other_id));
}

#[test]
fn one_specimen_with_a_fitness_always_evolves() {
    for _ in 0..200 {
        let mut pop = Population::new(3, 2, 1).unwrap();
        for generation in 1..=5u64 {
            let draws = pop.evolve(&vec![7], &vec![WEIGHT_UNIT / 10]).unwrap();
            assert!(1 <= draws && draws <= 64);
            assert_eq!(pop.generation(), generation);
            assert_eq!(pop.get_specimens().len(), 1);
        }
    }
}

#[test]
fn genomes_without_connections_always_evolve() {
    let mut tried = 0;
    while tried < 50 {
        let mut pop = Population::new(2, 1, 8).unwrap();
        let bare = pop.get_specimens().iter().all(|specimen| specimen.genome.connection_genes.is_empty());
        if !bare {
            continue;
        }
        tried += 1;
        let draws = pop.evolve(&vec![1, 2, 3, 4, 5, 6, 7, 8], &vec![]).unwrap();
        assert!(draws >= 1);
        assert!(pop.is_valid());
        assert_eq!(pop.generation(), 1);
    }
}

#[test]
fn fewer_draws_than_the_limit_mean_a_change() {
    for _ in 0..300 {
        let mut pop = Population::new(2, 1, 4).unwrap();
        let before = pop.species.clone();
        let draws = pop.evolve(&vec![1, 1, 1, 1], &vec![]).unwrap();
        if draws < 64 {
            assert!(!same_generation(&before, &pop.species));
        }
    }
}

#[test]
fn the_cache_numbers_species_after_species() {
    let pop = Population::new(2, 1, 9).unwrap();
    let cache = build_cache(&pop.species);
    assert_eq!(cache.len(), 9);
    assert_eq!(count_specimens(&pop.species), Some(9));
    assert!(cache_is_current(&cache, &pop.species));
    let mut number = 0;
    for (at, species) in pop.species.iter().enumerate() {
        for member in 0..species.members.len() {
            assert_eq!(cache[&number], (at, member));
            number += 1;
        }
    }
    let mut other = cache.clone();
    other.insert(0, (0, 1));
    assert!(!cache_is_current(&other, &pop.species));
}
