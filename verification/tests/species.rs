use tyrosine::errors::TyrosineError;
use tyrosine::genome::{ConnectionGene, Genome, WEIGHT_UNIT};
use tyrosine::innovation::InnovationRegistry;
use tyrosine::phenotype::Phenotype;
use tyrosine::species::{GeneticDistance, Species, SpeciesCounter};

fn gene(in_node: usize, out_node: usize, weight: i64, enabled: bool, innov: usize) -> ConnectionGene {
    ConnectionGene { in_node, out_node, weight, enabled, innov }
}

fn genome_with(genes: Vec<ConnectionGene>) -> Genome {
    let mut genome = Genome::new(2, 1);
    genome.connection_genes = genes;
    genome
}

fn phenotype_with(genes: Vec<ConnectionGene>) -> Phenotype {
    Phenotype::from_genome(genome_with(genes)).unwrap()
}

fn quarter(units: i64) -> i64 {
    units * (WEIGHT_UNIT / 4)
}

#[test]
fn species_counter_counts_from_zero() {
    let mut counter = SpeciesCounter::new();
    assert_eq!(counter.next(), 0);
    assert_eq!(counter.next(), 1);
    assert_eq!(counter.id, 2);
}

#[test]
fn new_species_copies_the_genome() {
    let genome = genome_with(vec![gene(1, 3, 5, true, 0)]);
    let species = Species::new(&genome, 7);
    assert_eq!(species.id, 7);
    assert_eq!(species.type_specimen, genome);
    assert!(species.members.is_empty());
    assert_eq!(species.species_fitness, None);
}

#[test]
fn distance_counts_matching_disjoint_and_excess() {
    let first = genome_with(vec![
        gene(0, 3, 2 * WEIGHT_UNIT, true, 1),
        gene(1, 3, WEIGHT_UNIT, true, 2),
        gene(2, 3, WEIGHT_UNIT, true, 6),
    ]);
    let second = genome_with(vec![
        gene(0, 3, -WEIGHT_UNIT, true, 1),
        gene(2, 3, WEIGHT_UNIT, true, 3),
        gene(1, 3, WEIGHT_UNIT, true, 4),
    ]);
    let distance = Species::compatibility_distance(&first, &second);
    assert_eq!(
        distance,
        GeneticDistance { excess: 1, disjoint: 3, matching: 1, weight_gap: 3 * WEIGHT_UNIT as u128 }
    );
    // 1/5 + 3/5 + 0.4 * 3 = 2.0
    assert!(distance.is_compatible());
    let back = Species::compatibility_distance(&second, &first);
    assert_eq!(back, distance);
}

#[test]
fn distance_without_matching_gene_is_never_compatible() {
    let empty = genome_with(vec![]);
    let distance = Species::compatibility_distance(&empty, &empty);
    assert_eq!(distance, GeneticDistance { excess: 0, disjoint: 0, matching: 0, weight_gap: 0 });
    assert!(!distance.is_compatible());
    let one = genome_with(vec![gene(1, 3, 0, true, 0)]);
    let other = genome_with(vec![gene(2, 3, 0, true, 1)]);
    let apart = Species::compatibility_distance(&one, &other);
    assert_eq!(apart, GeneticDistance { excess: 1, disjoint: 1, matching: 0, weight_gap: 0 });
    assert!(!apart.is_compatible());
}

#[test]
fn distance_to_an_empty_genome_counts_number_zero_as_disjoint() {
    let empty = genome_with(vec![]);
    let two = genome_with(vec![gene(1, 3, 0, true, 0), gene(2, 3, 0, true, 1)]);
    let distance = Species::compatibility_distance(&two, &empty);
    assert_eq!(distance, GeneticDistance { excess: 1, disjoint: 1, matching: 0, weight_gap: 0 });
}

#[test]
fn threshold_is_three() {
    let same = GeneticDistance { excess: 0, disjoint: 0, matching: 1, weight_gap: 0 };
    assert!(same.is_compatible());
    // 0.4 * 7.5 = 3.0 exactly: not below the threshold
    let at = GeneticDistance {
        excess: 0,
        disjoint: 0,
        matching: 2,
        weight_gap: 15 * WEIGHT_UNIT as u128,
    };
    assert!(!at.is_compatible());
    let just_below = GeneticDistance {
        excess: 0,
        disjoint: 0,
        matching: 2,
        weight_gap: 15 * WEIGHT_UNIT as u128 - 2,
    };
    assert!(just_below.is_compatible());
    // 2/4 + 1/4 + 0.4 * 5.5 = 2.95
    let mixed = GeneticDistance {
        excess: 2,
        disjoint: 1,
        matching: 1,
        weight_gap: 11 * (WEIGHT_UNIT as u128 / 2),
    };
    assert!(mixed.is_compatible());
    // 2/4 + 1/4 + 0.4 * 5.75 = 3.05
    let beyond = GeneticDistance {
        excess: 2,
        disjoint: 1,
        matching: 1,
        weight_gap: 23 * (WEIGHT_UNIT as u128 / 4),
    };
    assert!(!beyond.is_compatible());
}

#[test]
fn threshold_is_tested_on_the_exact_mean() {
    // 1/6 + 0.4 * (g / 5) against 3: below exactly when 12 * g < 425 units
    let limit = 425 * WEIGHT_UNIT as u128;
    let below = GeneticDistance { excess: 1, disjoint: 0, matching: 5, weight_gap: 152113425066 };
    assert!(12 * below.weight_gap < limit);
    assert!(below.is_compatible());
    let beyond = GeneticDistance { excess: 0, disjoint: 1, matching: 5, weight_gap: 152113425067 };
    assert!(12 * beyond.weight_gap >= limit);
    assert!(!beyond.is_compatible());
    // with three matching genes 22.5 units are the limit
    let odd = GeneticDistance {
        excess: 0,
        disjoint: 0,
        matching: 3,
        weight_gap: 45 * (WEIGHT_UNIT as u128 / 2) - 1,
    };
    assert!(odd.is_compatible());
    let large = GeneticDistance {
        excess: 1 << 64,
        disjoint: 1 << 64,
        matching: 1 << 65,
        weight_gap: 5 * (1u128 << 65) * WEIGHT_UNIT as u128 - 1,
    };
    // 1/2 + 0.4 * w with w just below 5 units: just below 2.5
    assert!(large.is_compatible());
    let large_beyond = GeneticDistance {
        excess: 1 << 64,
        disjoint: 1 << 64,
        matching: 1 << 65,
        weight_gap: 25 * (1u128 << 63) * WEIGHT_UNIT as u128,
    };
    // 1/2 + 0.4 * 6.25 = 3.0
    assert!(!large_beyond.is_compatible());
    let large_near = GeneticDistance { weight_gap: large_beyond.weight_gap - 1, ..large_beyond };
    assert!(large_near.is_compatible());
}

#[test]
fn a_single_slot_takes_the_elite_alone() {
    let mut rng = rand::rng();
    let mut registry = InnovationRegistry::new();
    registry.innovator.innov = 5;
    let first = phenotype_with(vec![gene(1, 3, WEIGHT_UNIT, true, 0)]);
    let second = phenotype_with(vec![gene(2, 3, WEIGHT_UNIT, true, 1)]);
    let mut species = Species::new(&first.genome, 0);
    species.members.push(first.clone());
    species.members.push(second);
    for _ in 0..50 {
        assert_eq!(species.populate(1, &mut registry, &mut rng, &vec![]), Ok(vec![first.clone()]));
    }
    assert_eq!(registry.innovator.innov, 5);
}

#[test]
fn speciation_threshold() {
    let mut rng = rand::rng();
    // 0.4 * 7.25 = 2.9
    let near = vec![
        phenotype_with(vec![gene(1, 3, 0, true, 0)]),
        phenotype_with(vec![gene(1, 3, quarter(29), true, 0)]),
    ];
    let distance = Species::compatibility_distance(&near[0].genome, &near[1].genome);
    assert_eq!(distance.weight_gap * 4, 29 * WEIGHT_UNIT as u128);
    let mut species: Vec<Species> = Vec::new();
    let mut counter = SpeciesCounter::new();
    Species::sort_species(&mut species, near, &mut counter, &mut rng);
    assert_eq!(species.len(), 1);
    assert_eq!(species[0].members.len(), 2);
    assert_eq!(counter.id, 1);

    // 0.4 * 7.75 = 3.1
    let far = vec![
        phenotype_with(vec![gene(1, 3, 0, true, 0)]),
        phenotype_with(vec![gene(1, 3, quarter(31), true, 0)]),
    ];
    let mut species: Vec<Species> = Vec::new();
    let mut counter = SpeciesCounter::new();
    Species::sort_species(&mut species, far, &mut counter, &mut rng);
    assert_eq!(species.len(), 2);
    assert_eq!(species[0].members.len(), 1);
    assert_eq!(species[1].members.len(), 1);
    assert_eq!(species[0].id, 0);
    assert_eq!(species[1].id, 1);
    assert_eq!(counter.id, 2);
}

#[test]
fn place_goes_to_the_first_species_that_accepts() {
    let base = genome_with(vec![gene(1, 3, 0, true, 0)]);
    let distant = genome_with(vec![gene(1, 3, 10 * WEIGHT_UNIT, true, 0)]);
    let mut species = vec![Species::new(&distant, 0), Species::new(&base, 1), Species::new(&base, 2)];
    let mut counter = SpeciesCounter { id: 3 };
    let newcomer = phenotype_with(vec![gene(1, 3, WEIGHT_UNIT, true, 0)]);
    Species::place(&mut species, newcomer.clone(), &vec![0, 2, 1], &mut counter);
    assert_eq!(species.len(), 3);
    assert!(species[0].members.is_empty());
    assert!(species[1].members.is_empty());
    assert_eq!(species[2].members, vec![newcomer]);
    assert_eq!(counter.id, 3);
}

#[test]
fn place_founds_a_species_when_none_accepts() {
    let distant = genome_with(vec![gene(1, 3, 10 * WEIGHT_UNIT, true, 0)]);
    let mut species = vec![Species::new(&distant, 4)];
    let mut counter = SpeciesCounter { id: 5 };
    let newcomer = phenotype_with(vec![gene(1, 3, WEIGHT_UNIT, true, 0)]);
    Species::place(&mut species, newcomer.clone(), &vec![0], &mut counter);
    assert_eq!(species.len(), 2);
    assert!(species[0].members.is_empty());
    assert_eq!(species[1].id, 5);
    assert_eq!(species[1].type_specimen, newcomer.genome);
    assert_eq!(species[1].members, vec![newcomer]);
    assert_eq!(counter.id, 6);
}

#[test]
fn sorting_places_every_phenotype_once() {
    let mut rng = rand::rng();
    let mut phenotypes = Vec::new();
    for step in 0..40i64 {
        phenotypes.push(phenotype_with(vec![gene(1, 3, step * WEIGHT_UNIT, true, 0)]));
    }
    let seed = genome_with(vec![gene(1, 3, 0, true, 0)]);
    let mut species = vec![Species::new(&seed, 0)];
    let mut counter = SpeciesCounter { id: 1 };
    Species::sort_species(&mut species, phenotypes.clone(), &mut counter, &mut rng);
    let mut placed: Vec<i64> = species
        .iter()
        .flat_map(|species| species.members.iter().map(|member| member.genome.connection_genes[0].weight))
        .collect();
    placed.sort();
    let expected: Vec<i64> = (0..40i64).map(|step| step * WEIGHT_UNIT).collect();
    assert_eq!(placed, expected);
    assert_eq!(counter.id, species.len());
    for (at, one) in species.iter().enumerate() {
        assert_eq!(one.id, at);
        let from = if at == 0 { 0 } else { 1 };
        for member in &one.members[from..] {
            assert!(one.accepts(&member.genome));
        }
        if at > 0 {
            assert_eq!(one.type_specimen, one.members[0].genome);
        }
    }
}

#[test]
fn type_specimen_is_drawn_from_the_members() {
    let mut rng = rand::rng();
    let seed = genome_with(vec![gene(1, 3, 0, true, 0)]);
    let mut species = Species::new(&seed, 0);
    species.choose_type_specimen(&mut rng);
    assert_eq!(species.type_specimen, seed);
    species.members.push(phenotype_with(vec![gene(1, 3, 1, true, 0)]));
    species.members.push(phenotype_with(vec![gene(1, 3, 2, true, 0)]));
    for _ in 0..20 {
        species.choose_type_specimen(&mut rng);
        let weight = species.type_specimen.connection_genes[0].weight;
        assert!(weight == 1 || weight == 2);
        assert_eq!(species.members.len(), 2);
        assert_eq!(species.id, 0);
    }
}

#[test]
fn parents_are_two_different_members_in_rank_order() {
    let mut rng = rand::rng();
    let mut seen = std::collections::HashSet::new();
    for _ in 0..300 {
        let (fit, unfit) = Species::draw_parents(3, &mut rng);
        assert!(fit < unfit && unfit < 3);
        seen.insert((fit, unfit));
    }
    assert_eq!(seen.len(), 3);
    assert_eq!(Species::draw_parents(2, &mut rng), (0, 1));
}

#[test]
fn single_member_breeds_by_mutation_alone() {
    let mut rng = rand::rng();
    let table = vec![WEIGHT_UNIT / 10];
    let mut registry = InnovationRegistry::new();
    registry.innovator.innov = 1;
    let parent = phenotype_with(vec![gene(1, 3, WEIGHT_UNIT, true, 0)]);
    let mut species = Species::new(&parent.genome, 0);
    species.members.push(parent.clone());
    let children = species.populate(6, &mut registry, &mut rng, &table).unwrap();
    assert_eq!(children.len(), 6);
    assert_eq!(children[0], parent);
    for child in &children {
        assert!(child.genome.is_valid());
        assert_eq!(child.genome.num_inputs, 3);
        assert_eq!(child.genome.num_outputs, 1);
        assert!(child.genome.has_innov(0));
    }
}

#[test]
fn several_members_breed_by_crossover() {
    let mut rng = rand::rng();
    let table: Vec<i64> = Vec::new();
    let mut registry = InnovationRegistry::new();
    registry.innovator.innov = 10;
    let best = phenotype_with(vec![gene(1, 3, WEIGHT_UNIT, true, 0), gene(2, 3, WEIGHT_UNIT, true, 3)]);
    let worst = phenotype_with(vec![gene(1, 3, WEIGHT_UNIT, true, 0), gene(0, 3, WEIGHT_UNIT, true, 7)]);
    let mut species = Species::new(&best.genome, 0);
    species.members.push(best.clone());
    species.members.push(worst);
    let children = species.populate(30, &mut registry, &mut rng, &table).unwrap();
    assert_eq!(children.len(), 30);
    assert_eq!(children[0], best);
    for child in &children[1..] {
        assert!(child.genome.has_innov(0));
        assert!(child.genome.has_innov(3));
        assert!(!child.genome.has_innov(7));
    }
}

#[test]
fn populate_can_only_fail_with_invalid_topology() {
    let mut rng = rand::rng();
    let table: Vec<i64> = Vec::new();
    let mut registry = InnovationRegistry::new();
    registry.innovator.innov = 2;
    let parent = phenotype_with(vec![gene(1, 3, WEIGHT_UNIT, true, 0)]);
    let mut species = Species::new(&parent.genome, 0);
    species.members.push(parent);
    match species.populate(1, &mut registry, &mut rng, &table) {
        Ok(children) => assert_eq!(children.len(), 1),
        Err(error) => assert_eq!(error, TyrosineError::InvalidTopology),
    }
}
