use tyrosine::genome::{
    genes_by_innov, ConnectionGene, Genome, NodeGene, WeightChange, WeightDraw, PERTURBATION_STD, REPLACEMENT_RANGE,
    WEIGHT_UNIT,
};
use tyrosine::innovation::InnovationRegistry;

fn gene(in_node: usize, out_node: usize, weight: i64, enabled: bool, innov: usize) -> ConnectionGene {
    ConnectionGene { in_node, out_node, weight, enabled, innov }
}

fn genome_with(num_inputs: usize, num_outputs: usize, hidden: usize, genes: Vec<ConnectionGene>) -> Genome {
    let mut genome = Genome::new(num_inputs, num_outputs);
    for _ in 0..hidden {
        let id = genome.node_genes.len();
        genome.node_genes.push(NodeGene { id });
    }
    genome.connection_genes = genes;
    genome
}

#[test]
fn new_genome_has_bias_inputs_and_outputs() {
    let genome = Genome::new(2, 1);
    assert_eq!(genome.num_inputs, 3);
    assert_eq!(genome.num_outputs, 1);
    let ids: Vec<usize> = genome.node_genes.iter().map(|node| node.id).collect();
    assert_eq!(ids, vec![0, 1, 2, 3]);
    assert!(genome.connection_genes.is_empty());
    assert!(genome.is_valid());
}

#[test]
fn get_id_is_the_edge() {
    assert_eq!(gene(2, 5, 7, true, 9).get_id(), (2, 5));
}

#[test]
fn validity_rejects_broken_genomes() {
    let sound = genome_with(2, 1, 1, vec![gene(1, 4, 5, true, 0), gene(4, 3, 5, true, 1)]);
    assert!(sound.is_valid());
    let unknown_node = genome_with(2, 1, 0, vec![gene(1, 4, 5, true, 0)]);
    assert!(!unknown_node.is_valid());
    let into_input = genome_with(2, 1, 0, vec![gene(3, 1, 5, true, 0)]);
    assert!(!into_input.is_valid());
    let twice = genome_with(2, 1, 0, vec![gene(1, 3, 5, true, 0), gene(1, 3, 6, false, 1)]);
    assert!(!twice.is_valid());
    let unordered = genome_with(2, 1, 0, vec![gene(1, 3, 5, true, 4), gene(2, 3, 6, true, 4)]);
    assert!(!unordered.is_valid());
    let mut sparse = Genome::new(2, 1);
    sparse.node_genes[3] = NodeGene { id: 7 };
    assert!(!sparse.is_valid());
    let mut no_bias = Genome::new(2, 1);
    no_bias.num_inputs = 0;
    assert!(!no_bias.is_valid());
}

#[test]
fn candidates_exclude_inputs_outputs_and_joined_pairs() {
    let genome = genome_with(1, 2, 1, vec![gene(1, 4, WEIGHT_UNIT, true, 0)]);
    // nodes: 0 bias, 1 input, 2 and 3 outputs, 4 hidden
    assert_eq!(
        genome.connection_candidates(),
        vec![(0, 2), (0, 3), (0, 4), (1, 2), (1, 3), (2, 4), (3, 4)]
    );
}

#[test]
fn candidates_treat_disabled_and_reversed_edges_as_joined() {
    let genome = genome_with(1, 1, 1, vec![gene(3, 2, WEIGHT_UNIT, false, 0)]);
    // nodes: 0 bias, 1 input, 2 output, 3 hidden
    assert_eq!(genome.connection_candidates(), vec![(0, 2), (0, 3), (1, 2), (1, 3)]);
}

#[test]
fn add_connection_without_candidate_changes_nothing() {
    let mut genome = genome_with(
        1,
        1,
        0,
        vec![gene(0, 2, WEIGHT_UNIT, true, 0), gene(1, 2, WEIGHT_UNIT, false, 1)],
    );
    let before = genome.clone();
    let mut registry = InnovationRegistry::new();
    registry.innovator.innov = 2;
    let mut rng = rand::rng();
    genome.add_connection(&mut registry, &mut rng);
    assert_eq!(genome, before);
    assert_eq!(registry.innovator.innov, 2);
    assert!(registry.innovations.is_empty());
}

#[test]
fn add_connection_grows_a_candidate_with_weight_one() {
    for _ in 0..50 {
        let mut genome = Genome::new(2, 2);
        let candidates = genome.connection_candidates();
        let mut registry = InnovationRegistry::new();
        let mut rng = rand::rng();
        genome.add_connection(&mut registry, &mut rng);
        assert_eq!(genome.connection_genes.len(), 1);
        let grown = genome.connection_genes[0];
        assert!(candidates.contains(&(grown.in_node, grown.out_node)));
        assert!(grown.in_node < grown.out_node);
        assert_eq!(grown.weight, WEIGHT_UNIT);
        assert!(grown.enabled);
        assert_eq!(grown.innov, 0);
        assert_eq!(registry.lookup(grown.in_node, grown.out_node), Some(0));
        assert!(genome.is_valid());
    }
}

#[test]
fn two_genomes_that_grow_the_same_edge_share_its_number() {
    let mut registry = InnovationRegistry::new();
    let mut first = Genome::new(2, 1);
    let mut second = Genome::new(2, 1);
    assert!(first.grow_connection(1, 3, WEIGHT_UNIT, &mut registry));
    assert!(second.grow_connection(2, 3, WEIGHT_UNIT, &mut registry));
    assert!(second.grow_connection(1, 3, WEIGHT_UNIT, &mut registry));
    assert_eq!(first.connection_genes[0].innov, 0);
    assert_eq!(second.connection_genes[0], gene(1, 3, WEIGHT_UNIT, true, 0));
    assert_eq!(second.connection_genes[1], gene(2, 3, WEIGHT_UNIT, true, 1));
}

#[test]
fn grow_connection_refuses_a_number_already_carried() {
    let mut registry = InnovationRegistry::new();
    let mut genome = genome_with(2, 1, 0, vec![gene(1, 3, WEIGHT_UNIT, true, 0)]);
    let before = genome.clone();
    assert!(!genome.grow_connection(2, 3, WEIGHT_UNIT, &mut registry));
    assert_eq!(genome, before);
    assert_eq!(registry.lookup(2, 3), Some(0));
}

#[test]
fn split_connection_puts_a_node_on_the_edge() {
    let mut genome = genome_with(2, 1, 0, vec![gene(1, 3, 3 * WEIGHT_UNIT, true, 0)]);
    let mut registry = InnovationRegistry::new();
    registry.innovator.innov = 1;
    assert!(genome.split_connection(0, &mut registry));
    let ids: Vec<usize> = genome.node_genes.iter().map(|node| node.id).collect();
    assert_eq!(ids, vec![0, 1, 2, 3, 4]);
    assert_eq!(
        genome.connection_genes,
        vec![
            gene(1, 3, WEIGHT_UNIT, false, 0),
            gene(1, 4, 3 * WEIGHT_UNIT, true, 1),
            gene(4, 3, WEIGHT_UNIT, true, 2),
        ]
    );
    assert_eq!(registry.innovator.innov, 3);
    assert!(genome.is_valid());
}

#[test]
fn split_connection_keeps_genes_in_order_of_innovation() {
    let mut genome = genome_with(
        2,
        1,
        0,
        vec![gene(1, 3, 2 * WEIGHT_UNIT, true, 4), gene(2, 3, WEIGHT_UNIT, true, 9)],
    );
    let mut registry = InnovationRegistry::new();
    registry.innovator.innov = 5;
    assert!(genome.split_connection(0, &mut registry));
    let innovs: Vec<usize> = genome.connection_genes.iter().map(|gene| gene.innov).collect();
    assert_eq!(innovs, vec![4, 5, 6, 9]);
    assert!(genome.is_valid());
}

#[test]
fn add_node_without_enabled_connection_changes_nothing() {
    let mut genome = genome_with(2, 1, 0, vec![gene(1, 3, WEIGHT_UNIT, false, 0)]);
    let before = genome.clone();
    let mut registry = InnovationRegistry::new();
    registry.innovator.innov = 1;
    let mut rng = rand::rng();
    genome.add_node(&mut registry, &mut rng);
    assert_eq!(genome, before);
    let mut empty = Genome::new(2, 1);
    empty.add_node(&mut registry, &mut rng);
    assert_eq!(empty, Genome::new(2, 1));
    assert_eq!(registry.innovator.innov, 1);
}

#[test]
fn add_node_splits_an_enabled_connection() {
    for _ in 0..50 {
        let mut genome = genome_with(
            2,
            1,
            0,
            vec![gene(1, 3, WEIGHT_UNIT, false, 0), gene(2, 3, 2 * WEIGHT_UNIT, true, 1)],
        );
        let mut registry = InnovationRegistry::new();
        registry.innovator.innov = 2;
        let mut rng = rand::rng();
        genome.add_node(&mut registry, &mut rng);
        assert_eq!(
            genome.connection_genes,
            vec![
                gene(1, 3, WEIGHT_UNIT, false, 0),
                gene(2, 3, WEIGHT_UNIT, false, 1),
                gene(2, 4, 2 * WEIGHT_UNIT, true, 2),
                gene(4, 3, WEIGHT_UNIT, true, 3),
            ]
        );
    }
}

#[test]
fn redrawn_gene_follows_the_draw() {
    let start = gene(1, 3, 10, true, 0);
    let kept = start.redrawn(WeightDraw { toggle: false, change: WeightChange::Keep });
    assert_eq!(kept, start);
    let toggled = start.redrawn(WeightDraw { toggle: true, change: WeightChange::Keep });
    assert_eq!(toggled, gene(1, 3, 10, false, 0));
    let nudged = start.redrawn(WeightDraw { toggle: false, change: WeightChange::Perturb(-25) });
    assert_eq!(nudged, gene(1, 3, -15, true, 0));
    let replaced = start.redrawn(WeightDraw { toggle: true, change: WeightChange::Replace(77) });
    assert_eq!(replaced, gene(1, 3, 77, false, 0));
}

#[test]
fn nudges_stop_at_the_ends_of_the_range() {
    let high = gene(1, 3, i64::MAX - 1, true, 0);
    let up = high.redrawn(WeightDraw { toggle: false, change: WeightChange::Perturb(5) });
    assert_eq!(up.weight, i64::MAX);
    let low = gene(1, 3, i64::MIN + 1, true, 0);
    let down = low.redrawn(WeightDraw { toggle: false, change: WeightChange::Perturb(-5) });
    assert_eq!(down.weight, i64::MIN);
}

#[test]
fn redraw_weights_applies_each_draw_to_its_gene() {
    let mut genome = genome_with(2, 1, 0, vec![gene(1, 3, 10, true, 0), gene(2, 3, 20, false, 1)]);
    let draws = vec![
        WeightDraw { toggle: false, change: WeightChange::Perturb(1) },
        WeightDraw { toggle: true, change: WeightChange::Replace(-4) },
    ];
    genome.redraw_weights(&draws);
    assert_eq!(genome.connection_genes, vec![gene(1, 3, 11, true, 0), gene(2, 3, -4, true, 1)]);
}

#[test]
fn draws_decide_what_happens_to_a_connection() {
    let table = vec![-3, 8];
    let keep = WeightDraw::from_draws(true, false, true, 1, 7, &table);
    assert_eq!(keep, WeightDraw { toggle: true, change: WeightChange::Keep });
    let nudge = WeightDraw::from_draws(false, true, true, 1, 7, &table);
    assert_eq!(nudge, WeightDraw { toggle: false, change: WeightChange::Perturb(8) });
    let lowest = WeightDraw::from_draws(false, true, false, 1, 0, &table);
    assert_eq!(lowest, WeightDraw { toggle: false, change: WeightChange::Replace(-5 * WEIGHT_UNIT) });
    let highest = WeightDraw::from_draws(false, true, false, 1, 10 * WEIGHT_UNIT as u64 - 1, &table);
    assert_eq!(highest, WeightDraw { toggle: false, change: WeightChange::Replace(5 * WEIGHT_UNIT - 1) });
    let nothing = WeightDraw::from_draws(false, true, true, 0, 7, &vec![]);
    assert_eq!(nothing, WeightDraw { toggle: false, change: WeightChange::Perturb(0) });
    assert_eq!(REPLACEMENT_RANGE, 5 * WEIGHT_UNIT);
}

#[test]
fn the_deviation_of_a_nudge_is_a_tenth() {
    let tenth = PERTURBATION_STD as f64 / WEIGHT_UNIT as f64;
    assert!((tenth - 0.1).abs() < 1e-9);
    assert_eq!((0.1 * WEIGHT_UNIT as f64).round() as i64, PERTURBATION_STD);
}

#[test]
fn random_draws_are_admissible() {
    let mut rng = rand::rng();
    let table = vec![-3, 8];
    let mut seen_perturb = false;
    let mut seen_replace = false;
    for _ in 0..2000 {
        match WeightDraw::random(&mut rng, &table).change {
            WeightChange::Keep => {}
            WeightChange::Perturb(amount) => {
                seen_perturb = true;
                assert!(table.contains(&amount));
            }
            WeightChange::Replace(weight) => {
                seen_replace = true;
                assert!(-REPLACEMENT_RANGE <= weight && weight < REPLACEMENT_RANGE);
            }
        }
    }
    assert!(seen_perturb);
    assert!(seen_replace);
    let empty: Vec<i64> = Vec::new();
    for _ in 0..200 {
        if let WeightChange::Perturb(amount) = WeightDraw::random(&mut rng, &empty).change {
            assert_eq!(amount, 0);
        }
    }
}

#[test]
fn weight_mutation_keeps_the_structure() {
    let mut rng = rand::rng();
    let table = vec![WEIGHT_UNIT / 10, -WEIGHT_UNIT / 10];
    let mut genome =
        genome_with(2, 1, 1, vec![gene(1, 4, WEIGHT_UNIT, true, 0), gene(4, 3, WEIGHT_UNIT, true, 1)]);
    let before = genome.clone();
    genome.mutate_weights_and_toggle(&mut rng, &table);
    assert_eq!(genome.node_genes, before.node_genes);
    assert_eq!(genome.connection_genes.len(), 2);
    for (now, then) in genome.connection_genes.iter().zip(before.connection_genes.iter()) {
        assert_eq!(now.get_id(), then.get_id());
        assert_eq!(now.innov, then.innov);
    }
    assert!(genome.is_valid());
}

#[test]
fn mutation_keeps_the_genome_valid() {
    let mut rng = rand::rng();
    let table = vec![WEIGHT_UNIT / 10, -WEIGHT_UNIT / 10];
    let mut registry = InnovationRegistry::new();
    let mut genome = Genome::new(3, 2);
    for _ in 0..300 {
        let nodes = genome.node_genes.len();
        let genes = genome.connection_genes.len();
        genome.mutate(&mut registry, &mut rng, &table);
        assert!(genome.is_valid());
        assert_eq!(genome.num_inputs, 4);
        assert_eq!(genome.num_outputs, 2);
        assert!(genome.node_genes.len() == nodes || genome.node_genes.len() == nodes + 1);
        assert!(genome.connection_genes.len() >= genes);
        assert!(genome.connection_genes.len() <= genes + 3);
    }
    assert!(!genome.connection_genes.is_empty());
}

#[test]
fn crossover_takes_structure_from_the_fitter_parent() {
    let fit = genome_with(
        2,
        1,
        1,
        vec![gene(1, 3, 10, true, 0), gene(1, 4, 11, true, 2), gene(4, 3, 12, false, 5)],
    );
    let unfit = genome_with(
        2,
        1,
        2,
        vec![gene(1, 3, 20, false, 0), gene(2, 3, 21, true, 1), gene(4, 3, 22, true, 5), gene(2, 5, 23, true, 7)],
    );
    let from_fit = Genome::crossover_with(&fit, &unfit, &vec![false, false, false]);
    assert_eq!(from_fit, fit);
    let from_unfit = Genome::crossover_with(&fit, &unfit, &vec![true, true, true]);
    assert_eq!(from_unfit.node_genes, fit.node_genes);
    assert_eq!(from_unfit.num_inputs, 3);
    assert_eq!(from_unfit.num_outputs, 1);
    assert_eq!(
        from_unfit.connection_genes,
        vec![gene(1, 3, 20, false, 0), gene(1, 4, 11, true, 2), gene(4, 3, 22, true, 5)]
    );
    assert!(from_unfit.is_valid());
}

#[test]
fn crossover_ignores_a_gene_that_carries_the_number_for_another_edge() {
    let fit = genome_with(2, 1, 0, vec![gene(1, 3, 10, true, 0)]);
    let unfit = genome_with(2, 1, 0, vec![gene(2, 3, 20, true, 0)]);
    let child = Genome::crossover_with(&fit, &unfit, &vec![true]);
    assert_eq!(child, fit);
}

#[test]
fn random_crossover_drops_genes_of_the_less_fit_parent() {
    let mut rng = rand::rng();
    let fit = genome_with(2, 1, 0, vec![gene(1, 3, 10, true, 0), gene(0, 3, 11, true, 4)]);
    let unfit = genome_with(2, 1, 0, vec![gene(1, 3, 20, true, 0), gene(2, 3, 21, true, 1)]);
    let mut seen_fit = false;
    let mut seen_unfit = false;
    for _ in 0..200 {
        let child = Genome::crossover(&fit, &unfit, &mut rng);
        let innovs: Vec<usize> = child.connection_genes.iter().map(|gene| gene.innov).collect();
        assert_eq!(innovs, vec![0, 4]);
        assert_eq!(child.connection_genes[1], gene(0, 3, 11, true, 4));
        match child.connection_genes[0].weight {
            10 => seen_fit = true,
            20 => seen_unfit = true,
            other => panic!("weight {} comes from neither parent", other),
        }
    }
    assert!(seen_fit);
    assert!(seen_unfit);
}

#[test]
fn same_as_compares_every_part() {
    let genome = genome_with(2, 1, 1, vec![gene(1, 4, 5, true, 0), gene(4, 3, 6, false, 1)]);
    assert!(genome.same_as(&genome.clone()));
    let mut other = genome.clone();
    other.connection_genes[1].weight = 7;
    assert!(!genome.same_as(&other));
    let mut other = genome.clone();
    other.connection_genes[0].enabled = false;
    assert!(!genome.same_as(&other));
    let mut other = genome.clone();
    other.node_genes[4] = NodeGene { id: 9 };
    assert!(!genome.same_as(&other));
    let mut other = genome.clone();
    other.num_inputs = 2;
    assert!(!genome.same_as(&other));
    let mut other = genome.clone();
    other.connection_genes.pop();
    assert!(!genome.same_as(&other));
}

#[test]
fn genes_are_found_by_their_number() {
    let genes = vec![gene(1, 3, 5, true, 0), gene(2, 3, 6, true, 4), gene(0, 3, 7, false, 4)];
    let by_number = genes_by_innov(&genes);
    assert_eq!(by_number.len(), 2);
    assert_eq!(by_number[&0], gene(1, 3, 5, true, 0));
    assert_eq!(by_number[&4], gene(0, 3, 7, false, 4));
    assert!(!by_number.contains_key(&1));
}
