use tyrosine::errors::TyrosineError;
use tyrosine::genome::{ConnectionGene, Genome, NodeGene, WEIGHT_UNIT};
use tyrosine::innovation::InnovationRegistry;
use tyrosine::phenotype::{topological_order, ActivationPlan, Phenotype, Preset};

fn gene(in_node: usize, out_node: usize, weight: i64, enabled: bool, innov: usize) -> ConnectionGene {
    ConnectionGene { in_node, out_node, weight, enabled, innov }
}

fn genome_with(num_inputs: usize, num_outputs: usize, hidden: usize, genes: Vec<ConnectionGene>) -> Genome {
    let mut genome = Genome::new(num_inputs, num_outputs);
    for _ in 0..hidden {
        let id = genome.node_genes.len();
        genome.node_genes.push(NodeGene { id });
    }
    genome.connection_genes = genes;
    genome
}

fn is_topological(genome: &Genome, order: &[usize]) -> bool {
    let mut sorted = order.to_vec();
    sorted.sort();
    let all: Vec<usize> = (0..genome.node_genes.len()).collect();
    if sorted != all {
        return false;
    }
    genome.connection_genes.iter().filter(|gene| gene.enabled).all(|gene| {
        let from = order.iter().position(|node| *node == gene.in_node).unwrap();
        let to = order.iter().position(|node| *node == gene.out_node).unwrap();
        from < to
    })
}

fn evaluate(plan: &ActivationPlan, inputs: &[f64]) -> Vec<f64> {
    let mut values: std::collections::HashMap<usize, f64> = std::collections::HashMap::new();
    for (node, preset) in plan.presets.iter().enumerate() {
        let value = match preset {
            Preset::Bias => 1.0,
            Preset::Input(at) => inputs[*at],
        };
        values.insert(node, value);
    }
    for step in &plan.steps {
        let mut sum = 0.0;
        for (source, weight) in &step.terms {
            let value = values.get(source).copied().unwrap_or(0.0);
            sum += value * (*weight as f64 / WEIGHT_UNIT as f64);
        }
        values.insert(step.node, sum.tanh());
    }
    plan.outputs.iter().map(|node| values.get(node).copied().unwrap_or(0.0)).collect()
}

#[test]
fn cycle_is_rejected() {
    let genome = genome_with(
        2,
        1,
        2,
        vec![
            gene(1, 4, WEIGHT_UNIT, true, 0),
            gene(4, 5, WEIGHT_UNIT, true, 1),
            gene(5, 4, WEIGHT_UNIT, true, 2),
        ],
    );
    assert!(genome.is_valid());
    assert_eq!(topological_order(&genome), None);
    assert_eq!(Phenotype::from_genome(genome).err(), Some(TyrosineError::InvalidTopology));
}

#[test]
fn disabled_edge_breaks_the_cycle() {
    let genome = genome_with(
        2,
        1,
        2,
        vec![
            gene(1, 4, WEIGHT_UNIT, true, 0),
            gene(4, 5, WEIGHT_UNIT, true, 1),
            gene(5, 4, WEIGHT_UNIT, false, 2),
        ],
    );
    let phenotype = Phenotype::from_genome(genome.clone()).unwrap();
    assert_eq!(phenotype.genome, genome);
    assert!(is_topological(&genome, &phenotype.toposorted_nodes));
}

#[test]
fn self_loop_is_rejected() {
    let genome = genome_with(2, 1, 0, vec![gene(3, 3, WEIGHT_UNIT, true, 0)]);
    assert_eq!(Phenotype::from_genome(genome).err(), Some(TyrosineError::InvalidTopology));
}

#[test]
fn invalid_genome_is_rejected_before_sorting() {
    let genome = genome_with(2, 1, 0, vec![gene(1, 9, WEIGHT_UNIT, true, 0)]);
    assert_eq!(Phenotype::from_genome(genome).err(), Some(TyrosineError::InvalidGenome));
    let into_bias = genome_with(2, 1, 0, vec![gene(3, 0, WEIGHT_UNIT, true, 0)]);
    assert_eq!(Phenotype::from_genome(into_bias).err(), Some(TyrosineError::InvalidGenome));
}

#[test]
fn order_without_connections_is_by_id() {
    let phenotype = Phenotype::from_genome(Genome::new(2, 1)).unwrap();
    assert_eq!(phenotype.toposorted_nodes, vec![0, 1, 2, 3]);
}

#[test]
fn kahn_order_works_off_the_frontier_first_in_first_out() {
    // 1 -> 5 -> 4 -> 3 and 2 -> 4
    let genome = genome_with(
        2,
        1,
        2,
        vec![
            gene(1, 5, WEIGHT_UNIT, true, 0),
            gene(5, 4, WEIGHT_UNIT, true, 1),
            gene(4, 3, WEIGHT_UNIT, true, 2),
            gene(2, 4, WEIGHT_UNIT, true, 3),
        ],
    );
    let phenotype = Phenotype::from_genome(genome.clone()).unwrap();
    assert_eq!(phenotype.toposorted_nodes, vec![0, 1, 2, 5, 4, 3]);
    assert!(is_topological(&genome, &phenotype.toposorted_nodes));
}

#[test]
fn retry_loop_returns_a_valid_phenotype() {
    let mut rng = rand::rng();
    let table = vec![WEIGHT_UNIT / 10, -WEIGHT_UNIT / 10];
    let mut registry = InnovationRegistry::new();
    let mut genome = Genome::new(2, 1);
    for _ in 0..200 {
        let phenotype = Phenotype::from_mutation(&genome, &mut registry, &mut rng, &table).unwrap();
        assert!(phenotype.genome.is_valid());
        assert!(is_topological(&phenotype.genome, &phenotype.toposorted_nodes));
        assert_eq!(phenotype.genome.num_inputs, 3);
        assert_eq!(phenotype.genome.num_outputs, 1);
        genome = phenotype.genome;
    }
}

#[test]
fn a_genome_without_connections_always_mutates_into_a_phenotype() {
    let mut rng = rand::rng();
    let mut registry = InnovationRegistry::new();
    let genome = Genome::new(2, 2);
    let mut with_connection = 0;
    let mut with_node = 0;
    for _ in 0..3000 {
        let phenotype = Phenotype::from_mutation(&genome, &mut registry, &mut rng, &vec![]).unwrap();
        assert!(phenotype.is_valid());
        assert!(phenotype.genome.connection_genes.len() <= 3);
        if !phenotype.genome.connection_genes.is_empty() {
            with_connection += 1;
        }
        if phenotype.genome.node_genes.len() == 6 {
            with_node += 1;
            assert_eq!(phenotype.genome.connection_genes.len(), 3);
        }
    }
    assert!(with_connection > 0);
    assert!(with_node > 0);
}

#[test]
fn validity_test_of_a_phenotype() {
    let genome = genome_with(
        2,
        1,
        1,
        vec![gene(1, 4, WEIGHT_UNIT, true, 0), gene(4, 3, WEIGHT_UNIT, true, 1)],
    );
    let sound = Phenotype { genome: genome.clone(), toposorted_nodes: vec![1, 0, 4, 2, 3] };
    assert!(sound.is_valid());
    let backwards = Phenotype { genome: genome.clone(), toposorted_nodes: vec![0, 1, 2, 3, 4] };
    assert!(!backwards.is_valid());
    let twice = Phenotype { genome: genome.clone(), toposorted_nodes: vec![0, 1, 4, 4, 3] };
    assert!(!twice.is_valid());
    let short = Phenotype { genome: genome.clone(), toposorted_nodes: vec![0, 1, 4, 3] };
    assert!(!short.is_valid());
    let unknown = Phenotype { genome: genome.clone(), toposorted_nodes: vec![0, 1, 4, 9, 3] };
    assert!(!unknown.is_valid());
    let mut broken = genome.clone();
    broken.connection_genes[0].out_node = 9;
    let invalid = Phenotype { genome: broken, toposorted_nodes: vec![0, 1, 4, 2, 3] };
    assert!(!invalid.is_valid());
    let disabled = genome_with(2, 1, 1, vec![gene(1, 4, WEIGHT_UNIT, false, 0)]);
    let any_order = Phenotype { genome: disabled, toposorted_nodes: vec![4, 3, 2, 1, 0] };
    assert!(any_order.is_valid());
}

#[test]
fn activation_identity() {
    let genome = genome_with(2, 1, 0, vec![gene(0, 3, 0, true, 0)]);
    let phenotype = Phenotype::from_genome(genome).unwrap();
    let plan = phenotype.activation_plan(2).unwrap();
    assert_eq!(evaluate(&plan, &[0.5, -0.5]), vec![0.0]);
}

#[test]
fn activation_linear() {
    let genome = genome_with(
        2,
        1,
        0,
        vec![gene(1, 3, WEIGHT_UNIT, true, 0), gene(2, 3, -WEIGHT_UNIT, true, 1)],
    );
    let phenotype = Phenotype::from_genome(genome).unwrap();
    let plan = phenotype.activation_plan(2).unwrap();
    let output = evaluate(&plan, &[0.5, 0.25]);
    assert_eq!(output.len(), 1);
    assert!((output[0] - 0.25f64.tanh()).abs() < 1e-12);
    assert!((output[0] - 0.2449).abs() < 1e-4);
}

#[test]
fn activation_without_connections_is_all_zero() {
    let phenotype = Phenotype::from_genome(Genome::new(3, 2)).unwrap();
    let plan = phenotype.activation_plan(3).unwrap();
    assert_eq!(evaluate(&plan, &[0.3, -0.1, 0.9]), vec![0.0, 0.0]);
}

#[test]
fn activation_with_bias_connections_only() {
    let genome = genome_with(
        1,
        2,
        0,
        vec![gene(0, 2, WEIGHT_UNIT, true, 0), gene(0, 3, -2 * WEIGHT_UNIT, true, 1)],
    );
    let phenotype = Phenotype::from_genome(genome).unwrap();
    let plan = phenotype.activation_plan(1).unwrap();
    let output = evaluate(&plan, &[123.0]);
    assert!((output[0] - 1.0f64.tanh()).abs() < 1e-12);
    assert!((output[1] - (-2.0f64).tanh()).abs() < 1e-12);
}

#[test]
fn activation_plan_presets_steps_and_outputs() {
    // 1 -> 4 -> 3, 2 -> 3 disabled
    let genome = genome_with(
        2,
        1,
        1,
        vec![
            gene(1, 4, 2 * WEIGHT_UNIT, true, 0),
            gene(2, 3, 5 * WEIGHT_UNIT, false, 1),
            gene(4, 3, 3 * WEIGHT_UNIT, true, 2),
        ],
    );
    let phenotype = Phenotype::from_genome(genome).unwrap();
    assert_eq!(phenotype.toposorted_nodes, vec![0, 1, 2, 4, 3]);
    let plan = phenotype.activation_plan(2).unwrap();
    assert_eq!(plan.presets, vec![Preset::Bias, Preset::Input(0), Preset::Input(1)]);
    assert_eq!(plan.outputs, vec![3]);
    let steps: Vec<(usize, Vec<(usize, i64)>)> =
        plan.steps.iter().map(|step| (step.node, step.terms.clone())).collect();
    assert_eq!(
        steps,
        vec![(4, vec![(1, 2 * WEIGHT_UNIT)]), (3, vec![(4, 3 * WEIGHT_UNIT)])]
    );
    assert_eq!(phenotype.incoming_terms(3), vec![(4, 3 * WEIGHT_UNIT)]);
}

#[test]
fn activation_refuses_wrong_input_count() {
    let phenotype = Phenotype::from_genome(Genome::new(2, 1)).unwrap();
    assert_eq!(phenotype.activation_plan(3).err(), Some(TyrosineError::InputArityMismatch));
    assert_eq!(phenotype.activation_plan(1).err(), Some(TyrosineError::InputArityMismatch));
    assert_eq!(phenotype.activation_plan(0).err(), Some(TyrosineError::InputArityMismatch));
    assert!(phenotype.activation_plan(2).is_ok());
}
