use tyrosine::alignment::innovs_of;
use tyrosine::genome::{ConnectionGene, Genome, WEIGHT_UNIT};
use tyrosine::species::{GeneticDistance, Species};

fn numbered(innov: usize, weight: i64) -> ConnectionGene {
    ConnectionGene { in_node: 0, out_node: 3, weight, enabled: true, innov }
}

fn edge(in_node: usize, out_node: usize, weight: i64, innov: usize) -> ConnectionGene {
    ConnectionGene { in_node, out_node, weight, enabled: true, innov }
}

fn carrying(genes: Vec<ConnectionGene>) -> Genome {
    let mut genome = Genome::new(2, 1);
    genome.connection_genes = genes;
    genome
}

#[test]
fn numbers_of_both_lists_come_in_order_and_once() {
    let first = vec![numbered(7, 0), numbered(2, 0), numbered(9, 0)];
    let second = vec![numbered(9, 0), numbered(1, 0), numbered(4, 0)];
    let all = innovs_of(&first, &second);
    let walked: Vec<usize> = all.iter().cloned().collect();
    assert_eq!(walked, vec![1, 2, 4, 7, 9]);
}

#[test]
fn numbers_of_two_empty_lists_are_none() {
    let all = innovs_of(&Vec::new(), &Vec::new());
    assert!(all.is_empty());
}

#[test]
fn numbers_of_one_list_alone_are_kept() {
    let all = innovs_of(&vec![numbered(3, 0), numbered(5, 0)], &Vec::new());
    let walked: Vec<usize> = all.iter().cloned().collect();
    assert_eq!(walked, vec![3, 5]);
}

#[test]
fn crossover_keeps_the_genes_of_the_fitter_parent_in_order() {
    let fit = carrying(vec![
        edge(0, 3, WEIGHT_UNIT, 1),
        edge(1, 3, 2 * WEIGHT_UNIT, 4),
        edge(2, 3, 3 * WEIGHT_UNIT, 6),
    ]);
    let unfit = carrying(vec![
        edge(0, 3, -WEIGHT_UNIT, 1),
        edge(2, 3, -WEIGHT_UNIT, 2),
        edge(1, 3, -2 * WEIGHT_UNIT, 4),
        edge(1, 2, -WEIGHT_UNIT, 9),
    ]);
    let child = Genome::crossover_with(&fit, &unfit, &vec![true, false, true]);
    assert_eq!(
        child.connection_genes,
        vec![
            edge(0, 3, -WEIGHT_UNIT, 1),
            edge(1, 3, 2 * WEIGHT_UNIT, 4),
            edge(2, 3, 3 * WEIGHT_UNIT, 6),
        ]
    );
    assert_eq!(child.node_genes, fit.node_genes);
}

#[test]
fn crossover_with_a_parent_without_genes_copies_the_fitter() {
    let fit = carrying(vec![edge(0, 3, WEIGHT_UNIT, 5), edge(1, 3, WEIGHT_UNIT, 8)]);
    let unfit = carrying(Vec::new());
    let child = Genome::crossover_with(&fit, &unfit, &vec![true, true]);
    assert_eq!(child, fit);
    let empty = Genome::crossover_with(&unfit, &fit, &Vec::new());
    assert_eq!(empty, unfit);
}

#[test]
fn distance_classifies_each_number_against_the_largest_of_the_other() {
    let first = carrying(vec![
        edge(0, 3, WEIGHT_UNIT, 1),
        edge(1, 3, 3 * WEIGHT_UNIT, 2),
        edge(2, 3, WEIGHT_UNIT, 5),
    ]);
    let second = carrying(vec![
        edge(1, 3, WEIGHT_UNIT, 2),
        edge(0, 3, WEIGHT_UNIT, 3),
        edge(2, 3, WEIGHT_UNIT, 8),
    ]);
    let distance = Species::compatibility_distance(&first, &second);
    assert_eq!(
        distance,
        GeneticDistance { excess: 1, disjoint: 3, matching: 1, weight_gap: 2 * WEIGHT_UNIT as u128 }
    );
    let back = Species::compatibility_distance(&second, &first);
    assert_eq!(back, distance);
}

#[test]
fn distance_counts_a_number_once_and_takes_its_last_gene() {
    let first = carrying(vec![edge(0, 3, WEIGHT_UNIT, 4), edge(1, 3, 3 * WEIGHT_UNIT, 4)]);
    let second = carrying(vec![edge(0, 3, 2 * WEIGHT_UNIT, 4)]);
    let distance = Species::compatibility_distance(&first, &second);
    assert_eq!(
        distance,
        GeneticDistance { excess: 0, disjoint: 0, matching: 1, weight_gap: WEIGHT_UNIT as u128 }
    );
}

#[test]
fn distance_of_a_genome_to_itself_has_no_gap() {
    let genome = carrying(vec![edge(0, 3, WEIGHT_UNIT, 0), edge(1, 3, -WEIGHT_UNIT, 7)]);
    let distance = Species::compatibility_distance(&genome, &genome);
    assert_eq!(distance, GeneticDistance { excess: 0, disjoint: 0, matching: 2, weight_gap: 0 });
    assert!(distance.is_compatible());
}
