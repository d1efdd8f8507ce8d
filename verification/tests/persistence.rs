use tyrosine::errors::TyrosineError;
use tyrosine::genome::{ConnectionGene, Genome, NodeGene, WEIGHT_UNIT};
use tyrosine::innovation::InnovationRegistry;

fn gene(in_node: usize, out_node: usize, weight: i64, enabled: bool, innov: usize) -> ConnectionGene {
    ConnectionGene { in_node, out_node, weight, enabled, innov }
}

fn number(value: u64) -> Vec<u8> {
    value.to_le_bytes().to_vec()
}

#[test]
fn encoding_follows_the_layout() {
    let mut genome = Genome::new(1, 1);
    genome.connection_genes.push(gene(1, 2, -1, true, 7));
    let mut expected = Vec::new();
    expected.extend(number(2)); // inputs with the bias
    expected.extend(number(1)); // outputs
    expected.extend(number(3)); // nodes
    expected.extend(number(1)); // connections
    expected.extend(number(0));
    expected.extend(number(1));
    expected.extend(number(2));
    expected.extend(number(1)); // source
    expected.extend(number(2)); // target
    expected.extend(number((1u64 << 63) - 1)); // weight -1
    expected.push(1); // enabled
    expected.extend(number(7)); // innovation
    assert_eq!(genome.encode(), expected);
    assert_eq!(expected.len(), 32 + 3 * 8 + 33);
    assert_eq!(Genome::decode(&expected), Ok(genome));
}

#[test]
fn weights_are_written_from_the_lowest_up() {
    for (weight, code) in [(i64::MIN, 0u64), (0, 1u64 << 63), (i64::MAX, u64::MAX), (WEIGHT_UNIT, (1u64 << 63) + (1u64 << 32))] {
        let mut genome = Genome::new(1, 1);
        genome.connection_genes.push(gene(0, 2, weight, false, 0));
        let bytes = genome.encode();
        let at = 32 + 3 * 8 + 16;
        assert_eq!(bytes[at..at + 8].to_vec(), number(code));
        assert_eq!(bytes[at + 8], 0);
        assert_eq!(Genome::decode(&bytes), Ok(genome));
    }
}

#[test]
fn round_trip_of_mutated_genomes() {
    let mut rng = rand::rng();
    let table = vec![WEIGHT_UNIT / 10, -WEIGHT_UNIT / 7];
    let mut registry = InnovationRegistry::new();
    let mut genome = Genome::new(3, 2);
    for _ in 0..200 {
        genome.mutate(&mut registry, &mut rng, &table);
        let bytes = genome.encode();
        assert_eq!(Genome::decode(&bytes), Ok(genome.clone()));
        assert_eq!(Genome::decode(&bytes).unwrap().encode(), bytes);
    }
}

#[test]
fn short_streams_are_refused() {
    for length in 0..32 {
        let bytes = vec![0u8; length];
        assert_eq!(Genome::decode(&bytes), Err(TyrosineError::InvalidGenomeFormat));
    }
    assert_eq!(Genome::decode(&[2]), Err(TyrosineError::InvalidGenomeFormat));
}

#[test]
fn wrong_length_is_refused() {
    let genome = Genome::new(2, 1);
    let mut bytes = genome.encode();
    bytes.push(0);
    assert_eq!(Genome::decode(&bytes), Err(TyrosineError::InvalidGenomeFormat));
    bytes.pop();
    bytes.pop();
    assert_eq!(Genome::decode(&bytes), Err(TyrosineError::InvalidGenomeFormat));
    let mut huge = vec![0u8; 32];
    huge[16..24].copy_from_slice(&u64::MAX.to_le_bytes());
    huge[24..32].copy_from_slice(&u64::MAX.to_le_bytes());
    assert_eq!(Genome::decode(&huge), Err(TyrosineError::InvalidGenomeFormat));
}

#[test]
fn flag_other_than_zero_or_one_is_refused() {
    let mut genome = Genome::new(1, 1);
    genome.connection_genes.push(gene(1, 2, 5, true, 0));
    let mut bytes = genome.encode();
    let at = 32 + 3 * 8 + 24;
    assert_eq!(bytes[at], 1);
    bytes[at] = 2;
    assert_eq!(Genome::decode(&bytes), Err(TyrosineError::InvalidGenomeFormat));
    bytes[at] = 0;
    genome.connection_genes[0].enabled = false;
    assert_eq!(Genome::decode(&bytes), Ok(genome));
}

#[test]
fn genomes_that_break_an_invariant_are_refused() {
    let zeros = vec![0u8; 32];
    assert_eq!(Genome::decode(&zeros), Err(TyrosineError::InvalidGenome));

    let mut twice = Genome::new(2, 1);
    twice.connection_genes.push(gene(1, 3, 5, true, 0));
    twice.connection_genes.push(gene(1, 3, 6, true, 1));
    assert_eq!(Genome::decode(&twice.encode()), Err(TyrosineError::InvalidGenome));

    let mut unknown = Genome::new(2, 1);
    unknown.connection_genes.push(gene(1, 9, 5, true, 0));
    assert_eq!(Genome::decode(&unknown.encode()), Err(TyrosineError::InvalidGenome));

    let mut sparse = Genome::new(2, 1);
    sparse.node_genes[2] = NodeGene { id: 5 };
    assert_eq!(Genome::decode(&sparse.encode()), Err(TyrosineError::InvalidGenome));
}

#[test]
fn cyclic_genome_is_read_and_left_to_the_builder() {
    let mut genome = Genome::new(2, 1);
    genome.node_genes.push(NodeGene { id: 4 });
    genome.node_genes.push(NodeGene { id: 5 });
    genome.connection_genes.push(gene(4, 5, WEIGHT_UNIT, true, 0));
    genome.connection_genes.push(gene(5, 4, WEIGHT_UNIT, true, 1));
    assert_eq!(Genome::decode(&genome.encode()), Ok(genome));
}
