//! Genomes as bytes.
//!
//! A genome is written as four counts, then its node genes, then its
//! connection genes. Every number takes eight bytes, least significant
//! first; a weight is written as its distance from the lowest weight; the
//! flag of a connection takes one byte, zero or one.
//!
//! | bytes           | content                                   |
//! |-----------------|-------------------------------------------|
//! | 8               | number of input nodes, the bias included  |
//! | 8               | number of output nodes                    |
//! | 8               | number of node genes                      |
//! | 8               | number of connection genes                |
//! | 8 per node      | id                                        |
//! | 33 per gene     | source, target, weight, flag, innovation  |

use crate::errors::TyrosineError;
use crate::genome::{ConnectionGene, Genome, GenomeView, NodeGene};
use vstd::bytes::{
    lemma_auto_spec_u64_to_from_le_bytes, spec_u64_from_le_bytes, spec_u64_to_le_bytes,
    u64_from_le_bytes, u64_to_le_bytes,
};
use vstd::prelude::*;
use vstd::slice::slice_subrange;

verus! {

/// The bytes of the four counts.
pub const HEADER_BYTES: usize = 32;

/// The bytes of one node gene.
pub const NODE_BYTES: usize = 8;

/// The bytes of one connection gene.
pub const GENE_BYTES: usize = 33;

/// The number that stands for a weight: its distance from the lowest weight.
pub open spec fn weight_code(weight: i64) -> u64 {
    (weight + 0x8000_0000_0000_0000) as u64
}

/// The weight that a number stands for.
pub open spec fn coded_weight(code: u64) -> i64 {
    (code - 0x8000_0000_0000_0000) as i64
}

/// The byte that stands for the flag of a connection.
pub open spec fn flag(enabled: bool) -> u8 {
    if enabled {
        1
    } else {
        0
    }
}

/// The bytes of one connection gene.
pub open spec fn encode_gene(gene: ConnectionGene) -> Seq<u8> {
    spec_u64_to_le_bytes(gene.in_node as u64) + spec_u64_to_le_bytes(gene.out_node as u64)
        + spec_u64_to_le_bytes(weight_code(gene.weight)) + seq![flag(gene.enabled)]
        + spec_u64_to_le_bytes(gene.innov as u64)
}

/// The bytes of the first `upto` node genes.
pub open spec fn encode_nodes(nodes: Seq<NodeGene>, upto: int) -> Seq<u8>
    decreases upto,
{
    if upto <= 0 {
        Seq::empty()
    } else {
        encode_nodes(nodes, upto - 1) + spec_u64_to_le_bytes(nodes[upto - 1].id as u64)
    }
}

/// The bytes of the first `upto` connection genes.
pub open spec fn encode_genes(genes: Seq<ConnectionGene>, upto: int) -> Seq<u8>
    decreases upto,
{
    if upto <= 0 {
        Seq::empty()
    } else {
        encode_genes(genes, upto - 1) + encode_gene(genes[upto - 1])
    }
}

/// The bytes of the four counts of a genome.
pub open spec fn encode_header(genome: GenomeView) -> Seq<u8> {
    spec_u64_to_le_bytes(genome.num_inputs as u64) + spec_u64_to_le_bytes(genome.num_outputs as u64)
        + spec_u64_to_le_bytes(genome.nodes.len() as u64) + spec_u64_to_le_bytes(
        genome.connections.len() as u64,
    )
}

/// The bytes of a genome.
pub open spec fn encoding(genome: GenomeView) -> Seq<u8> {
    encode_header(genome) + encode_nodes(genome.nodes, genome.nodes.len() as int) + encode_genes(
        genome.connections,
        genome.connections.len() as int,
    )
}

/// The number written in the eight bytes from `at` on.
pub open spec fn field_at(bytes: Seq<u8>, at: int) -> u64 {
    spec_u64_from_le_bytes(bytes.subrange(at, at + 8))
}

/// The connection gene written in the thirty-three bytes from `at` on.
pub open spec fn gene_at(bytes: Seq<u8>, at: int) -> ConnectionGene {
    ConnectionGene {
        in_node: field_at(bytes, at) as usize,
        out_node: field_at(bytes, at + 8) as usize,
        weight: coded_weight(field_at(bytes, at + 16)),
        enabled: bytes[at + 24] == 1,
        innov: field_at(bytes, at + 25) as usize,
    }
}

/// Where the connection genes begin.
pub open spec fn genes_start(bytes: Seq<u8>) -> int {
    32 + 8 * field_at(bytes, 16)
}

/// Whether connection gene `k` is written so that it can be read: its
/// numbers fit the machine and its flag is zero or one.
pub open spec fn gene_readable(bytes: Seq<u8>, k: int) -> bool {
    let at = genes_start(bytes) + 33 * k;
    &&& field_at(bytes, at) <= usize::MAX
    &&& field_at(bytes, at + 8) <= usize::MAX
    &&& bytes[at + 24] <= 1
    &&& field_at(bytes, at + 25) <= usize::MAX
}

/// Whether `bytes` follow the layout: the counts are there and fit the
/// machine, the length is what the counts ask for, and every gene can be
/// read.
pub open spec fn well_laid(bytes: Seq<u8>) -> bool {
    &&& bytes.len() >= 32
    &&& field_at(bytes, 0) <= usize::MAX
    &&& field_at(bytes, 8) <= usize::MAX
    &&& bytes.len() == 32 + 8 * field_at(bytes, 16) + 33 * field_at(bytes, 24)
    &&& forall|i: int|
        0 <= i < field_at(bytes, 16) ==> #[trigger] field_at(bytes, 32 + 8 * i)
            <= usize::MAX
    &&& forall|k: int| 0 <= k < field_at(bytes, 24) ==> #[trigger] gene_readable(bytes, k)
}

/// The genome that is written in `bytes`.
pub open spec fn decoded_view(bytes: Seq<u8>) -> GenomeView {
    GenomeView {
        num_inputs: field_at(bytes, 0) as usize,
        num_outputs: field_at(bytes, 8) as usize,
        nodes: Seq::new(
            field_at(bytes, 16) as nat,
            |i: int| NodeGene { id: field_at(bytes, 32 + 8 * i) as usize },
        ),
        connections: Seq::new(
            field_at(bytes, 24) as nat,
            |k: int| gene_at(bytes, genes_start(bytes) + 33 * k),
        ),
    }
}

/// What reading `bytes` gives: the genome written there, `InvalidGenome`
/// where that genome breaks a structural invariant, or `InvalidGenomeFormat`
/// where the bytes do not follow the layout.
pub open spec fn decoded(bytes: Seq<u8>) -> Result<GenomeView, TyrosineError> {
    if !well_laid(bytes) {
        Err(TyrosineError::InvalidGenomeFormat)
    } else if !decoded_view(bytes).wf() {
        Err(TyrosineError::InvalidGenome)
    } else {
        Ok(decoded_view(bytes))
    }
}

/// The bytes of the first node genes are eight for each, and each gene is
/// where its position says.
proof fn lemma_encode_nodes(nodes: Seq<NodeGene>, upto: int)
    requires
        0 <= upto <= nodes.len(),
    ensures
        encode_nodes(nodes, upto).len() == 8 * upto,
        forall|i: int|
            0 <= i < upto ==> #[trigger] encode_nodes(nodes, upto).subrange(8 * i, 8 * i + 8)
                == spec_u64_to_le_bytes(nodes[i].id as u64),
    decreases upto,
{
    lemma_auto_spec_u64_to_from_le_bytes();
    if upto > 0 {
        lemma_encode_nodes(nodes, upto - 1);
        let before = encode_nodes(nodes, upto - 1);
        let now = encode_nodes(nodes, upto);
        assert forall|i: int| 0 <= i < upto implies #[trigger] now.subrange(8 * i, 8 * i + 8)
            == spec_u64_to_le_bytes(nodes[i].id as u64) by {
            if i < upto - 1 {
                assert(now.subrange(8 * i, 8 * i + 8) =~= before.subrange(8 * i, 8 * i + 8));
            } else {
                assert(now.subrange(8 * i, 8 * i + 8) =~= spec_u64_to_le_bytes(nodes[i].id as u64));
            }
        }
    }
}

/// The bytes of one connection gene are thirty-three, and each part is
/// where the layout says.
proof fn lemma_encode_gene(gene: ConnectionGene)
    ensures
        encode_gene(gene).len() == 33,
        encode_gene(gene).subrange(0, 8) == spec_u64_to_le_bytes(gene.in_node as u64),
        encode_gene(gene).subrange(8, 16) == spec_u64_to_le_bytes(gene.out_node as u64),
        encode_gene(gene).subrange(16, 24) == spec_u64_to_le_bytes(weight_code(gene.weight)),
        encode_gene(gene)[24] == flag(gene.enabled),
        encode_gene(gene).subrange(25, 33) == spec_u64_to_le_bytes(gene.innov as u64),
{
    lemma_auto_spec_u64_to_from_le_bytes();
    let whole = encode_gene(gene);
    assert(whole.subrange(0, 8) =~= spec_u64_to_le_bytes(gene.in_node as u64));
    assert(whole.subrange(8, 16) =~= spec_u64_to_le_bytes(gene.out_node as u64));
    assert(whole.subrange(16, 24) =~= spec_u64_to_le_bytes(weight_code(gene.weight)));
    assert(whole.subrange(25, 33) =~= spec_u64_to_le_bytes(gene.innov as u64));
}

/// The bytes of the first connection genes are thirty-three for each, and
/// each gene is where its position says.
proof fn lemma_encode_genes(genes: Seq<ConnectionGene>, upto: int)
    requires
        0 <= upto <= genes.len(),
    ensures
        encode_genes(genes, upto).len() == 33 * upto,
        forall|k: int|
            0 <= k < upto ==> #[trigger] encode_genes(genes, upto).subrange(33 * k, 33 * k + 33)
                == encode_gene(genes[k]),
    decreases upto,
{
    if upto > 0 {
        lemma_encode_genes(genes, upto - 1);
        lemma_encode_gene(genes[upto - 1]);
        let before = encode_genes(genes, upto - 1);
        let now = encode_genes(genes, upto);
        assert forall|k: int| 0 <= k < upto implies #[trigger] now.subrange(33 * k, 33 * k + 33)
            == encode_gene(genes[k]) by {
            if k < upto - 1 {
                assert(now.subrange(33 * k, 33 * k + 33) =~= before.subrange(33 * k, 33 * k + 33));
            } else {
                assert(now.subrange(33 * k, 33 * k + 33) =~= encode_gene(genes[k]));
            }
        }
    }
}

/// Connection gene `k` of a genome can be read from the bytes of the genome,
/// and reads as it was written.
proof fn lemma_gene_read_back(genome: GenomeView, k: int)
    requires
        genome.nodes.len() <= usize::MAX,
        genome.connections.len() <= usize::MAX,
        0 <= k < genome.connections.len(),
    ensures
        field_at(encoding(genome), 16) == genome.nodes.len(),
        gene_readable(encoding(genome), k),
        gene_at(encoding(genome), 32 + 8 * genome.nodes.len() + 33 * k) == genome.connections[k],
{
    lemma_auto_spec_u64_to_from_le_bytes();
    let bytes = encoding(genome);
    let genes = encode_genes(genome.connections, genome.connections.len() as int);
    let node_count = genome.nodes.len() as int;
    lemma_encode_nodes(genome.nodes, node_count);
    lemma_encode_genes(genome.connections, genome.connections.len() as int);
    assert(encode_header(genome).len() == 32);
    assert(bytes.subrange(16, 24) =~= spec_u64_to_le_bytes(genome.nodes.len() as u64));
    let at = 32 + 8 * node_count + 33 * k;
    let gene = genome.connections[k];
    let written = encode_gene(gene);
    lemma_encode_gene(gene);
    assert(bytes.subrange(at, at + 33) =~= genes.subrange(33 * k, 33 * k + 33));
    assert(bytes.subrange(at, at + 8) =~= written.subrange(0, 8));
    assert(bytes.subrange(at + 8, at + 8 + 8) =~= written.subrange(8, 16));
    assert(bytes.subrange(at + 16, at + 16 + 8) =~= written.subrange(16, 24));
    assert(bytes.subrange(at + 25, at + 25 + 8) =~= written.subrange(25, 33));
    assert(bytes[at + 24] == written[24]);
    assert(coded_weight(weight_code(gene.weight)) == gene.weight);
}

/// Reading what was written gives back the genome: the bytes of a genome
/// follow the layout, and the genome written in them is that genome.
pub proof fn lemma_decode_encode(genome: GenomeView)
    requires
        genome.nodes.len() <= usize::MAX,
        genome.connections.len() <= usize::MAX,
    ensures
        well_laid(encoding(genome)),
        decoded_view(encoding(genome)) == genome,
{
    lemma_auto_spec_u64_to_from_le_bytes();
    let bytes = encoding(genome);
    let header = encode_header(genome);
    let nodes = encode_nodes(genome.nodes, genome.nodes.len() as int);
    let genes = encode_genes(genome.connections, genome.connections.len() as int);
    let node_count = genome.nodes.len() as int;
    let gene_count = genome.connections.len() as int;
    lemma_encode_nodes(genome.nodes, node_count);
    lemma_encode_genes(genome.connections, gene_count);
    assert(header.len() == 32);
    assert(bytes.subrange(0, 8) =~= spec_u64_to_le_bytes(genome.num_inputs as u64));
    assert(bytes.subrange(8, 16) =~= spec_u64_to_le_bytes(genome.num_outputs as u64));
    assert(bytes.subrange(16, 24) =~= spec_u64_to_le_bytes(genome.nodes.len() as u64));
    assert(bytes.subrange(24, 32) =~= spec_u64_to_le_bytes(genome.connections.len() as u64));
    assert(field_at(bytes, 16) == node_count);
    assert(field_at(bytes, 24) == gene_count);
    assert(genes_start(bytes) == 32 + 8 * node_count);
    assert forall|i: int| 0 <= i < node_count implies #[trigger] field_at(bytes, 32 + 8 * i)
        == genome.nodes[i].id as u64 by {
        assert(bytes.subrange(32 + 8 * i, 32 + 8 * i + 8) =~= nodes.subrange(8 * i, 8 * i + 8));
    }
    assert forall|k: int| 0 <= k < gene_count implies #[trigger] gene_readable(bytes, k) by {
        lemma_gene_read_back(genome, k);
    }
    assert forall|k: int| 0 <= k < gene_count implies #[trigger] decoded_view(bytes).connections[k]
        == genome.connections[k] by {
        lemma_gene_read_back(genome, k);
    }
    assert(decoded_view(bytes).nodes =~= genome.nodes);
    assert(decoded_view(bytes).connections =~= genome.connections);
}

/// Round trip: reading the bytes of a well-formed genome gives that genome.
pub proof fn lemma_round_trip(genome: &Genome)
    requires
        genome.wf(),
    ensures
        decoded(encoding(genome@)) == Ok::<GenomeView, TyrosineError>(genome@),
{
    assert(genome.node_genes.len() <= usize::MAX);
    assert(genome.connection_genes.len() <= usize::MAX);
    lemma_decode_encode(genome@);
}

/// The number written in the eight bytes from `at` on.
fn read_field(bytes: &[u8], at: usize) -> (number: u64)
    requires
        at + 8 <= bytes@.len(),
    ensures
        number == field_at(bytes@, at as int),
{
    assert(bytes.len() <= usize::MAX);
    u64_from_le_bytes(slice_subrange(bytes, at, at + 8))
}

/// Writes a number at the end of `bytes`.
fn write_field(bytes: &mut Vec<u8>, number: u64)
    ensures
        final(bytes)@ == old(bytes)@ + spec_u64_to_le_bytes(number),
{
    let mut field = u64_to_le_bytes(number);
    bytes.append(&mut field);
}

/// The number that stands for a weight.
fn code_of(weight: i64) -> (code: u64)
    ensures
        code == weight_code(weight),
{
    (weight as i128 + 0x8000_0000_0000_0000) as u64
}

/// The weight that a number stands for.
fn weight_of(code: u64) -> (weight: i64)
    ensures
        weight == coded_weight(code),
{
    (code as i128 - 0x8000_0000_0000_0000) as i64
}

impl Genome {
    /// The bytes of this genome.
    pub fn encode(&self) -> (bytes: Vec<u8>)
        ensures
            bytes@ == encoding(self@),
    {
        let mut bytes: Vec<u8> = Vec::new();
        write_field(&mut bytes, self.num_inputs as u64);
        write_field(&mut bytes, self.num_outputs as u64);
        write_field(&mut bytes, self.node_genes.len() as u64);
        write_field(&mut bytes, self.connection_genes.len() as u64);
        assert(bytes@ =~= encode_header(self@));
        let mut i: usize = 0;
        while i < self.node_genes.len()
            invariant
                i <= self.node_genes@.len(),
                bytes@ == encode_header(self@) + encode_nodes(self@.nodes, i as int),
            decreases self.node_genes@.len() - i,
        {
            write_field(&mut bytes, self.node_genes[i].id as u64);
            assert(bytes@ =~= encode_header(self@) + encode_nodes(self@.nodes, i + 1));
            i = i + 1;
        }
        let ghost front = bytes@;
        let mut k: usize = 0;
        while k < self.connection_genes.len()
            invariant
                k <= self.connection_genes@.len(),
                bytes@ == front + encode_genes(self@.connections, k as int),
            decreases self.connection_genes@.len() - k,
        {
            let gene = self.connection_genes[k];
            let ghost before = bytes@;
            write_field(&mut bytes, gene.in_node as u64);
            write_field(&mut bytes, gene.out_node as u64);
            write_field(&mut bytes, code_of(gene.weight));
            bytes.push(if gene.enabled {
                1
            } else {
                0
            });
            write_field(&mut bytes, gene.innov as u64);
            assert(bytes@ =~= before + encode_gene(gene));
            assert(bytes@ =~= front + encode_genes(self@.connections, k + 1));
            k = k + 1;
        }
        bytes
    }

    /// Reads a genome from bytes.
    ///
    /// Bytes that do not follow the layout are refused as
    /// `InvalidGenomeFormat`; bytes that hold a genome which breaks a
    /// structural invariant are refused as `InvalidGenome`.
    pub fn decode(bytes: &[u8]) -> (read: Result<Genome, TyrosineError>)
        ensures
            match decoded(bytes@) {
                Ok(view) => read is Ok && read->Ok_0@ == view,
                Err(error) => read == Err::<Genome, TyrosineError>(error),
            },
    {
        if bytes.len() < HEADER_BYTES {
            return Err(TyrosineError::InvalidGenomeFormat);
        }
        let num_inputs = read_field(bytes, 0);
        let num_outputs = read_field(bytes, 8);
        let node_count = read_field(bytes, 16);
        let gene_count = read_field(bytes, 24);
        let wanted: u128 = 32 + 8 * (node_count as u128) + 33 * (gene_count as u128);
        if num_inputs > usize::MAX as u64 || num_outputs > usize::MAX as u64 || wanted
            != bytes.len() as u128 {
            return Err(TyrosineError::InvalidGenomeFormat);
        }
        let node_count = node_count as usize;
        let gene_count = gene_count as usize;
        let mut node_genes: Vec<NodeGene> = Vec::new();
        let mut i: usize = 0;
        while i < node_count
            invariant
                bytes@.len() == 32 + 8 * node_count + 33 * gene_count,
                bytes@.len() <= usize::MAX,
                node_count == field_at(bytes@, 16),
                i <= node_count,
                node_genes@.len() == i,
                forall|j: int|
                    0 <= j < i ==> #[trigger] field_at(bytes@, 32 + 8 * j) <= usize::MAX
                        && node_genes@[j] == (NodeGene { id: field_at(bytes@, 32 + 8 * j) as usize }),
            decreases node_count - i,
        {
            let id = read_field(bytes, 32 + 8 * i);
            if id > usize::MAX as u64 {
                assert(!well_laid(bytes@)) by {
                    assert(field_at(bytes@, 32 + 8 * (i as int)) > usize::MAX);
                }
                return Err(TyrosineError::InvalidGenomeFormat);
            }
            node_genes.push(NodeGene { id: id as usize });
            i = i + 1;
        }
        let start: usize = 32 + 8 * node_count;
        let mut connection_genes: Vec<ConnectionGene> = Vec::new();
        let mut k: usize = 0;
        while k < gene_count
            invariant
                bytes@.len() == 32 + 8 * node_count + 33 * gene_count,
                bytes@.len() <= usize::MAX,
                node_count == field_at(bytes@, 16),
                gene_count == field_at(bytes@, 24),
                start == genes_start(bytes@),
                k <= gene_count,
                connection_genes@.len() == k,
                forall|j: int| 0 <= j < k ==> #[trigger] gene_readable(bytes@, j),
                forall|j: int|
                    0 <= j < k ==> #[trigger] connection_genes@[j] == gene_at(bytes@, start + 33 * j),
            decreases gene_count - k,
        {
            let at: usize = start + 33 * k;
            let in_node = read_field(bytes, at);
            let out_node = read_field(bytes, at + 8);
            let code = read_field(bytes, at + 16);
            let enabled = bytes[at + 24];
            let innov = read_field(bytes, at + 25);
            if in_node > usize::MAX as u64 || out_node > usize::MAX as u64 || enabled > 1 || innov
                > usize::MAX as u64 {
                assert(!well_laid(bytes@)) by {
                    assert(!gene_readable(bytes@, k as int));
                }
                return Err(TyrosineError::InvalidGenomeFormat);
            }
            connection_genes.push(
                ConnectionGene {
                    in_node: in_node as usize,
                    out_node: out_node as usize,
                    weight: weight_of(code),
                    enabled: enabled == 1,
                    innov: innov as usize,
                },
            );
            k = k + 1;
        }
        let genome = Genome {
            num_inputs: num_inputs as usize,
            num_outputs: num_outputs as usize,
            node_genes,
            connection_genes,
        };
        assert(well_laid(bytes@));
        assert(genome@.nodes =~= decoded_view(bytes@).nodes);
        assert(genome@.connections =~= decoded_view(bytes@).connections);
        if !genome.is_valid() {
            return Err(TyrosineError::InvalidGenome);
        }
        Ok(genome)
    }
}

} // verus!
