//! Genomes: the heritable encoding of a network.
//!
//! A genome lists node genes and connection genes. Node ids are dense: the
//! first is the bias input, then come the real inputs, then the outputs,
//! then the hidden nodes in order of creation. Connection genes are kept in
//! increasing order of innovation number.

use crate::alignment::{carried, innovs_of, lemma_met_all, lemma_met_next, lemma_walk, met, rises};
use crate::innovation::{lemma_innovation_identifies_edge, lemma_issue_keeps_assignments, InnovationRegistry, RegistryView};
use crate::random::{coin_flip, random_below, random_ratio};
use rand::rngs::ThreadRng;
use std::collections::HashMap;
use vstd::prelude::*;
use vstd::std_specs::btree::spec_btree_keys_iter;
use vstd::std_specs::iter::IteratorSpec;

verus! {

broadcast use {vstd::std_specs::hash::group_hash_axioms, vstd::std_specs::btree::group_btree_axioms};

/// The fixed-point weight that stands for one.
pub const WEIGHT_UNIT: i64 = 4294967296;

/// A replaced weight is drawn from `-REPLACEMENT_RANGE .. REPLACEMENT_RANGE`:
/// five units either way.
pub const REPLACEMENT_RANGE: i64 = 21474836480;

/// The standard deviation of a nudge of a weight: a tenth of a unit.
pub const PERTURBATION_STD: i64 = 429496730;

/// The width of the replacement range: ten units.
pub const REPLACEMENT_SPAN: u64 = 42949672960;

/// The chance, in hundredths, that a mutation grows a connection.
pub const CONNECTION_MUTATION_PERCENT: u32 = 15;

/// The chance, in hundredths, that a mutation splits a connection by a node.
pub const NODE_MUTATION_PERCENT: u32 = 3;

/// The chance, in hundredths, that the weight of a connection is redrawn.
pub const WEIGHT_MUTATION_PERCENT: u32 = 80;

/// The chance, in hundredths, that a redrawn weight is nudged rather than
/// replaced.
pub const PERTURBATION_PERCENT: u32 = 90;

/// The chance, in hundredths, that a connection is switched on or off.
pub const TOGGLE_MUTATION_PERCENT: u32 = 1;

/// One node of a network.
#[derive(Clone, Copy, Debug, PartialEq, Eq, Structural)]
pub struct NodeGene {
    /// The id of the node, which is also its position in the genome.
    pub id: usize,
}

/// One weighted edge of a network.
#[derive(Clone, Copy, Debug, PartialEq, Eq, Structural)]
pub struct ConnectionGene {
    /// The node that the edge leaves.
    pub in_node: usize,
    /// The node that the edge enters.
    pub out_node: usize,
    /// The weight of the edge, in fixed point.
    pub weight: i64,
    /// Whether the edge takes part in the network.
    pub enabled: bool,
    /// The innovation number of the structural edge `(in_node, out_node)`.
    pub innov: usize,
}

impl ConnectionGene {
    /// The structural edge of the gene: its source and its target.
    pub fn get_id(&self) -> (id: (usize, usize))
        ensures
            id == (self.in_node, self.out_node),
    {
        (self.in_node, self.out_node)
    }

    /// Whether two genes describe the same structural edge.
    pub open spec fn same_edge(self, other: ConnectionGene) -> bool {
        self.in_node == other.in_node && self.out_node == other.out_node
    }

    /// Whether the gene joins `a` and `b`, in either direction.
    pub open spec fn joins(self, a: usize, b: usize) -> bool {
        (self.in_node == a && self.out_node == b) || (self.in_node == b && self.out_node == a)
    }
}

/// What a mutation does to the weight of one connection.
#[derive(Clone, Copy, Debug, PartialEq, Eq, Structural)]
pub enum WeightChange {
    /// The weight stays.
    Keep,
    /// The amount is added to the weight; the sum stops at the ends of the
    /// range of weights.
    Perturb(i64),
    /// The weight is replaced by this one.
    Replace(i64),
}

/// What a mutation does to one connection.
#[derive(Clone, Copy, Debug, PartialEq, Eq, Structural)]
pub struct WeightDraw {
    /// Whether the connection is switched: on if it was off, off if it was on.
    pub toggle: bool,
    /// What happens to the weight.
    pub change: WeightChange,
}

/// The sum of a weight and an amount, stopped at the ends of the range of
/// weights.
pub open spec fn clamped_sum(weight: i64, amount: i64) -> i64 {
    if weight + amount > i64::MAX {
        i64::MAX
    } else if weight + amount < i64::MIN {
        i64::MIN
    } else {
        (weight + amount) as i64
    }
}

impl WeightDraw {
    /// Whether a mutation can draw this: a nudge comes from `table` (or is
    /// zero where the table is empty), and a replacement lies within
    /// [`REPLACEMENT_RANGE`] of zero.
    pub open spec fn admissible(self, table: Seq<i64>) -> bool {
        match self.change {
            WeightChange::Keep => true,
            WeightChange::Perturb(amount) => table.contains(amount) || (table.len() == 0 && amount
                == 0),
            WeightChange::Replace(weight) => -REPLACEMENT_RANGE <= weight < REPLACEMENT_RANGE,
        }
    }

    /// What a mutation does to one connection, given its draws: whether
    /// the connection is switched, whether the weight is redrawn, whether a
    /// redrawn weight is nudged rather than replaced, the place in `table` of
    /// the nudge, and how far above the lower end of the replacement range a
    /// replacement lies.
    pub open spec fn drawn(
        toggle: bool,
        redraw: bool,
        nudge: bool,
        at: int,
        offset: u64,
        table: Seq<i64>,
    ) -> WeightDraw {
        WeightDraw {
            toggle,
            change: if !redraw {
                WeightChange::Keep
            } else if nudge {
                if 0 <= at < table.len() {
                    WeightChange::Perturb(table[at])
                } else {
                    WeightChange::Perturb(0)
                }
            } else {
                WeightChange::Replace((offset - REPLACEMENT_RANGE) as i64)
            },
        }
    }

    /// What a mutation does to one connection, given its draws: see
    /// [`WeightDraw::drawn`].
    pub fn from_draws(
        toggle: bool,
        redraw: bool,
        nudge: bool,
        at: usize,
        offset: u64,
        perturbations: &Vec<i64>,
    ) -> (draw: WeightDraw)
        requires
            offset < REPLACEMENT_SPAN,
            perturbations@.len() > 0 ==> at < perturbations@.len(),
        ensures
            draw == WeightDraw::drawn(toggle, redraw, nudge, at as int, offset, perturbations@),
            draw.admissible(perturbations@),
    {
        let change = if !redraw {
            WeightChange::Keep
        } else if nudge {
            if at < perturbations.len() {
                WeightChange::Perturb(perturbations[at])
            } else {
                WeightChange::Perturb(0)
            }
        } else {
            WeightChange::Replace(offset as i64 - REPLACEMENT_RANGE)
        };
        WeightDraw { toggle, change }
    }

    /// Draws what a mutation does to one connection.
    ///
    /// The connection is switched one time in a hundred. Four times in five
    /// the weight is redrawn: nine times in ten of those by a nudge, drawn
    /// uniformly from `perturbations`, else by a replacement, drawn uniformly
    /// from the replacement range.
    pub fn random(rng: &mut ThreadRng, perturbations: &Vec<i64>) -> (draw: WeightDraw)
        ensures
            draw.admissible(perturbations@),
    {
        let toggle = random_ratio(rng, TOGGLE_MUTATION_PERCENT, 100);
        let redraw = random_ratio(rng, WEIGHT_MUTATION_PERCENT, 100);
        let nudge = random_ratio(rng, PERTURBATION_PERCENT, 100);
        let at = if perturbations.len() > 0 {
            random_below(rng, perturbations.len() as u64) as usize
        } else {
            0
        };
        let offset = random_below(rng, REPLACEMENT_SPAN);
        WeightDraw::from_draws(toggle, redraw, nudge, at, offset, perturbations)
    }
}

impl ConnectionGene {
    /// The gene after a mutation did `draw` to it.
    pub open spec fn after_draw(self, draw: WeightDraw) -> ConnectionGene {
        ConnectionGene {
            enabled: if draw.toggle {
                !self.enabled
            } else {
                self.enabled
            },
            weight: match draw.change {
                WeightChange::Keep => self.weight,
                WeightChange::Perturb(amount) => clamped_sum(self.weight, amount),
                WeightChange::Replace(weight) => weight,
            },
            ..self
        }
    }

    /// The gene after a mutation did `draw` to it.
    pub fn redrawn(self, draw: WeightDraw) -> (gene: ConnectionGene)
        ensures
            gene == self.after_draw(draw),
    {
        let enabled = if draw.toggle {
            !self.enabled
        } else {
            self.enabled
        };
        let weight = match draw.change {
            WeightChange::Keep => self.weight,
            WeightChange::Perturb(amount) => {
                if amount > 0 && self.weight > i64::MAX - amount {
                    i64::MAX
                } else if amount < 0 && self.weight < i64::MIN - amount {
                    i64::MIN
                } else {
                    self.weight + amount
                }
            },
            WeightChange::Replace(weight) => weight,
        };
        ConnectionGene { enabled, weight, ..self }
    }

    /// Whether `other` is a gene of the same structural edge under the same
    /// innovation number.
    pub open spec fn matches(self, other: ConnectionGene) -> bool {
        self.innov == other.innov && self.same_edge(other)
    }
}

/// The first `upto` genes by innovation number; of several genes with one
/// number, the last.
pub open spec fn by_innov(genes: Seq<ConnectionGene>, upto: int) -> Map<usize, ConnectionGene>
    decreases upto,
{
    if upto <= 0 {
        Map::empty()
    } else {
        by_innov(genes, upto - 1).insert(genes[upto - 1].innov, genes[upto - 1])
    }
}

/// The gene that a child inherits for the gene `gene` of its fitter parent:
/// the gene of the other parent with the same innovation number, where
/// there is one of the same edge and `pick` says so, else `gene`.
pub open spec fn inherited(gene: ConnectionGene, unfit: Seq<ConnectionGene>, pick: bool) -> ConnectionGene {
    let others = by_innov(unfit, unfit.len() as int);
    if pick && others.contains_key(gene.innov) && others[gene.innov].same_edge(gene) {
        others[gene.innov]
    } else {
        gene
    }
}

/// The heritable encoding of a network.
#[derive(Debug, PartialEq, Eq)]
pub struct Genome {
    /// The number of input nodes, the bias input included.
    pub num_inputs: usize,
    /// The number of output nodes.
    pub num_outputs: usize,
    /// The node genes, in order of id.
    pub node_genes: Vec<NodeGene>,
    /// The connection genes, in order of innovation number.
    pub connection_genes: Vec<ConnectionGene>,
}

/// The mathematical content of a [`Genome`].
pub struct GenomeView {
    /// The number of input nodes, the bias input included.
    pub num_inputs: usize,
    /// The number of output nodes.
    pub num_outputs: usize,
    /// The node genes, in order of id.
    pub nodes: Seq<NodeGene>,
    /// The connection genes, in order of innovation number.
    pub connections: Seq<ConnectionGene>,
}

impl View for Genome {
    type V = GenomeView;

    open spec fn view(&self) -> GenomeView {
        GenomeView {
            num_inputs: self.num_inputs,
            num_outputs: self.num_outputs,
            nodes: self.node_genes@,
            connections: self.connection_genes@,
        }
    }
}

/// Whether the innovation numbers of `genes` increase strictly.
pub open spec fn innovs_increasing(genes: Seq<ConnectionGene>) -> bool {
    forall|i: int, j: int|
        0 <= i < j < genes.len() ==> (#[trigger] genes[i]).innov < (#[trigger] genes[j]).innov
}

/// Whether no two of `genes` describe the same structural edge.
pub open spec fn edges_distinct(genes: Seq<ConnectionGene>) -> bool {
    forall|i: int, j: int|
        0 <= i < j < genes.len() ==> !(#[trigger] genes[i]).same_edge(#[trigger] genes[j])
}

/// Whether `after` is `before` with `gene` put in at some position.
pub open spec fn inserted(
    before: Seq<ConnectionGene>,
    after: Seq<ConnectionGene>,
    gene: ConnectionGene,
) -> bool {
    exists|at: int| 0 <= at <= before.len() && after == #[trigger] before.insert(at, gene)
}

impl GenomeView {
    /// The genome for `num_inputs` real inputs and `num_outputs` outputs
    /// that has nothing but its bias, input and output nodes.
    pub open spec fn fresh(num_inputs: usize, num_outputs: usize) -> GenomeView {
        GenomeView {
            num_inputs: (num_inputs + 1) as usize,
            num_outputs,
            nodes: Seq::new(
                (num_inputs + 1 + num_outputs) as nat,
                |i: int| NodeGene { id: i as usize },
            ),
            connections: Seq::empty(),
        }
    }

    /// Whether `gene` joins two nodes of this genome and enters neither the
    /// bias nor an input.
    pub open spec fn admits(self, gene: ConnectionGene) -> bool {
        &&& gene.in_node < self.nodes.len()
        &&& gene.out_node < self.nodes.len()
        &&& gene.out_node >= self.num_inputs
    }

    /// The structural invariants of a genome.
    ///
    /// There is a bias input, and a node for every input and output. Node ids
    /// are dense and in order. Every connection joins existing nodes and
    /// enters neither the bias nor an input. Innovation numbers increase
    /// strictly, and no structural edge occurs twice.
    pub open spec fn wf(self) -> bool {
        &&& self.num_inputs >= 1
        &&& self.num_inputs + self.num_outputs <= self.nodes.len()
        &&& forall|i: int| 0 <= i < self.nodes.len() ==> (#[trigger] self.nodes[i]).id == i
        &&& forall|i: int|
            0 <= i < self.connections.len() ==> self.admits(#[trigger] self.connections[i])
        &&& innovs_increasing(self.connections)
        &&& edges_distinct(self.connections)
    }

    /// Whether some connection joins `a` and `b`, in either direction.
    pub open spec fn connected(self, a: usize, b: usize) -> bool {
        exists|i: int| 0 <= i < self.connections.len() && (#[trigger] self.connections[i]).joins(a, b)
    }

    /// Whether both nodes are inputs.
    pub open spec fn both_inputs(self, a: usize, b: usize) -> bool {
        a < self.num_inputs && b < self.num_inputs
    }

    /// Whether both nodes are outputs.
    pub open spec fn both_outputs(self, a: usize, b: usize) -> bool {
        &&& self.num_inputs <= a < self.num_inputs + self.num_outputs
        &&& self.num_inputs <= b < self.num_inputs + self.num_outputs
    }

    /// Whether a new connection from `a` to `b` may be grown: `a` is the
    /// lower id, the two are not yet joined in either direction, and they
    /// are neither two inputs nor two outputs.
    pub open spec fn is_candidate(self, a: usize, b: usize) -> bool {
        &&& a < b < self.nodes.len()
        &&& !self.connected(a, b)
        &&& !self.both_inputs(a, b)
        &&& !self.both_outputs(a, b)
    }

    /// Whether some connection carries the innovation number `innov`.
    pub open spec fn has_innov(self, innov: usize) -> bool {
        exists|i: int| 0 <= i < self.connections.len() && (#[trigger] self.connections[i]).innov == innov
    }

    /// Whether some connection describes the edge from `a` to `b`.
    pub open spec fn has_edge(self, a: usize, b: usize) -> bool {
        exists|i: int|
            0 <= i < self.connections.len() && (#[trigger] self.connections[i]).in_node == a
                && self.connections[i].out_node == b
    }

    /// Whether a gene with the number `innov` can be put in: the registry
    /// gave a number, and no connection carries it yet.
    pub open spec fn accepts(self, innov: Option<usize>) -> bool {
        innov is Some && !self.has_innov(innov->0)
    }

    /// Whether `after` is this genome with one enabled connection from
    /// `in_node` to `out_node` put in, of the given weight and number.
    pub open spec fn with_gene(self, after: GenomeView, gene: ConnectionGene) -> bool {
        &&& after.num_inputs == self.num_inputs
        &&& after.num_outputs == self.num_outputs
        &&& after.nodes == self.nodes
        &&& inserted(self.connections, after.connections, gene)
    }

    /// Whether `after` is what growing the edge `(in_node, out_node)` makes
    /// of this genome, `innov` being what the registry issued for the edge:
    /// the genome with the new enabled gene put in, or the genome unchanged
    /// where the number is missing or already carried.
    pub open spec fn grown(
        self,
        after: GenomeView,
        in_node: usize,
        out_node: usize,
        weight: i64,
        innov: Option<usize>,
    ) -> bool {
        if self.accepts(innov) {
            self.with_gene(
                after,
                ConnectionGene { in_node, out_node, weight, enabled: true, innov: innov->0 },
            )
        } else {
            after == self
        }
    }

    /// The connections after the gene at `index` was put to rest: disabled,
    /// with its weight reset to one.
    pub open spec fn rested(self, index: int) -> Seq<ConnectionGene> {
        self.connections.update(
            index,
            ConnectionGene { weight: WEIGHT_UNIT, enabled: false, ..self.connections[index] },
        )
    }

    /// Whether `after` is this genome with the connection at `index` split
    /// by a new node: the old gene is put to rest, a gene with the old weight
    /// leads from the old source to the new node, and a gene of weight one
    /// leads from the new node to the old target.
    pub open spec fn split(self, after: GenomeView, index: int, first: usize, second: usize) -> bool {
        let old_gene = self.connections[index];
        let new_id = self.nodes.len() as usize;
        &&& after.num_inputs == self.num_inputs
        &&& after.num_outputs == self.num_outputs
        &&& after.nodes == self.nodes.push(NodeGene { id: new_id })
        &&& exists|mid: Seq<ConnectionGene>|
            {
                &&& #[trigger] inserted(
                    self.rested(index),
                    mid,
                    ConnectionGene {
                        in_node: old_gene.in_node,
                        out_node: new_id,
                        weight: old_gene.weight,
                        enabled: true,
                        innov: first,
                    },
                )
                &&& inserted(
                    mid,
                    after.connections,
                    ConnectionGene {
                        in_node: new_id,
                        out_node: old_gene.out_node,
                        weight: WEIGHT_UNIT,
                        enabled: true,
                        innov: second,
                    },
                )
            }
    }

    /// Whether the connection at `index` can be split: the registry gives a
    /// number for the edge into the new node and one for the edge out of it,
    /// and the genome carries neither.
    pub open spec fn can_split(self, registry: RegistryView, index: int) -> bool {
        let old_gene = self.connections[index];
        let new_id = self.nodes.len() as usize;
        let first = registry.issued(old_gene.in_node, new_id);
        let between = registry.after_issue(old_gene.in_node, new_id);
        let second = between.issued(new_id, old_gene.out_node);
        self.accepts(first) && self.accepts(second)
    }

    /// Whether `after`, with the registry `after_registry`, is what
    /// splitting the connection at `index` makes of this genome and the
    /// registry `registry`.
    ///
    /// The registry issues a number for the edge into the new node and then,
    /// if it gave one, for the edge out of it. The genome is split if both
    /// numbers came and it carries neither; else it is unchanged.
    pub open spec fn split_outcome(
        self,
        registry: RegistryView,
        after: GenomeView,
        after_registry: RegistryView,
        index: int,
    ) -> bool {
        let old_gene = self.connections[index];
        let new_id = self.nodes.len() as usize;
        let first = registry.issued(old_gene.in_node, new_id);
        let between = registry.after_issue(old_gene.in_node, new_id);
        let second = between.issued(new_id, old_gene.out_node);
        if first is None {
            after == self && after_registry == registry
        } else {
            &&& after_registry == between.after_issue(new_id, old_gene.out_node)
            &&& if self.accepts(first) && self.accepts(second) {
                self.split(after, index, first->0, second->0)
            } else {
                after == self
            }
        }
    }

    /// Whether `after`, with `after_registry`, is what one run of the
    /// add-connection mutation can make of this genome and `registry`:
    /// nothing where no candidate exists, else the growth of one candidate
    /// edge with weight one.
    pub open spec fn connection_added(
        self,
        registry: RegistryView,
        after: GenomeView,
        after_registry: RegistryView,
    ) -> bool {
        if exists|a: usize, b: usize| self.is_candidate(a, b) {
            exists|a: usize, b: usize|
                {
                    &&& #[trigger] self.is_candidate(a, b)
                    &&& self.grown(after, a, b, WEIGHT_UNIT, registry.issued(a, b))
                    &&& after_registry == registry.after_issue(a, b)
                }
        } else {
            after == self && after_registry == registry
        }
    }

    /// Whether `after`, with `after_registry`, is what one run of the
    /// add-node mutation can make of this genome and `registry`: nothing
    /// where no connection is enabled, else the split of one enabled
    /// connection.
    pub open spec fn node_added(
        self,
        registry: RegistryView,
        after: GenomeView,
        after_registry: RegistryView,
    ) -> bool {
        if exists|i: int| 0 <= i < self.connections.len() && (#[trigger] self.connections[i]).enabled {
            exists|i: int|
                {
                    &&& 0 <= i < self.connections.len()
                    &&& (#[trigger] self.connections[i]).enabled
                    &&& self.split_outcome(registry, after, after_registry, i)
                }
        } else {
            after == self && after_registry == registry
        }
    }

    /// This genome after a mutation did `draws[i]` to its connection `i`.
    pub open spec fn redrawn(self, draws: Seq<WeightDraw>) -> GenomeView {
        GenomeView {
            connections: Seq::new(
                self.connections.len(),
                |i: int| self.connections[i].after_draw(draws[i]),
            ),
            ..self
        }
    }

    /// Whether `after` is what the weight mutation can make of this genome
    /// with nudges from `table`.
    pub open spec fn weights_mutated(self, after: GenomeView, table: Seq<i64>) -> bool {
        exists|draws: Seq<WeightDraw>|
            {
                &&& draws.len() == self.connections.len()
                &&& forall|i: int| 0 <= i < draws.len() ==> (#[trigger] draws[i]).admissible(table)
                &&& after == #[trigger] self.redrawn(draws)
            }
    }

    /// Whether `after`, with `after_registry`, is what one mutation can make
    /// of this genome and `registry`: the weight mutation, then perhaps the
    /// add-connection mutation, then perhaps the add-node mutation.
    pub open spec fn mutated(
        self,
        registry: RegistryView,
        after: GenomeView,
        after_registry: RegistryView,
        table: Seq<i64>,
    ) -> bool {
        exists|redrawn: GenomeView, widened: GenomeView, between: RegistryView|
            {
                &&& self.weights_mutated(redrawn, table)
                &&& #[trigger] redrawn.perhaps_connection_added(registry, widened, between)
                &&& widened.perhaps_node_added(between, after, after_registry)
            }
    }

    /// Whether `after`, with `after_registry`, is this genome with
    /// `registry` after the add-connection mutation ran or did not run.
    pub open spec fn perhaps_connection_added(
        self,
        registry: RegistryView,
        after: GenomeView,
        after_registry: RegistryView,
    ) -> bool {
        self.connection_added(registry, after, after_registry) || (after == self && after_registry
            == registry)
    }

    /// Whether `after`, with `after_registry`, is this genome with
    /// `registry` after the add-node mutation ran or did not run.
    pub open spec fn perhaps_node_added(
        self,
        registry: RegistryView,
        after: GenomeView,
        after_registry: RegistryView,
    ) -> bool {
        self.node_added(registry, after, after_registry) || (after == self && after_registry
            == registry)
    }

    /// The child of this genome, the fitter parent, and `unfit`.
    ///
    /// The child has the nodes and the innovation numbers of the fitter
    /// parent. For a gene that the other parent matches, `picks` says from
    /// which of the two the child inherits it.
    pub open spec fn crossed(self, unfit: GenomeView, picks: Seq<bool>) -> GenomeView {
        GenomeView {
            connections: Seq::new(
                self.connections.len(),
                |i: int| inherited(self.connections[i], unfit.connections, picks[i]),
            ),
            ..self
        }
    }
}

impl Clone for Genome {
    /// A copy with the same content.
    fn clone(&self) -> (copy: Self)
        ensures
            copy@ == self@,
    {
        let mut node_genes: Vec<NodeGene> = Vec::new();
        let mut i: usize = 0;
        while i < self.node_genes.len()
            invariant
                i <= self.node_genes@.len(),
                node_genes@ == self.node_genes@.subrange(0, i as int),
            decreases self.node_genes@.len() - i,
        {
            node_genes.push(self.node_genes[i]);
            assert(node_genes@ =~= self.node_genes@.subrange(0, i + 1));
            i = i + 1;
        }
        assert(node_genes@ =~= self.node_genes@);
        let connection_genes = copy_genes(&self.connection_genes);
        Genome {
            num_inputs: self.num_inputs,
            num_outputs: self.num_outputs,
            node_genes,
            connection_genes,
        }
    }
}

/// A copy of a list of connection genes.
fn copy_genes(genes: &Vec<ConnectionGene>) -> (copy: Vec<ConnectionGene>)
    ensures
        copy@ == genes@,
{
    let mut copy: Vec<ConnectionGene> = Vec::new();
    let mut i: usize = 0;
    while i < genes.len()
        invariant
            i <= genes@.len(),
            copy@ == genes@.subrange(0, i as int),
        decreases genes@.len() - i,
    {
        copy.push(genes[i]);
        assert(copy@ =~= genes@.subrange(0, i + 1));
        i = i + 1;
    }
    assert(copy@ =~= genes@);
    copy
}

impl Genome {
    /// The structural invariants of a genome: see [`GenomeView::wf`].
    pub open spec fn wf(&self) -> bool {
        self@.wf()
    }

    /// A genome for `num_inputs` real inputs and `num_outputs` outputs: the
    /// bias node, the inputs and the outputs, and no connection.
    pub fn new(num_inputs: usize, num_outputs: usize) -> (genome: Self)
        requires
            num_inputs + 1 + num_outputs <= usize::MAX,
        ensures
            genome@ == GenomeView::fresh(num_inputs, num_outputs),
            genome.wf(),
    {
        let total: usize = num_inputs + 1 + num_outputs;
        let mut node_genes: Vec<NodeGene> = Vec::new();
        let mut i: usize = 0;
        while i < total
            invariant
                i <= total,
                node_genes@.len() == i,
                forall|k: int| 0 <= k < i ==> (#[trigger] node_genes@[k]).id == k,
            decreases total - i,
        {
            node_genes.push(NodeGene { id: i });
            i = i + 1;
        }
        let genome = Genome {
            num_inputs: num_inputs + 1,
            num_outputs,
            node_genes,
            connection_genes: Vec::new(),
        };
        assert(genome@.nodes =~= GenomeView::fresh(num_inputs, num_outputs).nodes);
        assert(genome@.connections =~= GenomeView::fresh(num_inputs, num_outputs).connections);
        genome
    }

    /// Whether two genomes have the same content.
    pub fn same_as(&self, other: &Genome) -> (same: bool)
        ensures
            same == (self@ == other@),
    {
        if self.num_inputs != other.num_inputs || self.num_outputs != other.num_outputs
            || self.node_genes.len() != other.node_genes.len() || self.connection_genes.len()
            != other.connection_genes.len() {
            return false;
        }
        let mut i: usize = 0;
        while i < self.node_genes.len()
            invariant
                self.node_genes@.len() == other.node_genes@.len(),
                i <= self.node_genes@.len(),
                forall|k: int| 0 <= k < i ==> self.node_genes@[k] == other.node_genes@[k],
            decreases self.node_genes@.len() - i,
        {
            if self.node_genes[i].id != other.node_genes[i].id {
                assert(self@.nodes[i as int] != other@.nodes[i as int]);
                return false;
            }
            i = i + 1;
        }
        let mut j: usize = 0;
        while j < self.connection_genes.len()
            invariant
                self.connection_genes@.len() == other.connection_genes@.len(),
                j <= self.connection_genes@.len(),
                forall|k: int| 0 <= k < j ==> self.connection_genes@[k] == other.connection_genes@[k],
            decreases self.connection_genes@.len() - j,
        {
            let mine = self.connection_genes[j];
            let theirs = other.connection_genes[j];
            if mine.in_node != theirs.in_node || mine.out_node != theirs.out_node || mine.weight
                != theirs.weight || mine.enabled != theirs.enabled || mine.innov != theirs.innov {
                assert(self@.connections[j as int] != other@.connections[j as int]);
                return false;
            }
            j = j + 1;
        }
        assert(self@.nodes =~= other@.nodes);
        assert(self@.connections =~= other@.connections);
        true
    }

    /// Whether the genome keeps its structural invariants.
    pub fn is_valid(&self) -> (valid: bool)
        ensures
            valid == self.wf(),
    {
        let nodes: usize = self.node_genes.len();
        let genes: usize = self.connection_genes.len();
        if self.num_inputs < 1 || nodes < self.num_inputs || nodes - self.num_inputs
            < self.num_outputs {
            return false;
        }
        let mut i: usize = 0;
        while i < nodes
            invariant
                nodes == self.node_genes@.len(),
                i <= nodes,
                forall|k: int| 0 <= k < i ==> (#[trigger] self.node_genes@[k]).id == k,
            decreases nodes - i,
        {
            if self.node_genes[i].id != i {
                return false;
            }
            i = i + 1;
        }
        let mut j: usize = 0;
        while j < genes
            invariant
                nodes == self.node_genes@.len(),
                genes == self.connection_genes@.len(),
                j <= genes,
                forall|k: int| 0 <= k < j ==> self@.admits(#[trigger] self.connection_genes@[k]),
                innovs_increasing(self.connection_genes@.subrange(0, j as int)),
                edges_distinct(self.connection_genes@.subrange(0, j as int)),
            decreases genes - j,
        {
            let gene = self.connection_genes[j];
            if gene.in_node >= nodes || gene.out_node >= nodes || gene.out_node < self.num_inputs {
                assert(!self@.admits(self.connection_genes@[j as int]));
                return false;
            }
            if j > 0 && self.connection_genes[j - 1].innov >= gene.innov {
                assert(!innovs_increasing(self.connection_genes@)) by {
                    assert(self.connection_genes@[j - 1].innov >= self.connection_genes@[j as int].innov);
                }
                return false;
            }
            let mut k: usize = 0;
            while k < j
                invariant
                    genes == self.connection_genes@.len(),
                    j < genes,
                    k <= j,
                    gene == self.connection_genes@[j as int],
                    forall|m: int| 0 <= m < k ==> !(#[trigger] self.connection_genes@[m]).same_edge(gene),
                decreases j - k,
            {
                if self.connection_genes[k].in_node == gene.in_node && self.connection_genes[k].out_node
                    == gene.out_node {
                    assert(!edges_distinct(self.connection_genes@)) by {
                        assert(self.connection_genes@[k as int].same_edge(
                            self.connection_genes@[j as int],
                        ));
                    }
                    return false;
                }
                k = k + 1;
            }
            proof {
                let before = self.connection_genes@.subrange(0, j as int);
                let after = self.connection_genes@.subrange(0, j + 1);
                assert forall|a: int, b: int| 0 <= a < b < after.len() implies (
                #[trigger] after[a]).innov < (#[trigger] after[b]).innov by {
                    if b < j {
                        assert(before[a].innov < before[b].innov);
                    } else if a < j - 1 {
                        assert(before[a].innov < before[j - 1].innov);
                    }
                }
                assert forall|a: int, b: int| 0 <= a < b < after.len() implies !(
                #[trigger] after[a]).same_edge(#[trigger] after[b]) by {
                    if b < j {
                        assert(!before[a].same_edge(before[b]));
                    } else {
                        assert(!self.connection_genes@[a].same_edge(gene));
                    }
                }
            }
            j = j + 1;
        }
        assert(self.connection_genes@.subrange(0, genes as int) =~= self.connection_genes@);
        true
    }

    /// Whether some connection carries the innovation number `innov`.
    pub fn has_innov(&self, innov: usize) -> (found: bool)
        ensures
            found == self@.has_innov(innov),
    {
        let mut i: usize = 0;
        while i < self.connection_genes.len()
            invariant
                i <= self.connection_genes@.len(),
                forall|k: int| 0 <= k < i ==> (#[trigger] self.connection_genes@[k]).innov != innov,
            decreases self.connection_genes@.len() - i,
        {
            if self.connection_genes[i].innov == innov {
                assert(self@.connections[i as int].innov == innov);
                return true;
            }
            i = i + 1;
        }
        false
    }

    /// Whether some connection joins `a` and `b`, in either direction.
    pub fn is_connected(&self, a: usize, b: usize) -> (found: bool)
        ensures
            found == self@.connected(a, b),
    {
        let mut i: usize = 0;
        while i < self.connection_genes.len()
            invariant
                i <= self.connection_genes@.len(),
                forall|k: int| 0 <= k < i ==> !(#[trigger] self.connection_genes@[k]).joins(a, b),
            decreases self.connection_genes@.len() - i,
        {
            let gene = self.connection_genes[i];
            if (gene.in_node == a && gene.out_node == b) || (gene.in_node == b && gene.out_node == a) {
                assert(self@.connections[i as int].joins(a, b));
                return true;
            }
            i = i + 1;
        }
        false
    }

    /// The pairs of nodes between which a connection may be grown, in
    /// lexicographic order: each candidate once, and nothing else.
    pub fn connection_candidates(&self) -> (candidates: Vec<(usize, usize)>)
        ensures
            forall|k: int|
                0 <= k < candidates@.len() ==> self@.is_candidate(
                    (#[trigger] candidates@[k]).0,
                    candidates@[k].1,
                ),
            forall|a: usize, b: usize| #[trigger]
                self@.is_candidate(a, b) ==> candidates@.contains((a, b)),
            forall|k: int, m: int|
                0 <= k < m < candidates@.len() ==> pair_before(
                    #[trigger] candidates@[k],
                    #[trigger] candidates@[m],
                ),
    {
        let nodes: usize = self.node_genes.len();
        let mut candidates: Vec<(usize, usize)> = Vec::new();
        let mut a: usize = 0;
        while a < nodes
            invariant
                nodes == self.node_genes@.len(),
                a <= nodes,
                forall|k: int|
                    0 <= k < candidates@.len() ==> self@.is_candidate(
                        (#[trigger] candidates@[k]).0,
                        candidates@[k].1,
                    ) && candidates@[k].0 < a,
                forall|x: usize, y: usize| #[trigger]
                    self@.is_candidate(x, y) && x < a ==> candidates@.contains((x, y)),
                forall|k: int, m: int|
                    0 <= k < m < candidates@.len() ==> pair_before(
                        #[trigger] candidates@[k],
                        #[trigger] candidates@[m],
                    ),
            decreases nodes - a,
        {
            let mut b: usize = a + 1;
            while b < nodes
                invariant
                    nodes == self.node_genes@.len(),
                    a < nodes,
                    a < b <= nodes,
                    forall|k: int|
                        0 <= k < candidates@.len() ==> self@.is_candidate(
                            (#[trigger] candidates@[k]).0,
                            candidates@[k].1,
                        ) && pair_before(candidates@[k], (a, b)),
                    forall|x: usize, y: usize| #[trigger]
                        self@.is_candidate(x, y) && pair_before((x, y), (a, b))
                            ==> candidates@.contains((x, y)),
                    forall|k: int, m: int|
                        0 <= k < m < candidates@.len() ==> pair_before(
                            #[trigger] candidates@[k],
                            #[trigger] candidates@[m],
                        ),
                decreases nodes - b,
            {
                let inputs = a < self.num_inputs && b < self.num_inputs;
                let outputs = a >= self.num_inputs && b - self.num_inputs < self.num_outputs;
                if !inputs && !outputs && !self.is_connected(a, b) {
                    let ghost before = candidates@;
                    candidates.push((a, b));
                    assert forall|x: usize, y: usize| #[trigger]
                        self@.is_candidate(x, y) && pair_before((x, y), (a, (b + 1) as usize))
                        implies candidates@.contains((x, y)) by {
                        if x == a && y == b {
                            assert(candidates@[before.len() as int] == (a, b));
                        } else {
                            assert(before.contains((x, y)));
                            let k = choose|k: int| 0 <= k < before.len() && before[k] == (x, y);
                            assert(candidates@[k] == (x, y));
                        }
                    }
                }
                b = b + 1;
            }
            a = a + 1;
        }
        candidates
    }

    /// The positions of the enabled connections, in increasing order: each
    /// once, and nothing else.
    pub fn enabled_connections(&self) -> (enabled: Vec<usize>)
        ensures
            forall|k: int|
                0 <= k < enabled@.len() ==> (#[trigger] enabled@[k]) < self.connection_genes@.len()
                    && self.connection_genes@[enabled@[k] as int].enabled,
            forall|i: int|
                0 <= i < self.connection_genes@.len() && (#[trigger] self.connection_genes@[i]).enabled
                    ==> enabled@.contains(i as usize),
            forall|k: int, m: int|
                0 <= k < m < enabled@.len() ==> (#[trigger] enabled@[k]) < (#[trigger] enabled@[m]),
    {
        let mut enabled: Vec<usize> = Vec::new();
        let mut i: usize = 0;
        while i < self.connection_genes.len()
            invariant
                i <= self.connection_genes@.len(),
                forall|k: int|
                    0 <= k < enabled@.len() ==> (#[trigger] enabled@[k]) < i
                        && self.connection_genes@[enabled@[k] as int].enabled,
                forall|j: int|
                    0 <= j < i && (#[trigger] self.connection_genes@[j]).enabled ==> enabled@.contains(
                        j as usize,
                    ),
                forall|k: int, m: int|
                    0 <= k < m < enabled@.len() ==> (#[trigger] enabled@[k]) < (#[trigger] enabled@[m]),
            decreases self.connection_genes@.len() - i,
        {
            if self.connection_genes[i].enabled {
                let ghost before = enabled@;
                enabled.push(i);
                assert forall|j: int|
                    0 <= j < i + 1 && (#[trigger] self.connection_genes@[j]).enabled
                    implies enabled@.contains(j as usize) by {
                    if j == i {
                        assert(enabled@[before.len() as int] == i);
                    } else {
                        assert(before.contains(j as usize));
                        let k = choose|k: int| 0 <= k < before.len() && before[k] == j as usize;
                        assert(enabled@[k] == j as usize);
                    }
                }
            }
            i = i + 1;
        }
        enabled
    }

    /// Grows an enabled connection from `in_node` to `out_node`.
    ///
    /// The registry issues the number of the edge. The new gene goes to its
    /// place in the order of innovation numbers. The genome stays as it is,
    /// and `false` is returned, where the registry has no number left to
    /// give or the genome already carries the number.
    pub fn grow_connection(
        &mut self,
        in_node: usize,
        out_node: usize,
        weight: i64,
        registry: &mut InnovationRegistry,
    ) -> (grown: bool)
        requires
            old(self).wf(),
            old(registry).wf(),
            in_node < old(self).node_genes@.len(),
            out_node < old(self).node_genes@.len(),
            out_node >= old(self).num_inputs,
            !old(self)@.has_edge(in_node, out_node),
        ensures
            final(self).wf(),
            final(registry).wf(),
            final(registry)@ == old(registry)@.after_issue(in_node, out_node),
            final(registry)@.extends(old(registry)@),
            final(self).num_inputs == old(self).num_inputs,
            final(self).num_outputs == old(self).num_outputs,
            grown == old(self)@.accepts(old(registry)@.issued(in_node, out_node)),
            old(self)@.grown(
                final(self)@,
                in_node,
                out_node,
                weight,
                old(registry)@.issued(in_node, out_node),
            ),
    {
        match registry.issue(in_node, out_node) {
            None => false,
            Some(innov) => {
                if self.has_innov(innov) {
                    return false;
                }
                let gene = ConnectionGene { in_node, out_node, weight, enabled: true, innov };
                insert_gene(&mut self.connection_genes, gene);
                proof {
                    lemma_inserted_keeps_wf(old(self)@, self@, gene);
                }
                true
            },
        }
    }

    /// The add-connection mutation: grows, with weight one, a connection
    /// between one of the candidate pairs, drawn uniformly. Without a
    /// candidate nothing changes.
    pub fn add_connection(&mut self, registry: &mut InnovationRegistry, rng: &mut ThreadRng)
        requires
            old(self).wf(),
            old(registry).wf(),
        ensures
            final(self).wf(),
            final(registry).wf(),
            final(registry)@.extends(old(registry)@),
            final(self).num_inputs == old(self).num_inputs,
            final(self).num_outputs == old(self).num_outputs,
            old(self)@.connection_added(old(registry)@, final(self)@, final(registry)@),
    {
        let candidates = self.connection_candidates();
        if candidates.len() == 0 {
            assert forall|a: usize, b: usize| !self@.is_candidate(a, b) by {
                if self@.is_candidate(a, b) {
                    assert(candidates@.contains((a, b)));
                }
            }
            return ;
        }
        let drawn = random_below(rng, candidates.len() as u64) as usize;
        let (a, b) = candidates[drawn];
        assert(self@.is_candidate(a, b));
        assert(!self@.has_edge(a, b)) by {
            if self@.has_edge(a, b) {
                let i = choose|i: int|
                    0 <= i < self@.connections.len() && (#[trigger] self@.connections[i]).in_node == a
                        && self@.connections[i].out_node == b;
                assert(self@.connections[i].joins(a, b));
            }
        }
        self.grow_connection(a, b, WEIGHT_UNIT, registry);
    }

    /// Splits the connection at `index` by a new node.
    ///
    /// The registry issues a number for the edge into the new node and, if
    /// it gave one, for the edge out of it. Where both numbers came and the
    /// genome carries neither, the old gene is put to rest, the new node is
    /// added with the next id, and the two new genes go to their places;
    /// else the genome stays as it is and `false` is returned.
    pub fn split_connection(&mut self, index: usize, registry: &mut InnovationRegistry) -> (done: bool)
        requires
            old(self).wf(),
            old(registry).wf(),
            index < old(self).connection_genes@.len(),
        ensures
            final(self).wf(),
            final(registry).wf(),
            final(registry)@.extends(old(registry)@),
            final(self).num_inputs == old(self).num_inputs,
            final(self).num_outputs == old(self).num_outputs,
            old(self)@.split_outcome(old(registry)@, final(self)@, final(registry)@, index as int),
            done == old(self)@.can_split(old(registry)@, index as int),
            !done ==> final(self)@ == old(self)@,
    {
        let old_gene = self.connection_genes[index];
        let new_id: usize = self.node_genes.len();
        let first = match registry.issue(old_gene.in_node, new_id) {
            None => {
                return false;
            },
            Some(innov) => innov,
        };
        let ghost between = registry@;
        let second = match registry.issue(new_id, old_gene.out_node) {
            None => {
                return false;
            },
            Some(innov) => innov,
        };
        if self.has_innov(first) || self.has_innov(second) {
            return false;
        }
        proof {
            lemma_issue_keeps_assignments(old(registry)@, old_gene.in_node, new_id);
            lemma_issue_keeps_assignments(between, new_id, old_gene.out_node);
            lemma_innovation_identifies_edge(
                registry@,
                (old_gene.in_node, new_id),
                (new_id, old_gene.out_node),
            );
            assert(first != second);
        }
        self.node_genes.push(NodeGene { id: new_id });
        self.connection_genes.set(
            index,
            ConnectionGene { weight: WEIGHT_UNIT, enabled: false, ..old_gene },
        );
        let ghost rested = self.connection_genes@;
        assert(rested == old(self)@.rested(index as int));
        let into = ConnectionGene {
            in_node: old_gene.in_node,
            out_node: new_id,
            weight: old_gene.weight,
            enabled: true,
            innov: first,
        };
        let out_of = ConnectionGene {
            in_node: new_id,
            out_node: old_gene.out_node,
            weight: WEIGHT_UNIT,
            enabled: true,
            innov: second,
        };
        proof {
            lemma_rested_keeps_wf(old(self)@, self@, index as int);
        }
        let ghost at_rest = self@;
        insert_gene(&mut self.connection_genes, into);
        let ghost mid = self@;
        proof {
            assert(!at_rest.has_edge(into.in_node, into.out_node)) by {
                if at_rest.has_edge(into.in_node, into.out_node) {
                    let i = choose|i: int|
                        0 <= i < at_rest.connections.len() && (
                        #[trigger] at_rest.connections[i]).in_node == into.in_node
                            && at_rest.connections[i].out_node == into.out_node;
                    assert(old(self)@.admits(old(self)@.connections[i]));
                }
            }
            lemma_inserted_keeps_wf(at_rest, mid, into);
            assert(!mid.has_innov(second)) by {
                if mid.has_innov(second) {
                    let i = choose|i: int|
                        0 <= i < mid.connections.len() && (#[trigger] mid.connections[i]).innov
                            == second;
                    lemma_inserted_from(at_rest.connections, mid.connections, into, i);
                    if mid.connections[i] != into {
                        let m = choose|m: int|
                            0 <= m < at_rest.connections.len() && at_rest.connections[m]
                                == mid.connections[i];
                        assert(old(self)@.connections[m].innov == second);
                    }
                }
            }
            assert(!mid.has_edge(out_of.in_node, out_of.out_node)) by {
                if mid.has_edge(out_of.in_node, out_of.out_node) {
                    let i = choose|i: int|
                        0 <= i < mid.connections.len() && (#[trigger] mid.connections[i]).in_node
                            == out_of.in_node && mid.connections[i].out_node == out_of.out_node;
                    lemma_inserted_from(at_rest.connections, mid.connections, into, i);
                    if mid.connections[i] != into {
                        let m = choose|m: int|
                            0 <= m < at_rest.connections.len() && at_rest.connections[m]
                                == mid.connections[i];
                        assert(old(self)@.admits(old(self)@.connections[m]));
                    }
                }
            }
        }
        insert_gene(&mut self.connection_genes, out_of);
        proof {
            lemma_inserted_keeps_wf(mid, self@, out_of);
            assert(inserted(old(self)@.rested(index as int), mid.connections, into));
            assert(old(self)@.split(self@, index as int, first, second));
        }
        true
    }

    /// The add-node mutation: splits one of the enabled connections, drawn
    /// uniformly, by a new node. Without an enabled connection nothing
    /// changes.
    pub fn add_node(&mut self, registry: &mut InnovationRegistry, rng: &mut ThreadRng)
        requires
            old(self).wf(),
            old(registry).wf(),
        ensures
            final(self).wf(),
            final(registry).wf(),
            final(registry)@.extends(old(registry)@),
            final(self).num_inputs == old(self).num_inputs,
            final(self).num_outputs == old(self).num_outputs,
            old(self)@.node_added(old(registry)@, final(self)@, final(registry)@),
    {
        let enabled = self.enabled_connections();
        if enabled.len() == 0 {
            assert forall|i: int| 0 <= i < self@.connections.len() implies !(
            #[trigger] self@.connections[i]).enabled by {
                if self@.connections[i].enabled {
                    assert(enabled@.contains(i as usize));
                }
            }
            return ;
        }
        let drawn = random_below(rng, enabled.len() as u64) as usize;
        let index = enabled[drawn];
        assert(self@.connections[index as int].enabled);
        self.split_connection(index, registry);
    }

    /// Does `draws[i]` to connection `i`: switches it if the draw says so,
    /// and nudges or replaces its weight.
    pub fn redraw_weights(&mut self, draws: &Vec<WeightDraw>)
        requires
            draws@.len() == old(self).connection_genes@.len(),
        ensures
            final(self)@ == old(self)@.redrawn(draws@),
            old(self).wf() ==> final(self).wf(),
    {
        let mut i: usize = 0;
        while i < self.connection_genes.len()
            invariant
                draws@.len() == old(self).connection_genes@.len(),
                self.connection_genes@.len() == old(self).connection_genes@.len(),
                self.num_inputs == old(self).num_inputs,
                self.num_outputs == old(self).num_outputs,
                self.node_genes@ == old(self).node_genes@,
                i <= self.connection_genes@.len(),
                forall|k: int|
                    0 <= k < i ==> #[trigger] self.connection_genes@[k] == old(
                        self,
                    ).connection_genes@[k].after_draw(draws@[k]),
                forall|k: int|
                    i <= k < self.connection_genes@.len() ==> #[trigger] self.connection_genes@[k]
                        == old(self).connection_genes@[k],
            decreases self.connection_genes@.len() - i,
        {
            let gene = self.connection_genes[i].redrawn(draws[i]);
            self.connection_genes.set(i, gene);
            i = i + 1;
        }
        assert(self@.connections =~= old(self)@.redrawn(draws@).connections);
        proof {
            if old(self).wf() {
                lemma_redrawn_keeps_wf(old(self)@, draws@);
            }
        }
    }

    /// The weight mutation: draws for every connection what happens to it,
    /// with [`WeightDraw::random`], and does it.
    pub fn mutate_weights_and_toggle(&mut self, rng: &mut ThreadRng, perturbations: &Vec<i64>)
        ensures
            old(self)@.weights_mutated(final(self)@, perturbations@),
            old(self).wf() ==> final(self).wf(),
    {
        let mut draws: Vec<WeightDraw> = Vec::new();
        let mut i: usize = 0;
        while i < self.connection_genes.len()
            invariant
                i <= self.connection_genes@.len(),
                draws@.len() == i,
                forall|k: int| 0 <= k < i ==> (#[trigger] draws@[k]).admissible(perturbations@),
            decreases self.connection_genes@.len() - i,
        {
            let draw = WeightDraw::random(rng, perturbations);
            draws.push(draw);
            i = i + 1;
        }
        self.redraw_weights(&draws);
        assert(final(self)@ == old(self)@.redrawn(draws@));
    }

    /// One mutation: the weight mutation always, then the add-connection
    /// mutation fifteen times in a hundred, then the add-node mutation three
    /// times in a hundred.
    ///
    /// The result keeps the structural invariants, but its enabled
    /// connections may form a cycle.
    pub fn mutate(
        &mut self,
        registry: &mut InnovationRegistry,
        rng: &mut ThreadRng,
        perturbations: &Vec<i64>,
    )
        requires
            old(self).wf(),
            old(registry).wf(),
        ensures
            final(self).wf(),
            final(registry).wf(),
            final(registry)@.extends(old(registry)@),
            final(self).num_inputs == old(self).num_inputs,
            final(self).num_outputs == old(self).num_outputs,
            old(self)@.mutated(old(registry)@, final(self)@, final(registry)@, perturbations@),
    {
        self.mutate_weights_and_toggle(rng, perturbations);
        let ghost redrawn = self@;
        if random_ratio(rng, CONNECTION_MUTATION_PERCENT, 100) {
            self.add_connection(registry, rng);
        }
        let ghost widened = self@;
        let ghost between = registry@;
        if random_ratio(rng, NODE_MUTATION_PERCENT, 100) {
            self.add_node(registry, rng);
        }
        assert(redrawn.perhaps_connection_added(old(registry)@, widened, between));
    }

    /// The child of `fit_parent` and `unfit_parent`, `picks` standing for
    /// the coin flips: see [`GenomeView::crossed`].
    ///
    /// The innovation numbers of both parents are walked in increasing
    /// order. A number of the fitter parent gives a gene of the child; a
    /// number that only the other parent carries gives none.
    pub fn crossover_with(fit_parent: &Genome, unfit_parent: &Genome, picks: &Vec<bool>) -> (child:
        Genome)
        requires
            fit_parent.wf(),
            picks@.len() == fit_parent.connection_genes@.len(),
        ensures
            child@ == fit_parent@.crossed(unfit_parent@, picks@),
            child.wf(),
    {
        let own = genes_by_innov(&fit_parent.connection_genes);
        let others = genes_by_innov(&unfit_parent.connection_genes);
        let all = innovs_of(&fit_parent.connection_genes, &unfit_parent.connection_genes);
        let ghost genes = fit_parent@.connections;
        let ghost walk = spec_btree_keys_iter(&all).remaining().unref();
        proof {
            lemma_walk(&all);
            lemma_by_innov(genes, genes.len() as int);
            assert forall|i: int| 0 <= i < genes.len() implies walk.contains(
                (#[trigger] genes[i]).innov,
            ) by {
                assert(carried(genes).contains(genes[i].innov));
                assert(all@.contains(genes[i].innov));
            }
        }
        let mut connection_genes: Vec<ConnectionGene> = Vec::new();
        for innov in iter: all.iter()
            invariant
                iter.seq() == spec_btree_keys_iter(&all).remaining(),
                walk == iter.seq().unref(),
                genes == fit_parent@.connections,
                innovs_increasing(genes),
                rises(walk),
                forall|i: int| 0 <= i < genes.len() ==> walk.contains((#[trigger] genes[i]).innov),
                own@ == by_innov(genes, genes.len() as int),
                others@ == by_innov(unfit_parent@.connections, unfit_parent@.connections.len() as int),
                picks@.len() == genes.len(),
                met(genes, walk, connection_genes@.len() as int, iter.index() as int),
                forall|k: int|
                    0 <= k < connection_genes@.len() ==> #[trigger] connection_genes@[k]
                        == inherited(genes[k], unfit_parent@.connections, picks@[k]),
        {
            proof {
                assert(walk[iter.index() as int] == *innov);
                lemma_met_next(genes, walk, connection_genes@.len() as int, iter.index() as int);
            }
            match own.get(innov) {
                Some(gene) => {
                    let at = connection_genes.len();
                    let inherited_gene = match others.get(innov) {
                        Some(other) => if picks[at] && other.in_node == gene.in_node
                            && other.out_node == gene.out_node {
                            *other
                        } else {
                            *gene
                        },
                        None => *gene,
                    };
                    connection_genes.push(inherited_gene);
                },
                None => {},
            }
        }
        proof {
            lemma_met_all(genes, walk, connection_genes@.len() as int);
        }
        let copy = fit_parent.clone();
        let child = Genome {
            num_inputs: copy.num_inputs,
            num_outputs: copy.num_outputs,
            node_genes: copy.node_genes,
            connection_genes,
        };
        assert(child@.connections =~= fit_parent@.crossed(unfit_parent@, picks@).connections);
        proof {
            lemma_crossed_keeps_wf(fit_parent@, unfit_parent@, picks@);
        }
        child
    }

    /// The child of two parents, before any mutation.
    ///
    /// The child has the nodes and the innovation numbers of the fitter
    /// parent. A gene that the other parent matches comes from either of the
    /// two, by a fair coin; every other gene comes from the fitter parent.
    pub fn crossover(fit_parent: &Genome, unfit_parent: &Genome, rng: &mut ThreadRng) -> (child:
        Genome)
        requires
            fit_parent.wf(),
        ensures
            exists|picks: Seq<bool>|
                picks.len() == fit_parent.connection_genes@.len() && child@
                    == #[trigger] fit_parent@.crossed(unfit_parent@, picks),
            child.wf(),
    {
        let mut picks: Vec<bool> = Vec::new();
        let mut i: usize = 0;
        while i < fit_parent.connection_genes.len()
            invariant
                i <= fit_parent.connection_genes@.len(),
                picks@.len() == i,
            decreases fit_parent.connection_genes@.len() - i,
        {
            let heads = coin_flip(rng);
            picks.push(heads);
            i = i + 1;
        }
        Genome::crossover_with(fit_parent, unfit_parent, &picks)
    }
}

/// Whether the pair `first` comes before the pair `second` in lexicographic
/// order.
pub open spec fn pair_before(first: (usize, usize), second: (usize, usize)) -> bool {
    first.0 < second.0 || (first.0 == second.0 && first.1 < second.1)
}

/// Puts `gene` into `genes` at its place in the order of innovation numbers.
fn insert_gene(genes: &mut Vec<ConnectionGene>, gene: ConnectionGene)
    requires
        innovs_increasing(old(genes)@),
        forall|i: int| 0 <= i < old(genes)@.len() ==> (#[trigger] old(genes)@[i]).innov != gene.innov,
    ensures
        inserted(old(genes)@, final(genes)@, gene),
        innovs_increasing(final(genes)@),
{
    let mut at: usize = 0;
    while at < genes.len() && genes[at].innov < gene.innov
        invariant
            genes@ == old(genes)@,
            at <= genes@.len(),
            forall|k: int| 0 <= k < at ==> (#[trigger] genes@[k]).innov < gene.innov,
        decreases genes@.len() - at,
    {
        at = at + 1;
    }
    genes.insert(at, gene);
    proof {
        let before = old(genes)@;
        let after = genes@;
        assert(after == before.insert(at as int, gene));
        assert forall|i: int, j: int| 0 <= i < j < after.len() implies (#[trigger] after[i]).innov < (
        #[trigger] after[j]).innov by {
            if j < at {
                assert(before[i].innov < before[j].innov);
            } else if j == at {
                assert(before[i].innov < gene.innov);
            } else if i < at {
                assert(before[i].innov < before[j - 1].innov || i == j - 1);
                if at < before.len() {
                    assert(before[at as int].innov > gene.innov);
                }
            } else if i == at {
                assert(before[at as int].innov > gene.innov);
                assert(before[at as int].innov <= before[j - 1].innov) by {
                    if at < j - 1 {
                        assert(before[at as int].innov < before[j - 1].innov);
                    }
                }
            } else {
                assert(before[i - 1].innov < before[j - 1].innov);
            }
        }
    }
}

/// Every gene of a list into which a gene was put is that gene or one of
/// the list before.
pub proof fn lemma_inserted_from(
    before: Seq<ConnectionGene>,
    after: Seq<ConnectionGene>,
    gene: ConnectionGene,
    i: int,
)
    requires
        inserted(before, after, gene),
        0 <= i < after.len(),
    ensures
        after[i] == gene || exists|m: int| 0 <= m < before.len() && before[m] == after[i],
{
    let at = choose|at: int| 0 <= at <= before.len() && after == #[trigger] before.insert(at, gene);
    if i < at {
        assert(before[i] == after[i]);
    } else if i > at {
        assert(before[i - 1] == after[i]);
    }
}

/// A genome stays well formed when a gene is put in that joins its nodes,
/// enters no input, and whose edge and number it did not have.
proof fn lemma_inserted_keeps_wf(before: GenomeView, after: GenomeView, gene: ConnectionGene)
    requires
        before.wf(),
        before.with_gene(after, gene),
        before.admits(gene),
        !before.has_edge(gene.in_node, gene.out_node),
        innovs_increasing(after.connections),
    ensures
        after.wf(),
{
    let at = choose|at: int|
        0 <= at <= before.connections.len() && after.connections
            == #[trigger] before.connections.insert(at, gene);
    assert forall|i: int| 0 <= i < after.connections.len() implies after.admits(
        #[trigger] after.connections[i],
    ) by {
        if i < at {
            assert(before.admits(before.connections[i]));
        } else if i > at {
            assert(before.admits(before.connections[i - 1]));
        }
    }
    assert forall|i: int, j: int| 0 <= i < j < after.connections.len() implies !(
    #[trigger] after.connections[i]).same_edge(#[trigger] after.connections[j]) by {
        let bi = if i < at { i } else { i - 1 };
        let bj = if j < at { j } else { j - 1 };
        if i == at {
            assert(after.connections[j] == before.connections[bj]);
            if before.connections[bj].same_edge(gene) {
                assert(before.has_edge(gene.in_node, gene.out_node));
            }
        } else if j == at {
            assert(after.connections[i] == before.connections[bi]);
            if before.connections[bi].same_edge(gene) {
                assert(before.has_edge(gene.in_node, gene.out_node));
            }
        } else {
            assert(after.connections[i] == before.connections[bi]);
            assert(after.connections[j] == before.connections[bj]);
            assert(!before.connections[bi].same_edge(before.connections[bj]));
        }
    }
}

/// A genome stays well formed when a node is added and one gene is put to
/// rest.
proof fn lemma_rested_keeps_wf(before: GenomeView, after: GenomeView, index: int)
    requires
        before.wf(),
        0 <= index < before.connections.len(),
        before.nodes.len() <= usize::MAX,
        after.num_inputs == before.num_inputs,
        after.num_outputs == before.num_outputs,
        after.nodes == before.nodes.push(NodeGene { id: before.nodes.len() as usize }),
        after.connections == before.rested(index),
    ensures
        after.wf(),
{
    assert forall|i: int| 0 <= i < after.nodes.len() implies (#[trigger] after.nodes[i]).id == i by {
        if i < before.nodes.len() {
            assert(before.nodes[i].id == i);
        }
    }
    assert forall|i: int| 0 <= i < after.connections.len() implies after.admits(
        #[trigger] after.connections[i],
    ) by {
        assert(before.admits(before.connections[i]));
    }
    assert forall|i: int, j: int| 0 <= i < j < after.connections.len() implies (
    #[trigger] after.connections[i]).innov < (#[trigger] after.connections[j]).innov by {
        assert(before.connections[i].innov < before.connections[j].innov);
    }
    assert forall|i: int, j: int| 0 <= i < j < after.connections.len() implies !(
    #[trigger] after.connections[i]).same_edge(#[trigger] after.connections[j]) by {
        assert(!before.connections[i].same_edge(before.connections[j]));
    }
}

/// The genes of a list by innovation number.
pub fn genes_by_innov(genes: &Vec<ConnectionGene>) -> (by_number: HashMap<usize, ConnectionGene>)
    ensures
        by_number@ == by_innov(genes@, genes@.len() as int),
{
    let mut by_number: HashMap<usize, ConnectionGene> = HashMap::new();
    let mut i: usize = 0;
    while i < genes.len()
        invariant
            i <= genes@.len(),
            by_number@ == by_innov(genes@, i as int),
        decreases genes@.len() - i,
    {
        by_number.insert(genes[i].innov, genes[i]);
        i = i + 1;
    }
    by_number
}

/// Every gene that is kept under a number carries that number and is one
/// of the list; and a number is kept exactly when a gene carries it.
pub proof fn lemma_by_innov(genes: Seq<ConnectionGene>, upto: int)
    requires
        0 <= upto <= genes.len(),
    ensures
        forall|innov: usize| #[trigger]
            by_innov(genes, upto).contains_key(innov) ==> by_innov(genes, upto)[innov].innov == innov
                && genes.contains(by_innov(genes, upto)[innov]),
        forall|innov: usize| #[trigger]
            by_innov(genes, upto).contains_key(innov) <==> exists|i: int|
                0 <= i < upto && (#[trigger] genes[i]).innov == innov,
    decreases upto,
{
    if upto > 0 {
        lemma_by_innov(genes, upto - 1);
        let before = by_innov(genes, upto - 1);
        let now = by_innov(genes, upto);
        let last = genes[upto - 1];
        assert forall|innov: usize| #[trigger] now.contains_key(innov) implies now[innov].innov
            == innov && genes.contains(now[innov]) by {
            if innov != last.innov {
                assert(before.contains_key(innov));
            }
        }
        assert forall|innov: usize| #[trigger]
            now.contains_key(innov) <==> exists|i: int|
                0 <= i < upto && (#[trigger] genes[i]).innov == innov by {
            if now.contains_key(innov) {
                if innov == last.innov {
                    assert(genes[upto - 1].innov == innov);
                } else {
                    assert(before.contains_key(innov));
                    let i = choose|i: int| 0 <= i < upto - 1 && (#[trigger] genes[i]).innov == innov;
                    assert(genes[i].innov == innov);
                }
            }
            if exists|i: int| 0 <= i < upto && (#[trigger] genes[i]).innov == innov {
                let i = choose|i: int| 0 <= i < upto && (#[trigger] genes[i]).innov == innov;
                if i < upto - 1 {
                    assert(before.contains_key(innov));
                }
            }
        }
    }
}

/// A well-formed genome stays well formed under the weight mutation.
proof fn lemma_redrawn_keeps_wf(before: GenomeView, draws: Seq<WeightDraw>)
    requires
        before.wf(),
        draws.len() == before.connections.len(),
    ensures
        before.redrawn(draws).wf(),
{
    let after = before.redrawn(draws);
    assert forall|i: int| 0 <= i < after.connections.len() implies after.admits(
        #[trigger] after.connections[i],
    ) by {
        assert(before.admits(before.connections[i]));
    }
    assert forall|i: int, j: int| 0 <= i < j < after.connections.len() implies (
    #[trigger] after.connections[i]).innov < (#[trigger] after.connections[j]).innov by {
        assert(before.connections[i].innov < before.connections[j].innov);
    }
    assert forall|i: int, j: int| 0 <= i < j < after.connections.len() implies !(
    #[trigger] after.connections[i]).same_edge(#[trigger] after.connections[j]) by {
        assert(!before.connections[i].same_edge(before.connections[j]));
    }
}

/// Every gene of a child carries the edge and the innovation number of the
/// gene of the fitter parent at the same place.
pub proof fn lemma_inherited_matches(gene: ConnectionGene, unfit: Seq<ConnectionGene>, pick: bool)
    ensures
        inherited(gene, unfit, pick).matches(gene),
        inherited(gene, unfit, pick) == gene || unfit.contains(inherited(gene, unfit, pick)),
{
    lemma_by_innov(unfit, unfit.len() as int);
}

/// The child of a well-formed fitter parent is well formed.
proof fn lemma_crossed_keeps_wf(fit: GenomeView, unfit: GenomeView, picks: Seq<bool>)
    requires
        fit.wf(),
    ensures
        fit.crossed(unfit, picks).wf(),
{
    let child = fit.crossed(unfit, picks);
    assert forall|i: int| 0 <= i < child.connections.len() implies (#[trigger] child.connections[i]).matches(
        fit.connections[i],
    ) by {
        lemma_inherited_matches(fit.connections[i], unfit.connections, picks[i]);
    }
    assert forall|i: int| 0 <= i < child.connections.len() implies child.admits(
        #[trigger] child.connections[i],
    ) by {
        assert(fit.admits(fit.connections[i]));
    }
    assert forall|i: int, j: int| 0 <= i < j < child.connections.len() implies (
    #[trigger] child.connections[i]).innov < (#[trigger] child.connections[j]).innov by {
        assert(fit.connections[i].innov < fit.connections[j].innov);
    }
    assert forall|i: int, j: int| 0 <= i < j < child.connections.len() implies !(
    #[trigger] child.connections[i]).same_edge(#[trigger] child.connections[j]) by {
        assert(!fit.connections[i].same_edge(fit.connections[j]));
    }
}

/// Crossover favours the fitter parent: the child carries exactly the
/// innovation numbers of the fitter parent, so a number that only the other
/// parent carries is absent from the child.
pub proof fn lemma_crossover_parent_dominance(
    fit: GenomeView,
    unfit: GenomeView,
    picks: Seq<bool>,
    innov: usize,
)
    ensures
        fit.crossed(unfit, picks).has_innov(innov) <==> fit.has_innov(innov),
        unfit.has_innov(innov) && !fit.has_innov(innov) ==> !fit.crossed(unfit, picks).has_innov(innov),
{
    let child = fit.crossed(unfit, picks);
    assert forall|i: int| 0 <= i < child.connections.len() implies (#[trigger] child.connections[i]).innov
        == fit.connections[i].innov by {
        lemma_inherited_matches(fit.connections[i], unfit.connections, picks[i]);
    }
    if child.has_innov(innov) {
        let i = choose|i: int|
            0 <= i < child.connections.len() && (#[trigger] child.connections[i]).innov == innov;
        assert(fit.connections[i].innov == innov);
    }
    if fit.has_innov(innov) {
        let i = choose|i: int|
            0 <= i < fit.connections.len() && (#[trigger] fit.connections[i]).innov == innov;
        assert(child.connections[i].innov == innov);
    }
}

} // verus!
