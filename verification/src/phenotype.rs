//! Phenotypes: genomes that were checked and put in evaluation order.
//!
//! A phenotype holds a genome together with a topological order of its
//! nodes over the enabled connections. Building one is the only check for
//! cycles: a genome whose enabled connections form a cycle has no such
//! order, and is refused.

use crate::errors::TyrosineError;
use crate::genome::{lemma_inserted_from, ConnectionGene, Genome, GenomeView, WEIGHT_UNIT};
use crate::innovation::{InnovationRegistry, RegistryView};
use rand::rngs::ThreadRng;
use std::collections::{HashMap, VecDeque};
use vstd::prelude::*;
use vstd::set_lib::lemma_len_subset;

verus! {

broadcast use vstd::std_specs::hash::group_hash_axioms;

/// How often a mutation is tried anew for one child before the topology is
/// given up as invalid.
pub const MUTATION_ATTEMPTS: usize = 16;

/// Whether `first` stands before `second` in `order`.
pub open spec fn comes_before(order: Seq<usize>, first: usize, second: usize) -> bool {
    exists|p: int, q: int|
        0 <= p < q < order.len() && #[trigger] order[p] == first && #[trigger] order[q] == second
}

impl GenomeView {
    /// Whether `order` is a topological order of this genome: it holds
    /// every node id once, and the source of every enabled connection
    /// stands before its target.
    pub open spec fn sorted_by(self, order: Seq<usize>) -> bool {
        &&& order.len() == self.nodes.len()
        &&& order.no_duplicates()
        &&& forall|k: int| 0 <= k < order.len() ==> (#[trigger] order[k]) < self.nodes.len()
        &&& forall|i: int|
            0 <= i < self.connections.len() && (#[trigger] self.connections[i]).enabled
                ==> comes_before(order, self.connections[i].in_node, self.connections[i].out_node)
    }

    /// Whether this genome has a topological order.
    pub open spec fn sortable(self) -> bool {
        exists|order: Seq<usize>| self.sorted_by(order)
    }

    /// Whether an enabled connection leads from `a` to `b`.
    pub open spec fn steps(self, a: usize, b: usize) -> bool {
        exists|i: int|
            0 <= i < self.connections.len() && (#[trigger] self.connections[i]).enabled
                && self.connections[i].in_node == a && self.connections[i].out_node == b
    }

    /// Whether `path` follows enabled connections from node to node.
    pub open spec fn is_walk(self, path: Seq<usize>) -> bool {
        forall|k: int| 0 <= k < path.len() - 1 ==> self.steps(#[trigger] path[k], path[k + 1])
    }

    /// Whether the enabled connections form a cycle: a walk of at least one
    /// step that ends where it began.
    pub open spec fn has_cycle(self) -> bool {
        exists|path: Seq<usize>| path.len() >= 2 && path[0] == path.last() && self.is_walk(path)
    }
}

/// A genome that was checked, with an order in which to evaluate its nodes.
#[derive(Debug, PartialEq, Eq)]
pub struct Phenotype {
    /// The genome that the network is built from.
    pub genome: Genome,
    /// The node ids in a topological order of the enabled connections.
    pub toposorted_nodes: Vec<usize>,
}

/// The mathematical content of a [`Phenotype`].
pub struct PhenotypeView {
    /// The genome that the network is built from.
    pub genome: GenomeView,
    /// The node ids in evaluation order.
    pub order: Seq<usize>,
}

impl View for Phenotype {
    type V = PhenotypeView;

    open spec fn view(&self) -> PhenotypeView {
        PhenotypeView { genome: self.genome@, order: self.toposorted_nodes@ }
    }
}

impl PhenotypeView {
    /// The invariant of a phenotype: its genome is well formed, and its
    /// order is a topological order of that genome.
    pub open spec fn wf(self) -> bool {
        self.genome.wf() && self.genome.sorted_by(self.order)
    }
}

impl Clone for Phenotype {
    /// A copy with the same content.
    fn clone(&self) -> (copy: Self)
        ensures
            copy@ == self@,
    {
        let mut toposorted_nodes: Vec<usize> = Vec::new();
        let mut i: usize = 0;
        while i < self.toposorted_nodes.len()
            invariant
                i <= self.toposorted_nodes@.len(),
                toposorted_nodes@ == self.toposorted_nodes@.subrange(0, i as int),
            decreases self.toposorted_nodes@.len() - i,
        {
            toposorted_nodes.push(self.toposorted_nodes[i]);
            assert(toposorted_nodes@ =~= self.toposorted_nodes@.subrange(0, i + 1));
            i = i + 1;
        }
        assert(toposorted_nodes@ =~= self.toposorted_nodes@);
        Phenotype { genome: self.genome.clone(), toposorted_nodes }
    }
}

/// Where a node gets its value from before any node is computed.
#[derive(Clone, Copy, Debug, PartialEq, Eq, Structural)]
pub enum Preset {
    /// The constant one: the value of the bias node.
    Bias,
    /// The input at this position.
    Input(usize),
}

/// One computed node of an activation: its value is the hyperbolic tangent
/// of the sum, over `terms`, of the value of the source times the weight.
#[derive(Debug, PartialEq, Eq)]
pub struct NodeStep {
    /// The node that is computed.
    pub node: usize,
    /// The source and the weight of every enabled connection into the node,
    /// in the order of the genome.
    pub terms: Vec<(usize, i64)>,
}

/// The order of work of one activation.
///
/// The nodes `0 .. presets.len()` get their values from `presets`. Then the
/// nodes of `steps` are computed one after the other. The result is the
/// values of the nodes of `outputs`, in that order.
#[derive(Debug, PartialEq, Eq)]
pub struct ActivationPlan {
    /// For each input node, the bias first, where its value comes from.
    pub presets: Vec<Preset>,
    /// The computed nodes, in evaluation order.
    pub steps: Vec<NodeStep>,
    /// The output nodes, in order of id.
    pub outputs: Vec<usize>,
}

/// The source and the weight of each enabled connection, among the first
/// `upto`, that enters `node`.
pub open spec fn incoming(genes: Seq<ConnectionGene>, node: usize, upto: int) -> Seq<(usize, i64)>
    decreases upto,
{
    if upto <= 0 {
        Seq::empty()
    } else if genes[upto - 1].enabled && genes[upto - 1].out_node == node {
        incoming(genes, node, upto - 1).push((genes[upto - 1].in_node, genes[upto - 1].weight))
    } else {
        incoming(genes, node, upto - 1)
    }
}

/// The nodes, among the first `upto` of `order`, that are not inputs.
pub open spec fn computed(order: Seq<usize>, num_inputs: usize, upto: int) -> Seq<usize>
    decreases upto,
{
    if upto <= 0 {
        Seq::empty()
    } else if order[upto - 1] >= num_inputs {
        computed(order, num_inputs, upto - 1).push(order[upto - 1])
    } else {
        computed(order, num_inputs, upto - 1)
    }
}

/// Where input node `node` gets its value from.
pub open spec fn preset_of(node: int) -> Preset {
    if node == 0 {
        Preset::Bias
    } else {
        Preset::Input((node - 1) as usize)
    }
}

impl PhenotypeView {
    /// Whether `presets`, `steps` and `outputs` are the plan of an
    /// activation of this phenotype.
    ///
    /// The bias node is preset to one and input node `i` to input `i - 1`.
    /// The steps are the other nodes in evaluation order, each with every
    /// enabled connection that enters it. The outputs are the ids that
    /// follow the inputs.
    pub open spec fn planned(
        self,
        presets: Seq<Preset>,
        steps: Seq<(usize, Seq<(usize, i64)>)>,
        outputs: Seq<usize>,
    ) -> bool {
        let nodes = computed(self.order, self.genome.num_inputs, self.order.len() as int);
        &&& presets == Seq::new(self.genome.num_inputs as nat, |i: int| preset_of(i))
        &&& steps == Seq::new(
            nodes.len(),
            |k: int|
                (nodes[k], incoming(self.genome.connections, nodes[k], self.genome.connections.len() as int)),
        )
        &&& outputs == Seq::new(
            self.genome.num_outputs as nat,
            |k: int| (self.genome.num_inputs + k) as usize,
        )
    }
}

impl ActivationPlan {
    /// The computed nodes with their terms, as plain values.
    pub open spec fn steps_view(&self) -> Seq<(usize, Seq<(usize, i64)>)> {
        Seq::new(self.steps@.len(), |k: int| (self.steps@[k].node, self.steps@[k].terms@))
    }
}

impl Phenotype {
    /// The invariant of a phenotype: see [`PhenotypeView::wf`].
    pub open spec fn wf(&self) -> bool {
        self@.wf()
    }

    /// Whether the phenotype keeps its invariant: the genome is well formed
    /// and the order is a topological order of it.
    pub fn is_valid(&self) -> (valid: bool)
        ensures
            valid == self.wf(),
    {
        if !self.genome.is_valid() {
            return false;
        }
        let nodes: usize = self.genome.node_genes.len();
        if self.toposorted_nodes.len() != nodes {
            return false;
        }
        let mut place: Vec<usize> = Vec::new();
        let mut v: usize = 0;
        while v < nodes
            invariant
                v <= nodes,
                place@.len() == v,
                forall|k: int| 0 <= k < v ==> #[trigger] place@[k] == nodes,
            decreases nodes - v,
        {
            place.push(nodes);
            v = v + 1;
        }
        let mut at: usize = 0;
        while at < nodes
            invariant
                nodes == self.genome.node_genes@.len(),
                nodes == self.toposorted_nodes@.len(),
                at <= nodes,
                place@.len() == nodes,
                forall|k: int| 0 <= k < at ==> (#[trigger] self@.order[k]) < nodes,
                forall|k: int, m: int| 0 <= k < m < at ==> self@.order[k] != self@.order[m],
                forall|node: int|
                    0 <= node < nodes ==> (#[trigger] place@[node]) == nodes || (place@[node] < at
                        && self@.order[place@[node] as int] == node),
                forall|k: int| 0 <= k < at ==> place@[(#[trigger] self@.order[k]) as int] == k,
            decreases nodes - at,
        {
            let node = self.toposorted_nodes[at];
            if node >= nodes {
                assert(!(self@.order[at as int] < self@.genome.nodes.len()));
                return false;
            }
            if place[node] != nodes {
                assert(!self@.order.no_duplicates()) by {
                    assert(self@.order[place@[node as int] as int] == self@.order[at as int]);
                }
                return false;
            }
            place.set(node, at);
            at = at + 1;
        }
        assert(self@.order.no_duplicates());
        let mut i: usize = 0;
        while i < self.genome.connection_genes.len()
            invariant
                self.genome.wf(),
                nodes == self.genome.node_genes@.len(),
                nodes == self.toposorted_nodes@.len(),
                i <= self.genome.connection_genes@.len(),
                place@.len() == nodes,
                self@.order.no_duplicates(),
                forall|k: int| 0 <= k < nodes ==> (#[trigger] self@.order[k]) < nodes,
                forall|k: int| 0 <= k < nodes ==> place@[(#[trigger] self@.order[k]) as int] == k,
                forall|m: int|
                    0 <= m < i && (#[trigger] self@.genome.connections[m]).enabled ==> comes_before(
                        self@.order,
                        self@.genome.connections[m].in_node,
                        self@.genome.connections[m].out_node,
                    ),
            decreases self.genome.connection_genes@.len() - i,
        {
            let gene = self.genome.connection_genes[i];
            assert(self@.genome.admits(self@.genome.connections[i as int]));
            if gene.enabled {
                proof {
                    lemma_distinct_nodes(self@.order, nodes as nat);
                    assert(self@.order.contains(gene.in_node));
                    assert(self@.order.contains(gene.out_node));
                }
                let ghost from = choose|p: int| 0 <= p < nodes && self@.order[p] == gene.in_node;
                let ghost to = choose|q: int| 0 <= q < nodes && self@.order[q] == gene.out_node;
                if place[gene.in_node] >= place[gene.out_node] {
                    assert(!comes_before(self@.order, gene.in_node, gene.out_node)) by {
                        if comes_before(self@.order, gene.in_node, gene.out_node) {
                            let (p, q) = choose|p: int, q: int|
                                0 <= p < q < self@.order.len() && #[trigger] self@.order[p]
                                    == gene.in_node && #[trigger] self@.order[q] == gene.out_node;
                            assert(p == from && q == to);
                        }
                    }
                    return false;
                }
                assert(self@.order[from] == gene.in_node && self@.order[to] == gene.out_node);
            }
            i = i + 1;
        }
        true
    }

    /// Checks a genome and puts it in evaluation order.
    ///
    /// A genome that breaks a structural invariant is refused as
    /// `InvalidGenome`. One whose enabled connections admit no topological
    /// order is refused as `InvalidTopology`. Every other genome is built.
    pub fn from_genome(genome: Genome) -> (built: Result<Phenotype, TyrosineError>)
        ensures
            match built {
                Ok(phenotype) => phenotype.wf() && phenotype@.genome == genome@,
                Err(error) => error == if genome.wf() {
                    TyrosineError::InvalidTopology
                } else {
                    TyrosineError::InvalidGenome
                },
            },
            built is Ok <==> genome.wf() && !genome@.has_cycle(),
            built is Ok <==> genome.wf() && genome@.sortable(),
    {
        if !genome.is_valid() {
            return Err(TyrosineError::InvalidGenome);
        }
        match topological_order(&genome) {
            Some(toposorted_nodes) => Ok(Phenotype { genome, toposorted_nodes }),
            None => Err(TyrosineError::InvalidTopology),
        }
    }

    /// A mutated copy of `genome`, checked and put in evaluation order.
    ///
    /// A copy is mutated and sorted; a copy whose enabled connections form
    /// a cycle is dropped and another is tried, sixteen times at most. The
    /// numbers issued for dropped copies stay issued. A genome without
    /// connections always succeeds: one mutation gives it at most one
    /// connection and one split of that connection, which form no cycle.
    pub fn from_mutation(
        genome: &Genome,
        registry: &mut InnovationRegistry,
        rng: &mut ThreadRng,
        perturbations: &Vec<i64>,
    ) -> (built: Result<Phenotype, TyrosineError>)
        requires
            genome.wf(),
            old(registry).wf(),
        ensures
            final(registry).wf(),
            final(registry)@.extends(old(registry)@),
            match built {
                Ok(phenotype) => {
                    &&& phenotype.wf()
                    &&& phenotype.genome.num_inputs == genome.num_inputs
                    &&& phenotype.genome.num_outputs == genome.num_outputs
                    &&& exists|start: RegistryView|
                        {
                            &&& start.wf()
                            &&& start.extends(old(registry)@)
                            &&& #[trigger] genome@.mutated(
                                start,
                                phenotype@.genome,
                                final(registry)@,
                                perturbations@,
                            )
                        }
                },
                Err(error) => error == TyrosineError::InvalidTopology,
            },
            genome@.connections.len() == 0 ==> built is Ok,
    {
        let mut attempt: usize = 0;
        while attempt < MUTATION_ATTEMPTS
            invariant
                genome.wf(),
                registry.wf(),
                registry@.extends(old(registry)@),
                attempt > 0 ==> genome@.connections.len() != 0,
            decreases MUTATION_ATTEMPTS - attempt,
        {
            let mut candidate = genome.clone();
            let ghost start = registry@;
            candidate.mutate(registry, rng, perturbations);
            proof {
                if genome@.connections.len() == 0 {
                    assert(genome.node_genes.len() <= usize::MAX);
                    lemma_first_mutation_has_no_cycle(
                        genome@,
                        start,
                        candidate@,
                        registry@,
                        perturbations@,
                    );
                }
            }
            match topological_order(&candidate) {
                Some(toposorted_nodes) => {
                    assert(genome@.mutated(start, candidate@, registry@, perturbations@));
                    return Ok(Phenotype { genome: candidate, toposorted_nodes });
                },
                None => {},
            }
            attempt = attempt + 1;
        }
        Err(TyrosineError::InvalidTopology)
    }

    /// The source and the weight of every enabled connection that enters
    /// `node`, in the order of the genome.
    pub fn incoming_terms(&self, node: usize) -> (terms: Vec<(usize, i64)>)
        ensures
            terms@ == incoming(self@.genome.connections, node, self@.genome.connections.len() as int),
    {
        let mut terms: Vec<(usize, i64)> = Vec::new();
        let mut j: usize = 0;
        while j < self.genome.connection_genes.len()
            invariant
                j <= self.genome.connection_genes@.len(),
                terms@ == incoming(self@.genome.connections, node, j as int),
            decreases self.genome.connection_genes@.len() - j,
        {
            let gene = self.genome.connection_genes[j];
            if gene.enabled && gene.out_node == node {
                terms.push((gene.in_node, gene.weight));
            }
            j = j + 1;
        }
        terms
    }

    /// The plan of one activation on `input_count` inputs.
    ///
    /// The number of inputs must be the number of input nodes without the
    /// bias; any other is refused as `InputArityMismatch`. The plan presets
    /// the bias node to one and every input node to its input, computes
    /// every other node in evaluation order, and reads the output nodes.
    pub fn activation_plan(&self, input_count: usize) -> (planned: Result<ActivationPlan, TyrosineError>)
        requires
            self.wf(),
        ensures
            planned is Ok <==> input_count + 1 == self.genome.num_inputs,
            match planned {
                Ok(plan) => {
                    &&& self@.planned(plan.presets@, plan.steps_view(), plan.outputs@)
                    &&& plan.presets@.len() == input_count + 1
                    &&& plan.outputs@.len() == self.genome.num_outputs
                },
                Err(error) => error == TyrosineError::InputArityMismatch,
            },
    {
        let num_inputs: usize = self.genome.num_inputs;
        let num_outputs: usize = self.genome.num_outputs;
        if input_count != num_inputs - 1 {
            return Err(TyrosineError::InputArityMismatch);
        }
        let mut presets: Vec<Preset> = Vec::new();
        presets.push(Preset::Bias);
        let mut i: usize = 1;
        while i < num_inputs
            invariant
                1 <= i <= num_inputs,
                presets@.len() == i,
                forall|k: int| 0 <= k < i ==> #[trigger] presets@[k] == preset_of(k),
            decreases num_inputs - i,
        {
            presets.push(Preset::Input(i - 1));
            i = i + 1;
        }
        let mut steps: Vec<NodeStep> = Vec::new();
        let ghost genes = self@.genome.connections;
        let mut at: usize = 0;
        while at < self.toposorted_nodes.len()
            invariant
                genes == self@.genome.connections,
                num_inputs == self.genome.num_inputs,
                at <= self.toposorted_nodes@.len(),
                steps@.len() == computed(self@.order, num_inputs, at as int).len(),
                forall|k: int|
                    0 <= k < steps@.len() ==> (#[trigger] steps@[k]).node == computed(
                        self@.order,
                        num_inputs,
                        at as int,
                    )[k] && steps@[k].terms@ == incoming(genes, steps@[k].node, genes.len() as int),
            decreases self.toposorted_nodes@.len() - at,
        {
            let node = self.toposorted_nodes[at];
            if node >= num_inputs {
                let terms = self.incoming_terms(node);
                steps.push(NodeStep { node, terms });
            }
            at = at + 1;
        }
        let mut outputs: Vec<usize> = Vec::new();
        let node_count: usize = self.genome.node_genes.len();
        let mut k: usize = 0;
        while k < num_outputs
            invariant
                num_inputs + num_outputs <= node_count,
                k <= num_outputs,
                outputs@.len() == k,
                forall|m: int| 0 <= m < k ==> #[trigger] outputs@[m] == (num_inputs + m) as usize,
            decreases num_outputs - k,
        {
            outputs.push(num_inputs + k);
            k = k + 1;
        }
        let plan = ActivationPlan { presets, steps, outputs };
        proof {
            let nodes = computed(self@.order, num_inputs, self@.order.len() as int);
            assert(plan.presets@ =~= Seq::new(num_inputs as nat, |i: int| preset_of(i)));
            assert(plan.steps_view() =~= Seq::new(
                nodes.len(),
                |k: int| (nodes[k], incoming(genes, nodes[k], genes.len() as int)),
            ));
            assert(plan.outputs@ =~= Seq::new(
                num_outputs as nat,
                |k: int| (num_inputs + k) as usize,
            ));
        }
        Ok(plan)
    }
}

/// The nodes among the first `head` of `order`.
pub open spec fn placed(order: Seq<usize>, head: int) -> Set<usize> {
    Set::new(|node: usize| exists|p: int| 0 <= p < head && p < order.len() && order[p] == node)
}

/// Whether connection `i` still holds `node` back: it is enabled and enters
/// `node`, its source is not `done`, and it is not one of the first `cut`
/// connections that leave `current`.
pub open spec fn holds_back(
    genes: Seq<ConnectionGene>,
    done: Set<usize>,
    current: usize,
    cut: int,
    node: usize,
    i: int,
) -> bool {
    &&& genes[i].enabled
    &&& genes[i].out_node == node
    &&& !done.contains(genes[i].in_node)
    &&& !(genes[i].in_node == current && i < cut)
}

/// How many of the first `upto` connections still hold `node` back.
pub open spec fn waiting(
    genes: Seq<ConnectionGene>,
    done: Set<usize>,
    current: usize,
    cut: int,
    node: usize,
    upto: int,
) -> nat
    decreases upto,
{
    if upto <= 0 {
        0
    } else {
        waiting(genes, done, current, cut, node, upto - 1) + if holds_back(
            genes,
            done,
            current,
            cut,
            node,
            upto - 1,
        ) {
            1nat
        } else {
            0nat
        }
    }
}

/// The count is at most the number of connections counted.
proof fn lemma_waiting_bound(
    genes: Seq<ConnectionGene>,
    done: Set<usize>,
    current: usize,
    cut: int,
    node: usize,
    upto: int,
)
    requires
        0 <= upto,
    ensures
        waiting(genes, done, current, cut, node, upto) <= upto,
    decreases upto,
{
    if upto > 0 {
        lemma_waiting_bound(genes, done, current, cut, node, upto - 1);
    }
}

/// Two counts over connections that hold back alike are equal.
proof fn lemma_waiting_alike(
    genes: Seq<ConnectionGene>,
    done: Set<usize>,
    current: usize,
    cut: int,
    other_done: Set<usize>,
    other_current: usize,
    other_cut: int,
    node: usize,
    upto: int,
)
    requires
        forall|i: int|
            0 <= i < upto ==> holds_back(genes, done, current, cut, node, i) == holds_back(
                genes,
                other_done,
                other_current,
                other_cut,
                node,
                i,
            ),
    ensures
        waiting(genes, done, current, cut, node, upto) == waiting(
            genes,
            other_done,
            other_current,
            other_cut,
            node,
            upto,
        ),
    decreases upto,
{
    if upto > 0 {
        lemma_waiting_alike(
            genes,
            done,
            current,
            cut,
            other_done,
            other_current,
            other_cut,
            node,
            upto - 1,
        );
    }
}

/// Moving the cut past connection `cut` lowers the count by one where that
/// connection held the node back, and leaves it otherwise.
proof fn lemma_waiting_cut(
    genes: Seq<ConnectionGene>,
    done: Set<usize>,
    current: usize,
    cut: int,
    node: usize,
    upto: int,
)
    requires
        0 <= cut,
    ensures
        waiting(genes, done, current, cut, node, upto) == waiting(
            genes,
            done,
            current,
            cut + 1,
            node,
            upto,
        ) + if cut < upto && holds_back(genes, done, current, cut, node, cut) && genes[cut].in_node
            == current {
            1nat
        } else {
            0nat
        },
    decreases upto,
{
    if upto > 0 {
        lemma_waiting_cut(genes, done, current, cut, node, upto - 1);
    }
}

/// A count of zero means that no connection holds the node back.
proof fn lemma_waiting_zero(
    genes: Seq<ConnectionGene>,
    done: Set<usize>,
    current: usize,
    cut: int,
    node: usize,
    upto: int,
)
    ensures
        waiting(genes, done, current, cut, node, upto) == 0 <==> forall|i: int|
            0 <= i < upto ==> !holds_back(genes, done, current, cut, node, i),
    decreases upto,
{
    if upto > 0 {
        lemma_waiting_zero(genes, done, current, cut, node, upto - 1);
        if waiting(genes, done, current, cut, node, upto) == 0 {
            assert forall|i: int| 0 <= i < upto implies !holds_back(
                genes,
                done,
                current,
                cut,
                node,
                i,
            ) by {}
        }
    }
}

/// A list of distinct values, all of which occur in another list of
/// distinct values, is no longer than that list.
proof fn lemma_distinct_within(inner: Seq<usize>, outer: Seq<usize>)
    requires
        inner.no_duplicates(),
        outer.no_duplicates(),
        forall|i: int| 0 <= i < inner.len() ==> outer.contains(#[trigger] inner[i]),
    ensures
        inner.len() <= outer.len(),
{
    inner.unique_seq_to_set();
    outer.unique_seq_to_set();
    vstd::seq_lib::seq_to_set_is_finite(outer);
    assert(inner.to_set().subset_of(outer.to_set())) by {
        assert forall|v: usize| inner.to_set().contains(v) implies outer.to_set().contains(v) by {
            let i = choose|i: int| 0 <= i < inner.len() && inner[i] == v;
            assert(outer.contains(inner[i]));
        }
    }
    lemma_len_subset(inner.to_set(), outer.to_set());
}

/// The node ids below `count`, in order.
pub open spec fn all_nodes(count: nat) -> Seq<usize> {
    Seq::new(count, |i: int| i as usize)
}

/// A list of distinct node ids below `count` holds at most `count` ids; if
/// it holds `count`, it holds every one.
pub proof fn lemma_distinct_nodes(order: Seq<usize>, count: nat)
    requires
        count <= usize::MAX,
        order.no_duplicates(),
        forall|k: int| 0 <= k < order.len() ==> (#[trigger] order[k]) < count,
    ensures
        order.len() <= count,
        order.len() == count ==> forall|node: usize| node < count ==> order.contains(node),
{
    let every = all_nodes(count);
    assert(every.no_duplicates());
    assert forall|i: int| 0 <= i < order.len() implies every.contains(#[trigger] order[i]) by {
        assert(every[order[i] as int] == order[i]);
    }
    lemma_distinct_within(order, every);
    if order.len() == count {
        order.unique_seq_to_set();
        every.unique_seq_to_set();
        vstd::seq_lib::seq_to_set_is_finite(order);
        vstd::seq_lib::seq_to_set_is_finite(every);
        assert(order.to_set().subset_of(every.to_set())) by {
            assert forall|v: usize| order.to_set().contains(v) implies every.to_set().contains(v) by {
                let i = choose|i: int| 0 <= i < order.len() && order[i] == v;
                assert(every.contains(order[i]));
            }
        }
        vstd::set_lib::lemma_subset_equality(order.to_set(), every.to_set());
        assert forall|node: usize| node < count implies order.contains(node) by {
            assert(every[node as int] == node);
            assert(every.to_set().contains(node));
            assert(order.to_set().contains(node));
        }
    }
}

/// What holds of the bookkeeping of the sort while `order[head]` is worked
/// on and its first `cut` connections are done.
pub open spec fn sort_state(
    genome: GenomeView,
    in_degree: Seq<usize>,
    order: Seq<usize>,
    head: int,
    cut: int,
) -> bool {
    let current = if head < order.len() {
        order[head]
    } else {
        0
    };
    &&& in_degree.len() == genome.nodes.len()
    &&& 0 <= head <= order.len()
    &&& order.no_duplicates()
    &&& forall|k: int| 0 <= k < order.len() ==> (#[trigger] order[k]) < genome.nodes.len()
    &&& forall|node: usize|
        node < genome.nodes.len() ==> (#[trigger] in_degree[node as int]) == waiting(
            genome.connections,
            placed(order, head),
            current,
            cut,
            node,
            genome.connections.len() as int,
        )
    &&& forall|node: usize|
        node < genome.nodes.len() ==> (order.contains(node) <==> (#[trigger] in_degree[node as int])
            == 0)
    &&& forall|q: int, i: int|
        0 <= q < order.len() && 0 <= i < genome.connections.len() && (
        #[trigger] genome.connections[i]).enabled && genome.connections[i].out_node
            == #[trigger] order[q] ==> exists|p: int|
            0 <= p < q && order[p] == genome.connections[i].in_node
}

/// Once every placed node is worked off, the nodes of any topological order
/// are all placed.
proof fn lemma_sorted_prefix_placed(
    genome: GenomeView,
    in_degree: Seq<usize>,
    order: Seq<usize>,
    other: Seq<usize>,
    upto: int,
)
    requires
        genome.wf(),
        sort_state(genome, in_degree, order, order.len() as int, 0),
        genome.sorted_by(other),
        0 <= upto <= other.len(),
    ensures
        forall|p: int| 0 <= p < upto ==> order.contains(#[trigger] other[p]),
    decreases upto,
{
    if upto > 0 {
        lemma_sorted_prefix_placed(genome, in_degree, order, other, upto - 1);
        let node = other[upto - 1];
        let genes = genome.connections;
        let done = placed(order, order.len() as int);
        assert forall|i: int| 0 <= i < genes.len() implies !holds_back(genes, done, 0, 0, node, i) by {
            if genes[i].enabled && genes[i].out_node == node {
                assert(comes_before(other, genes[i].in_node, genes[i].out_node));
                let (p, q) = choose|p: int, q: int|
                    0 <= p < q < other.len() && #[trigger] other[p] == genes[i].in_node
                        && #[trigger] other[q] == genes[i].out_node;
                assert(q == upto - 1);
                assert(order.contains(other[p]));
                let at = choose|at: int| 0 <= at < order.len() && order[at] == other[p];
                assert(done.contains(genes[i].in_node));
            }
        }
        lemma_waiting_zero(genes, done, 0, 0, node, genes.len() as int);
        assert(in_degree[node as int] == 0);
    }
}

/// The evaluation order of a well-formed genome, by Kahn's algorithm.
///
/// The in-degree of every node is counted over the enabled connections,
/// in a map by node id. The nodes of degree zero are queued first, in order
/// of id. Each queued node is then worked off, first in, first out: it is
/// placed, the degree of every node that it leads to is lowered, and a node
/// is queued when its degree reaches zero. The nodes that a node leads to
/// are kept in a map by node id. The result is `None` exactly when the
/// genome has no topological order.
pub fn topological_order(genome: &Genome) -> (sorted: Option<Vec<usize>>)
    requires
        genome.wf(),
    ensures
        match sorted {
            Some(order) => genome@.sorted_by(order@) && !genome@.has_cycle(),
            None => genome@.has_cycle() && !genome@.sortable(),
        },
{
    let nodes: usize = genome.node_genes.len();
    let genes: usize = genome.connection_genes.len();
    let mut in_degree: HashMap<usize, usize> = HashMap::new();
    let mut v: usize = 0;
    while v < nodes
        invariant
            v <= nodes,
            forall|node: usize| node < v ==> #[trigger] in_degree@.contains_key(node),
            forall|node: usize| node < v ==> #[trigger] in_degree@[node] == 0,
        decreases nodes - v,
    {
        in_degree.insert(v, 0);
        v = v + 1;
    }
    let mut graph: HashMap<usize, Vec<usize>> = HashMap::new();
    let mut j: usize = 0;
    while j < genes
        invariant
            genome.wf(),
            nodes == genome.node_genes@.len(),
            genes == genome.connection_genes@.len(),
            j <= genes,
            forall|node: usize| node < nodes ==> #[trigger] in_degree@.contains_key(node),
            forall|node: usize|
                node < nodes ==> (#[trigger] in_degree@[node]) == waiting(
                    genome@.connections,
                    Set::empty(),
                    0,
                    0,
                    node,
                    j as int,
                ),
            forall|node: usize| #[trigger]
                graph@.contains_key(node) ==> graph@[node]@ == outgoing(
                    genome@.connections,
                    node,
                    j as int,
                ),
            forall|node: usize|
                !(#[trigger] graph@.contains_key(node)) ==> outgoing(
                    genome@.connections,
                    node,
                    j as int,
                ).len() == 0,
        decreases genes - j,
    {
        let gene = genome.connection_genes[j];
        assert(genome@.admits(genome@.connections[j as int]));
        if gene.enabled {
            proof {
                lemma_waiting_bound(genome@.connections, Set::empty(), 0, 0, gene.out_node, j as int);
            }
            let degree = degree_of(&in_degree, gene.out_node);
            in_degree.insert(gene.out_node, degree + 1);
            let ghost before = graph@;
            let mut targets = match graph.remove(&gene.in_node) {
                Some(targets) => targets,
                None => Vec::new(),
            };
            targets.push(gene.out_node);
            graph.insert(gene.in_node, targets);
            assert forall|node: usize| #[trigger] graph@.contains_key(node) implies graph@[node]@
                == outgoing(genome@.connections, node, j + 1) by {
                if node != gene.in_node {
                    assert(before.contains_key(node));
                }
            }
            assert forall|node: usize| !(#[trigger] graph@.contains_key(node)) implies outgoing(
                genome@.connections,
                node,
                j + 1,
            ).len() == 0 by {
                assert(!before.contains_key(node));
            }
        }
        j = j + 1;
    }
    let mut order: Vec<usize> = Vec::new();
    let mut frontier: VecDeque<usize> = VecDeque::new();
    let mut v: usize = 0;
    while v < nodes
        invariant
            genome.wf(),
            nodes == genome.node_genes@.len(),
            genes == genome.connection_genes@.len(),
            v <= nodes,
            forall|node: usize| node < nodes ==> #[trigger] in_degree@.contains_key(node),
            forall|node: usize|
                node < nodes ==> (#[trigger] in_degree@[node]) == waiting(
                    genome@.connections,
                    Set::empty(),
                    0,
                    0,
                    node,
                    genes as int,
                ),
            forall|k: int| 0 <= k < frontier@.len() ==> (#[trigger] frontier@[k]) < v,
            forall|k: int, m: int|
                0 <= k < m < frontier@.len() ==> (#[trigger] frontier@[k]) < (#[trigger] frontier@[m]),
            forall|k: int| 0 <= k < frontier@.len() ==> in_degree@[#[trigger] frontier@[k]] == 0,
            forall|node: usize|
                node < v && (#[trigger] in_degree@[node]) == 0 ==> frontier@.contains(node),
        decreases nodes - v,
    {
        if degree_of(&in_degree, v) == 0 {
            let ghost before = frontier@;
            frontier.push_back(v);
            assert forall|node: usize|
                node < v + 1 && (#[trigger] in_degree@[node]) == 0 implies frontier@.contains(node) by {
                if node == v {
                    assert(frontier@[before.len() as int] == v);
                } else {
                    let k = choose|k: int| 0 <= k < before.len() && before[k] == node;
                    assert(frontier@[k] == node);
                }
            }
        }
        v = v + 1;
    }
    proof {
        let g = genome@;
        let degrees = degrees_of(in_degree@, nodes as nat);
        let queued = order@ + frontier@;
        assert(queued =~= frontier@);
        assert(placed(queued, 0) =~= Set::<usize>::empty());
        assert forall|node: usize| node < g.nodes.len() implies (#[trigger] degrees[node as int])
            == waiting(
            g.connections,
            placed(queued, 0),
            if 0 < queued.len() {
                queued[0]
            } else {
                0
            },
            0,
            node,
            g.connections.len() as int,
        ) by {
            lemma_waiting_alike(
                g.connections,
                Set::empty(),
                0,
                0,
                placed(queued, 0),
                if 0 < queued.len() {
                    queued[0]
                } else {
                    0
                },
                0,
                node,
                g.connections.len() as int,
            );
        }
        assert forall|q: int, i: int|
            0 <= q < queued.len() && 0 <= i < g.connections.len() && (#[trigger] g.connections[i]).enabled
                && g.connections[i].out_node == #[trigger] queued[q] implies exists|p: int|
            0 <= p < q && queued[p] == g.connections[i].in_node by {
            let node = queued[q];
            lemma_waiting_zero(g.connections, Set::empty(), 0, 0, node, g.connections.len() as int);
            assert(in_degree@[node] == 0);
            assert(holds_back(g.connections, Set::empty(), 0, 0, node, i));
        }
        assert forall|node: usize| node < g.nodes.len() implies (queued.contains(node) <==> (
        #[trigger] degrees[node as int]) == 0) by {
            if queued.contains(node) {
                let k = choose|k: int| 0 <= k < queued.len() && queued[k] == node;
                assert(in_degree@[frontier@[k]] == 0);
            }
        }
        assert(sort_state(g, degrees, queued, 0, 0));
    }
    while frontier.len() > 0
        invariant
            genome.wf(),
            nodes == genome.node_genes@.len(),
            genes == genome.connection_genes@.len(),
            forall|node: usize| #[trigger]
                graph@.contains_key(node) ==> graph@[node]@ == outgoing(
                    genome@.connections,
                    node,
                    genes as int,
                ),
            forall|node: usize|
                !(#[trigger] graph@.contains_key(node)) ==> outgoing(
                    genome@.connections,
                    node,
                    genes as int,
                ).len() == 0,
            forall|node: usize| node < nodes ==> #[trigger] in_degree@.contains_key(node),
            sort_state(
                genome@,
                degrees_of(in_degree@, nodes as nat),
                order@ + frontier@,
                order@.len() as int,
                0,
            ),
        decreases nodes - order@.len(),
    {
        let ghost queued = order@ + frontier@;
        proof {
            lemma_distinct_nodes(queued, nodes as nat);
        }
        let current = match frontier.pop_front() {
            Some(node) => node,
            None => {
                return None;
            },
        };
        order.push(current);
        let head: usize = order.len() - 1;
        assert(order@ + frontier@ =~= queued);
        let ghost all = genome@.connections;
        let ghost mut cut: int = next_leaving(all, current, 0);
        proof {
            lemma_next_leaving(all, current, 0);
            lemma_sort_skips(
                genome@,
                degrees_of(in_degree@, nodes as nat),
                order@ + frontier@,
                head as int,
                0,
                cut,
            );
        }
        match graph.get(&current) {
            Some(targets) => {
                let mut t: usize = 0;
                while t < targets.len()
                    invariant
                        genome.wf(),
                        nodes == genome.node_genes@.len(),
                        genes == genome.connection_genes@.len(),
                        all == genome@.connections,
                        head + 1 == order@.len(),
                        current == order@[head as int],
                        targets@ == outgoing(all, current, genes as int),
                        t <= targets@.len(),
                        0 <= cut <= genes,
                        cut < genes ==> leaves(all, current, cut),
                        outgoing(all, current, cut).len() == t,
                        forall|node: usize| node < nodes ==> #[trigger] in_degree@.contains_key(node),
                        sort_state(
                            genome@,
                            degrees_of(in_degree@, nodes as nat),
                            order@ + frontier@,
                            head as int,
                            cut,
                        ),
                    decreases targets@.len() - t,
                {
                    proof {
                        lemma_outgoing_prefix(all, current, cut, genes as int);
                        assert((order@ + frontier@)[head as int] == current);
                        assert(genome@.admits(all[cut]));
                    }
                    let target = targets[t];
                    let ghost before_degree = degrees_of(in_degree@, nodes as nat);
                    let ghost before_order = order@ + frontier@;
                    proof {
                        lemma_sort_step(genome@, before_degree, before_order, head as int, cut);
                    }
                    let degree = degree_of(&in_degree, target);
                    in_degree.insert(target, degree - 1);
                    if degree - 1 == 0 {
                        frontier.push_back(target);
                    }
                    proof {
                        assert(degrees_of(in_degree@, nodes as nat) =~= before_degree.update(
                            target as int,
                            (degree - 1) as usize,
                        ));
                        assert(order@ + frontier@ =~= if degree == 1 {
                            before_order.push(target)
                        } else {
                            before_order
                        });
                        lemma_sort_step_done(
                            genome@,
                            before_degree,
                            before_order,
                            degrees_of(in_degree@, nodes as nat),
                            order@ + frontier@,
                            head as int,
                            cut,
                        );
                        let next = next_leaving(all, current, cut + 1);
                        lemma_next_leaving(all, current, cut + 1);
                        lemma_sort_skips(
                            genome@,
                            degrees_of(in_degree@, nodes as nat),
                            order@ + frontier@,
                            head as int,
                            cut + 1,
                            next,
                        );
                        cut = next;
                    }
                    t = t + 1;
                }
                proof {
                    if cut < genes {
                        lemma_outgoing_prefix(all, current, cut, genes as int);
                    }
                }
            },
            None => {
                proof {
                    if cut < genes {
                        lemma_outgoing_prefix(all, current, cut, genes as int);
                    }
                }
            },
        }
        proof {
            lemma_sort_advance(
                genome@,
                degrees_of(in_degree@, nodes as nat),
                order@ + frontier@,
                head as int,
            );
        }
    }
    let ghost degrees = degrees_of(in_degree@, nodes as nat);
    assert(order@ + frontier@ =~= order@);
    if order.len() == nodes {
        proof {
            let g = genome@;
            lemma_distinct_nodes(order@, nodes as nat);
            assert forall|i: int| 0 <= i < g.connections.len() && (#[trigger] g.connections[i]).enabled
                implies comes_before(order@, g.connections[i].in_node, g.connections[i].out_node) by {
                assert(g.admits(g.connections[i]));
                assert(order@.contains(g.connections[i].out_node));
                let q = choose|q: int| 0 <= q < order@.len() && order@[q] == g.connections[i].out_node;
                let p = choose|p: int| 0 <= p < q && order@[p] == g.connections[i].in_node;
                assert(order@[p] == g.connections[i].in_node && order@[q] == g.connections[i].out_node);
            }
            lemma_sorted_has_no_cycle(g, order@);
        }
        Some(order)
    } else {
        proof {
            let g = genome@;
            assert forall|other: Seq<usize>| !g.sorted_by(other) by {
                if g.sorted_by(other) {
                    lemma_sorted_prefix_placed(g, degrees, order@, other, other.len() as int);
                    lemma_distinct_within(other, order@);
                    lemma_distinct_nodes(order@, nodes as nat);
                }
            }
            lemma_distinct_nodes(order@, nodes as nat);
            lemma_stuck_has_cycle(g, degrees, order@);
        }
        None
    }
}

/// Whether connection `i` is enabled and leaves `node`.
pub open spec fn leaves(genes: Seq<ConnectionGene>, node: usize, i: int) -> bool {
    genes[i].enabled && genes[i].in_node == node
}

/// The targets of the enabled connections, among the first `upto`, that
/// leave `node`, in the order of the genome.
pub open spec fn outgoing(genes: Seq<ConnectionGene>, node: usize, upto: int) -> Seq<usize>
    decreases upto,
{
    if upto <= 0 {
        Seq::empty()
    } else if leaves(genes, node, upto - 1) {
        outgoing(genes, node, upto - 1).push(genes[upto - 1].out_node)
    } else {
        outgoing(genes, node, upto - 1)
    }
}

/// The position, from `from` on, of the first connection that leaves
/// `node`, or the number of connections if there is none.
pub open spec fn next_leaving(genes: Seq<ConnectionGene>, node: usize, from: int) -> int
    decreases genes.len() - from,
{
    if from < 0 || from >= genes.len() {
        genes.len() as int
    } else if leaves(genes, node, from) {
        from
    } else {
        next_leaving(genes, node, from + 1)
    }
}

/// Up to the next connection that leaves a node, none leaves it, and the
/// targets stay the same.
proof fn lemma_next_leaving(genes: Seq<ConnectionGene>, node: usize, from: int)
    requires
        0 <= from <= genes.len(),
    ensures
        from <= next_leaving(genes, node, from) <= genes.len(),
        next_leaving(genes, node, from) < genes.len() ==> leaves(
            genes,
            node,
            next_leaving(genes, node, from),
        ),
        forall|i: int| from <= i < next_leaving(genes, node, from) ==> !leaves(genes, node, i),
        outgoing(genes, node, next_leaving(genes, node, from)) == outgoing(genes, node, from),
    decreases genes.len() - from,
{
    if from < genes.len() && !leaves(genes, node, from) {
        lemma_next_leaving(genes, node, from + 1);
    }
}

/// The targets of the first connections come first among the targets of
/// more; and a connection that leaves the node has its target next.
proof fn lemma_outgoing_prefix(genes: Seq<ConnectionGene>, node: usize, cut: int, upto: int)
    requires
        0 <= cut <= upto <= genes.len(),
    ensures
        outgoing(genes, node, cut).len() <= outgoing(genes, node, upto).len(),
        cut < upto && leaves(genes, node, cut) ==> outgoing(genes, node, cut).len() < outgoing(
            genes,
            node,
            upto,
        ).len() && outgoing(genes, node, upto)[outgoing(genes, node, cut).len() as int]
            == genes[cut].out_node,
    decreases upto - cut,
{
    if cut < upto {
        lemma_outgoing_prefix(genes, node, cut, upto - 1);
    }
}

/// Connections that do not leave the node worked on change nothing.
proof fn lemma_sort_skips(
    genome: GenomeView,
    in_degree: Seq<usize>,
    order: Seq<usize>,
    head: int,
    from: int,
    to: int,
)
    requires
        head < order.len(),
        0 <= from <= to <= genome.connections.len(),
        sort_state(genome, in_degree, order, head, from),
        forall|i: int| from <= i < to ==> !leaves(genome.connections, order[head], i),
    ensures
        sort_state(genome, in_degree, order, head, to),
    decreases to - from,
{
    if from < to {
        assert(!leaves(genome.connections, order[head], from));
        lemma_sort_skip(genome, in_degree, order, head, from);
        lemma_sort_skips(genome, in_degree, order, head, from + 1, to);
    }
}

/// The degrees of the first `count` nodes, as a list.
pub open spec fn degrees_of(in_degree: Map<usize, usize>, count: nat) -> Seq<usize> {
    Seq::new(count, |node: int| in_degree[node as usize])
}

/// The degree that is kept for `node`.
fn degree_of(in_degree: &HashMap<usize, usize>, node: usize) -> (degree: usize)
    requires
        in_degree@.contains_key(node),
    ensures
        degree == in_degree@[node],
{
    match in_degree.get(&node) {
        Some(degree) => *degree,
        None => 0,
    }
}

/// Whether `node` is a node that the sort has not placed.
pub open spec fn left_over(genome: GenomeView, order: Seq<usize>, node: usize) -> bool {
    node < genome.nodes.len() && !order.contains(node)
}

/// A node that is left over and leads to `node` by an enabled connection.
pub open spec fn left_over_source(genome: GenomeView, order: Seq<usize>, node: usize) -> usize {
    choose|source: usize| genome.steps(source, node) && left_over(genome, order, source)
}

/// The walk of `steps` steps that ends at `end` and goes back, step by step,
/// to a left-over source.
pub open spec fn walk_back(genome: GenomeView, order: Seq<usize>, end: usize, steps: nat) -> Seq<usize>
    decreases steps,
{
    if steps == 0 {
        seq![end]
    } else {
        let rest = walk_back(genome, order, end, (steps - 1) as nat);
        seq![left_over_source(genome, order, rest[0])] + rest
    }
}

/// Whether a left-over node leads to `node` by an enabled connection.
#[verifier::opaque]
pub open spec fn has_left_over_source(genome: GenomeView, order: Seq<usize>, node: usize) -> bool {
    exists|source: usize| genome.steps(source, node) && left_over(genome, order, source)
}

/// Whether every left-over node has a left-over source.
pub open spec fn sources_left_over(genome: GenomeView, order: Seq<usize>) -> bool {
    forall|node: usize|
        left_over(genome, order, node) ==> #[trigger] has_left_over_source(genome, order, node)
}

/// Where every left-over node has a left-over source, the walk back from a
/// left-over node is a walk, and all of its nodes are left over.
proof fn lemma_walk_back(genome: GenomeView, order: Seq<usize>, end: usize, steps: nat)
    requires
        left_over(genome, order, end),
        sources_left_over(genome, order),
    ensures
        walk_back(genome, order, end, steps).len() == steps + 1,
        genome.is_walk(walk_back(genome, order, end, steps)),
        forall|k: int|
            0 <= k < walk_back(genome, order, end, steps).len() ==> left_over(
                genome,
                order,
                #[trigger] walk_back(genome, order, end, steps)[k],
            ),
    decreases steps,
{
    if steps > 0 {
        lemma_walk_back(genome, order, end, (steps - 1) as nat);
        let rest = walk_back(genome, order, end, (steps - 1) as nat);
        let walk = walk_back(genome, order, end, steps);
        assert(left_over(genome, order, rest[0]));
        assert(has_left_over_source(genome, order, rest[0]));
        let source = left_over_source(genome, order, rest[0]);
        assert(genome.steps(source, rest[0]) && left_over(genome, order, source)) by {
            reveal(has_left_over_source);
        }
        assert forall|k: int| 0 <= k < walk.len() - 1 implies genome.steps(#[trigger] walk[k], walk[k + 1]) by {
            if k > 0 {
                assert(walk[k] == rest[k - 1]);
                assert(walk[k + 1] == rest[k]);
                assert(genome.steps(rest[k - 1], rest[k - 1 + 1]));
            }
        }
        assert forall|k: int| 0 <= k < walk.len() implies left_over(genome, order, #[trigger] walk[k]) by {
            if k > 0 {
                assert(walk[k] == rest[k - 1]);
            }
        }
    }
}

/// Where the sort has worked off every placed node, every left-over node
/// has a left-over source: its degree is not zero, so a connection from a
/// node that was not placed still holds it back.
proof fn lemma_left_over_sources(genome: GenomeView, in_degree: Seq<usize>, order: Seq<usize>)
    requires
        genome.wf(),
        sort_state(genome, in_degree, order, order.len() as int, 0),
    ensures
        sources_left_over(genome, order),
{
    let genes = genome.connections;
    let done = placed(order, order.len() as int);
    assert forall|node: usize| left_over(genome, order, node) implies #[trigger] has_left_over_source(
        genome,
        order,
        node,
    ) by {
        assert(in_degree[node as int] != 0);
        lemma_waiting_zero(genes, done, 0, 0, node, genes.len() as int);
        let i = choose|i: int| 0 <= i < genes.len() && holds_back(genes, done, 0, 0, node, i);
        let source = genes[i].in_node;
        assert(genome.admits(genes[i]));
        assert(!order.contains(source)) by {
            if order.contains(source) {
                let p = choose|p: int| 0 <= p < order.len() && order[p] == source;
                assert(done.contains(source));
            }
        }
        assert(genome.steps(source, node));
        assert(left_over(genome, order, source));
        assert(has_left_over_source(genome, order, node)) by {
            reveal(has_left_over_source);
        }
    }
}

/// An order of distinct nodes that is shorter than the number of nodes
/// leaves a node over.
proof fn lemma_some_left_over(genome: GenomeView, order: Seq<usize>)
    requires
        genome.nodes.len() <= usize::MAX,
        order.no_duplicates(),
        order.len() < genome.nodes.len(),
    ensures
        exists|node: usize| left_over(genome, order, node),
{
    let count = genome.nodes.len();
    let every = all_nodes(count);
    if forall|node: usize| node < count ==> order.contains(node) {
        assert(every.no_duplicates());
        assert forall|i: int| 0 <= i < every.len() implies order.contains(#[trigger] every[i]) by {}
        lemma_distinct_within(every, order);
    } else {
        let node = choose|node: usize| node < count && !order.contains(node);
        assert(left_over(genome, order, node));
    }
}

/// A walk that meets a node twice holds a cycle.
proof fn lemma_repeat_is_cycle(genome: GenomeView, walk: Seq<usize>, low: int, high: int)
    requires
        genome.is_walk(walk),
        0 <= low < high < walk.len(),
        walk[low] == walk[high],
    ensures
        genome.has_cycle(),
{
    let round = walk.subrange(low, high + 1);
    assert(round[0] == round.last());
    assert forall|k: int| 0 <= k < round.len() - 1 implies genome.steps(#[trigger] round[k], round[k + 1]) by {
        assert(round[k] == walk[low + k]);
        assert(round[k + 1] == walk[low + k + 1]);
        assert(genome.steps(walk[low + k], walk[low + k + 1]));
    }
    assert(genome.is_walk(round));
}

/// Where the sort has worked off every placed node and nodes are left
/// over, the enabled connections form a cycle: every left-over node has a
/// left-over source, so a walk back through as many steps as there are
/// nodes must meet a node twice.
proof fn lemma_stuck_has_cycle(genome: GenomeView, in_degree: Seq<usize>, order: Seq<usize>)
    requires
        genome.wf(),
        genome.nodes.len() <= usize::MAX,
        sort_state(genome, in_degree, order, order.len() as int, 0),
        order.len() < genome.nodes.len(),
    ensures
        genome.has_cycle(),
{
    let count = genome.nodes.len();
    lemma_left_over_sources(genome, in_degree, order);
    lemma_some_left_over(genome, order);
    let end = choose|node: usize| left_over(genome, order, node);
    let walk = walk_back(genome, order, end, count);
    lemma_walk_back(genome, order, end, count);
    if walk.no_duplicates() {
        lemma_distinct_nodes(walk, count);
    }
    let (a, b) = choose|a: int, b: int|
        0 <= a < walk.len() && 0 <= b < walk.len() && a != b && walk[a] == walk[b];
    if a < b {
        lemma_repeat_is_cycle(genome, walk, a, b);
    } else {
        lemma_repeat_is_cycle(genome, walk, b, a);
    }
}

/// Before the degree of the target of connection `cut` is lowered: the
/// connection still holds its target back, so the degree is positive and the
/// target is not placed.
proof fn lemma_sort_step(genome: GenomeView, in_degree: Seq<usize>, order: Seq<usize>, head: int, cut: int)
    requires
        genome.wf(),
        head < order.len(),
        0 <= cut < genome.connections.len(),
        sort_state(genome, in_degree, order, head, cut),
        genome.connections[cut].enabled,
        genome.connections[cut].in_node == order[head],
    ensures
        in_degree[genome.connections[cut].out_node as int] > 0,
        !order.contains(genome.connections[cut].out_node),
{
    let genes = genome.connections;
    let node = genes[cut].out_node;
    let done = placed(order, head);
    assert(genome.admits(genes[cut]));
    assert(!done.contains(order[head])) by {
        if done.contains(order[head]) {
            let p = choose|p: int| 0 <= p < head && p < order.len() && order[p] == order[head];
            assert(order[p] != order[head]);
        }
    }
    assert(holds_back(genes, done, order[head], cut, node, cut));
    lemma_waiting_zero(genes, done, order[head], cut, node, genes.len() as int);
}

/// After the degree of the target of connection `cut` was lowered, and the
/// target placed if the degree reached zero, the bookkeeping holds for the
/// next connection.
proof fn lemma_sort_step_done(
    genome: GenomeView,
    before_degree: Seq<usize>,
    before_order: Seq<usize>,
    in_degree: Seq<usize>,
    order: Seq<usize>,
    head: int,
    cut: int,
)
    requires
        genome.wf(),
        head < before_order.len(),
        0 <= cut < genome.connections.len(),
        sort_state(genome, before_degree, before_order, head, cut),
        genome.connections[cut].enabled,
        genome.connections[cut].in_node == before_order[head],
        before_degree[genome.connections[cut].out_node as int] > 0,
        in_degree == before_degree.update(
            genome.connections[cut].out_node as int,
            (before_degree[genome.connections[cut].out_node as int] - 1) as usize,
        ),
        order == if before_degree[genome.connections[cut].out_node as int] == 1 {
            before_order.push(genome.connections[cut].out_node)
        } else {
            before_order
        },
    ensures
        sort_state(genome, in_degree, order, head, cut + 1),
{
    let genes = genome.connections;
    let target = genes[cut].out_node;
    let current = before_order[head];
    let done = placed(before_order, head);
    let total = genes.len() as int;
    assert(genome.admits(genes[cut]));
    lemma_sort_step(genome, before_degree, before_order, head, cut);
    assert(placed(order, head) =~= done) by {
        assert forall|node: usize| placed(order, head).contains(node) == done.contains(node) by {
            if placed(order, head).contains(node) {
                let p = choose|p: int| 0 <= p < head && p < order.len() && order[p] == node;
                assert(before_order[p] == node);
            }
            if done.contains(node) {
                let p = choose|p: int| 0 <= p < head && p < before_order.len() && before_order[p] == node;
                assert(order[p] == node);
            }
        }
    }
    assert(order[head] == current);
    assert(!done.contains(current)) by {
        if done.contains(current) {
            let p = choose|p: int| 0 <= p < head && p < before_order.len() && before_order[p] == current;
            assert(before_order[p] != before_order[head]);
        }
    }
    assert forall|node: usize| node < genome.nodes.len() implies (#[trigger] in_degree[node as int])
        == waiting(genes, placed(order, head), current, cut + 1, node, total) by {
        lemma_waiting_cut(genes, done, current, cut, node, total);
    }
    assert(order.no_duplicates());
    assert forall|node: usize| node < genome.nodes.len() implies (order.contains(node) <==> (
    #[trigger] in_degree[node as int]) == 0) by {
        if node == target {
            if before_degree[target as int] == 1 {
                assert(order[before_order.len() as int] == target);
            } else {
                if order.contains(node) {
                }
            }
        } else {
            if before_order.contains(node) {
                let k = choose|k: int| 0 <= k < before_order.len() && before_order[k] == node;
                assert(order[k] == node);
            }
            if order.contains(node) {
                let k = choose|k: int| 0 <= k < order.len() && order[k] == node;
                assert(k < before_order.len());
                assert(before_order[k] == node);
            }
        }
    }
    assert forall|q: int, i: int|
        0 <= q < order.len() && 0 <= i < genes.len() && (#[trigger] genes[i]).enabled && genes[i].out_node
            == #[trigger] order[q] implies exists|p: int| 0 <= p < q && order[p] == genes[i].in_node by {
        if q < before_order.len() {
            assert(before_order[q] == order[q]);
            let p = choose|p: int| 0 <= p < q && before_order[p] == genes[i].in_node;
            assert(order[p] == genes[i].in_node);
        } else {
            assert(in_degree[target as int] == 0);
            lemma_waiting_zero(genes, done, current, cut + 1, target, total);
            assert(!holds_back(genes, done, current, cut + 1, target, i));
            if done.contains(genes[i].in_node) {
                let p = choose|p: int|
                    0 <= p < head && p < before_order.len() && before_order[p] == genes[i].in_node;
                assert(order[p] == genes[i].in_node);
            } else {
                assert(order[head] == genes[i].in_node);
            }
        }
    }
}

/// A connection that is disabled, or that does not leave the node worked
/// on, changes nothing.
proof fn lemma_sort_skip(genome: GenomeView, in_degree: Seq<usize>, order: Seq<usize>, head: int, cut: int)
    requires
        head < order.len(),
        0 <= cut < genome.connections.len(),
        sort_state(genome, in_degree, order, head, cut),
        !(genome.connections[cut].enabled && genome.connections[cut].in_node == order[head]),
    ensures
        sort_state(genome, in_degree, order, head, cut + 1),
{
    let genes = genome.connections;
    assert forall|node: usize| node < genome.nodes.len() implies (#[trigger] in_degree[node as int])
        == waiting(genes, placed(order, head), order[head], cut + 1, node, genes.len() as int) by {
        lemma_waiting_cut(genes, placed(order, head), order[head], cut, node, genes.len() as int);
    }
}

/// When every connection of the node worked on is done, the bookkeeping
/// holds for the next placed node.
proof fn lemma_sort_advance(genome: GenomeView, in_degree: Seq<usize>, order: Seq<usize>, head: int)
    requires
        head < order.len(),
        sort_state(genome, in_degree, order, head, genome.connections.len() as int),
    ensures
        sort_state(genome, in_degree, order, head + 1, 0),
{
    let genes = genome.connections;
    let total = genes.len() as int;
    let next = if head + 1 < order.len() {
        order[head + 1]
    } else {
        0
    };
    assert forall|node: usize| node < genome.nodes.len() implies (#[trigger] in_degree[node as int])
        == waiting(genes, placed(order, head + 1), next, 0, node, total) by {
        assert forall|i: int| 0 <= i < total implies holds_back(
            genes,
            placed(order, head),
            order[head],
            total,
            node,
            i,
        ) == holds_back(genes, placed(order, head + 1), next, 0, node, i) by {
            let source = genes[i].in_node;
            if placed(order, head + 1).contains(source) {
                let p = choose|p: int| 0 <= p < head + 1 && p < order.len() && order[p] == source;
                if p < head {
                    assert(placed(order, head).contains(source));
                }
            }
            if placed(order, head).contains(source) {
                let p = choose|p: int| 0 <= p < head && p < order.len() && order[p] == source;
                assert(placed(order, head + 1).contains(source));
            }
            if source == order[head] {
                assert(placed(order, head + 1).contains(source));
            }
        }
        lemma_waiting_alike(
            genes,
            placed(order, head),
            order[head],
            total,
            placed(order, head + 1),
            next,
            0,
            node,
            total,
        );
    }
}

/// The nodes that are computed are no inputs.
proof fn lemma_computed_are_no_inputs(order: Seq<usize>, num_inputs: usize, upto: int)
    ensures
        forall|k: int|
            0 <= k < computed(order, num_inputs, upto).len() ==> (#[trigger] computed(
                order,
                num_inputs,
                upto,
            )[k]) >= num_inputs,
    decreases upto,
{
    if upto > 0 {
        lemma_computed_are_no_inputs(order, num_inputs, upto - 1);
        let before = computed(order, num_inputs, upto - 1);
        let now = computed(order, num_inputs, upto);
        assert forall|k: int| 0 <= k < now.len() implies (#[trigger] now[k]) >= num_inputs by {
            if k < before.len() {
                assert(now[k] == before[k]);
            }
        }
    }
}

/// In every activation the bias node has the value one and keeps it: the
/// plan presets node zero to the bias, and no step computes node zero.
pub proof fn lemma_bias_is_constant(
    phenotype: PhenotypeView,
    presets: Seq<Preset>,
    steps: Seq<(usize, Seq<(usize, i64)>)>,
    outputs: Seq<usize>,
)
    requires
        phenotype.wf(),
        phenotype.planned(presets, steps, outputs),
    ensures
        presets.len() >= 1,
        presets[0] == Preset::Bias,
        forall|k: int| 0 <= k < steps.len() ==> (#[trigger] steps[k]).0 != 0,
{
    lemma_computed_are_no_inputs(
        phenotype.order,
        phenotype.genome.num_inputs,
        phenotype.order.len() as int,
    );
}

/// In every activation there are as many outputs as the genome has output
/// nodes, and they are read from the nodes that follow the inputs.
pub proof fn lemma_output_arity(
    phenotype: &Phenotype,
    presets: Seq<Preset>,
    steps: Seq<(usize, Seq<(usize, i64)>)>,
    outputs: Seq<usize>,
)
    requires
        phenotype.wf(),
        phenotype@.planned(presets, steps, outputs),
    ensures
        outputs.len() == phenotype.genome.num_outputs,
        forall|k: int|
            0 <= k < outputs.len() ==> phenotype.genome.num_inputs <= (#[trigger] outputs[k])
                < phenotype.genome.num_inputs + phenotype.genome.num_outputs,
{
    assert(phenotype.genome.node_genes.len() <= usize::MAX);
}

/// Whether every enabled connection leads from `first` to `middle` or from
/// `middle` to `last`.
pub open spec fn is_chain(genome: GenomeView, first: usize, middle: usize, last: usize) -> bool {
    forall|i: int|
        0 <= i < genome.connections.len() && (#[trigger] genome.connections[i]).enabled ==> (
        genome.connections[i].in_node == first && genome.connections[i].out_node == middle) || (
        genome.connections[i].in_node == middle && genome.connections[i].out_node == last)
}

/// A genome whose enabled connections form a chain over three different
/// nodes has no cycle.
pub proof fn lemma_chain_has_no_cycle(genome: GenomeView, first: usize, middle: usize, last: usize)
    requires
        is_chain(genome, first, middle, last),
        first != middle,
        middle != last,
        first != last,
    ensures
        !genome.has_cycle(),
{
    assert forall|path: Seq<usize>| path.len() >= 2 && genome.is_walk(path) implies path[0]
        != path.last() by {
        if path[0] == path.last() {
            let end = path.len() - 1;
            assert(genome.steps(path[0], path[1]));
            assert(genome.steps(path[end - 1], path[end - 1 + 1]));
            let i = choose|i: int|
                0 <= i < genome.connections.len() && (#[trigger] genome.connections[i]).enabled
                    && genome.connections[i].in_node == path[0] && genome.connections[i].out_node
                    == path[1];
            let j = choose|j: int|
                0 <= j < genome.connections.len() && (#[trigger] genome.connections[j]).enabled
                    && genome.connections[j].in_node == path[end - 1]
                    && genome.connections[j].out_node == path[end];
            assert(path[0] == middle);
            assert(path[1] == last);
            if end >= 2 {
                assert(genome.steps(path[1], path[1int + 1]));
                let k = choose|k: int|
                    0 <= k < genome.connections.len() && (#[trigger] genome.connections[k]).enabled
                        && genome.connections[k].in_node == path[1] && genome.connections[k].out_node
                        == path[2];
            }
        }
    }
}

/// A genome with at most one connection, which joins two different nodes,
/// has no cycle.
pub proof fn lemma_single_has_no_cycle(genome: GenomeView)
    requires
        genome.connections.len() <= 1,
        genome.connections.len() == 1 ==> genome.connections[0].in_node
            != genome.connections[0].out_node,
    ensures
        !genome.has_cycle(),
{
    if genome.connections.len() == 0 {
        lemma_chain_has_no_cycle(genome, 0, 1, 2);
    } else {
        let a = genome.connections[0].in_node;
        let b = genome.connections[0].out_node;
        let other: usize = if a != 0 && b != 0 {
            0
        } else if a != 1 && b != 1 {
            1
        } else {
            2
        };
        lemma_chain_has_no_cycle(genome, a, b, other);
    }
}

/// The add-connection mutation gives a genome without connections at most
/// one connection, enabled, from a lower to a higher id.
proof fn lemma_first_connection(
    before: GenomeView,
    registry: RegistryView,
    after: GenomeView,
    after_registry: RegistryView,
)
    requires
        before.connections.len() == 0,
        before.perhaps_connection_added(registry, after, after_registry),
    ensures
        after.nodes == before.nodes,
        after.connections.len() <= 1,
        after.connections.len() == 1 ==> after.connections[0].enabled
            && after.connections[0].in_node < after.connections[0].out_node < before.nodes.len(),
{
    if after != before {
        let (a, b) = choose|a: usize, b: usize|
            {
                &&& #[trigger] before.is_candidate(a, b)
                &&& before.grown(after, a, b, WEIGHT_UNIT, registry.issued(a, b))
                &&& after_registry == registry.after_issue(a, b)
            };
        let gene = ConnectionGene {
            in_node: a,
            out_node: b,
            weight: WEIGHT_UNIT,
            enabled: true,
            innov: registry.issued(a, b)->0,
        };
        let at = choose|at: int|
            0 <= at <= before.connections.len() && after.connections
                == #[trigger] before.connections.insert(at, gene);
        assert(after.connections[0] == gene);
    }
}

/// The add-node mutation leaves a genome without a cycle if the genome has
/// at most one connection, which leads from a lower to a higher id.
proof fn lemma_first_split(
    before: GenomeView,
    registry: RegistryView,
    after: GenomeView,
    after_registry: RegistryView,
)
    requires
        before.nodes.len() <= usize::MAX,
        before.connections.len() <= 1,
        before.connections.len() == 1 ==> before.connections[0].in_node
            < before.connections[0].out_node < before.nodes.len(),
        before.perhaps_node_added(registry, after, after_registry),
    ensures
        !after.has_cycle(),
{
    if after == before {
        lemma_single_has_no_cycle(before);
    } else {
        let i = choose|i: int|
            {
                &&& 0 <= i < before.connections.len()
                &&& (#[trigger] before.connections[i]).enabled
                &&& before.split_outcome(registry, after, after_registry, i)
            };
        let old_gene = before.connections[0];
        let new_id = before.nodes.len() as usize;
        let first = registry.issued(old_gene.in_node, new_id);
        let between = registry.after_issue(old_gene.in_node, new_id);
        let second = between.issued(new_id, old_gene.out_node);
        assert(before.split(after, 0, first->0, second->0));
        let into = ConnectionGene {
            in_node: old_gene.in_node,
            out_node: new_id,
            weight: old_gene.weight,
            enabled: true,
            innov: first->0,
        };
        let out_of = ConnectionGene {
            in_node: new_id,
            out_node: old_gene.out_node,
            weight: WEIGHT_UNIT,
            enabled: true,
            innov: second->0,
        };
        let rested = before.rested(0);
        let mid = choose|mid: Seq<ConnectionGene>|
            #[trigger] crate::genome::inserted(rested, mid, into) && crate::genome::inserted(
                mid,
                after.connections,
                out_of,
            );
        assert forall|k: int|
            0 <= k < after.connections.len() && (#[trigger] after.connections[k]).enabled implies (
        after.connections[k].in_node == old_gene.in_node && after.connections[k].out_node == new_id)
            || (after.connections[k].in_node == new_id && after.connections[k].out_node
            == old_gene.out_node) by {
            lemma_inserted_from(mid, after.connections, out_of, k);
            if after.connections[k] != out_of {
                let m = choose|m: int| 0 <= m < mid.len() && mid[m] == after.connections[k];
                lemma_inserted_from(rested, mid, into, m);
                if mid[m] != into {
                    let r = choose|r: int| 0 <= r < rested.len() && rested[r] == mid[m];
                    assert(!rested[r].enabled);
                }
            }
        }
        lemma_chain_has_no_cycle(after, old_gene.in_node, new_id, old_gene.out_node);
    }
}

/// One mutation of a genome without connections leaves no cycle: the
/// genome gains at most one connection, from a lower to a higher id, and at
/// most one split of that connection.
pub proof fn lemma_first_mutation_has_no_cycle(
    parent: GenomeView,
    registry: RegistryView,
    after: GenomeView,
    after_registry: RegistryView,
    table: Seq<i64>,
)
    requires
        parent.connections.len() == 0,
        parent.nodes.len() <= usize::MAX,
        parent.mutated(registry, after, after_registry, table),
    ensures
        !after.has_cycle(),
{
    let (redrawn, widened, between) = choose|
        redrawn: GenomeView,
        widened: GenomeView,
        between: RegistryView,
    |
        {
            &&& parent.weights_mutated(redrawn, table)
            &&& #[trigger] redrawn.perhaps_connection_added(registry, widened, between)
            &&& widened.perhaps_node_added(between, after, after_registry)
        };
    let draws = choose|draws: Seq<crate::genome::WeightDraw>|
        {
            &&& draws.len() == parent.connections.len()
            &&& forall|i: int| 0 <= i < draws.len() ==> (#[trigger] draws[i]).admissible(table)
            &&& redrawn == #[trigger] parent.redrawn(draws)
        };
    assert(redrawn.connections.len() == 0);
    assert(redrawn.nodes == parent.nodes);
    lemma_first_connection(redrawn, registry, widened, between);
    lemma_first_split(widened, between, after, after_registry);
}

/// A genome with a topological order has no cycle: along every walk the
/// place in the order rises, so no walk ends where it began.
pub proof fn lemma_sorted_has_no_cycle(genome: GenomeView, order: Seq<usize>)
    requires
        genome.sorted_by(order),
    ensures
        !genome.has_cycle(),
{
    assert forall|path: Seq<usize>| path.len() >= 2 && genome.is_walk(path) implies path[0]
        != path.last() by {
        lemma_walk_rises(genome, order, path, path.len() - 1);
        if path[0] == path.last() {
            let (p, q) = choose|p: int, q: int|
                0 <= p < q < order.len() && #[trigger] order[p] == path[0] && #[trigger] order[q]
                    == path[path.len() - 1];
            assert(order[p] == order[q]);
        }
    }
}

/// The start of a walk stands before each of its later nodes.
proof fn lemma_walk_rises(genome: GenomeView, order: Seq<usize>, path: Seq<usize>, upto: int)
    requires
        genome.sorted_by(order),
        genome.is_walk(path),
        1 <= upto < path.len(),
    ensures
        comes_before(order, path[0], path[upto]),
    decreases upto,
{
    assert(genome.steps(path[upto - 1], path[upto]));
    let i = choose|i: int|
        0 <= i < genome.connections.len() && (#[trigger] genome.connections[i]).enabled
            && genome.connections[i].in_node == path[upto - 1] && genome.connections[i].out_node
            == path[upto];
    assert(comes_before(order, genome.connections[i].in_node, genome.connections[i].out_node));
    if upto > 1 {
        lemma_walk_rises(genome, order, path, upto - 1);
        let (p, q) = choose|p: int, q: int|
            0 <= p < q < order.len() && #[trigger] order[p] == path[0] && #[trigger] order[q]
                == path[upto - 1];
        let (r, s) = choose|r: int, s: int|
            0 <= r < s < order.len() && #[trigger] order[r] == path[upto - 1] && #[trigger] order[s]
                == path[upto];
        assert(q == r);
        assert(order[p] == path[0] && order[s] == path[upto]);
    }
}

} // verus!
