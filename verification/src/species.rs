//! Species: clusters of phenotypes around a type specimen.
//!
//! A phenotype belongs to a species when the compatibility distance between
//! its genome and the type specimen of the species is below three. Each
//! species reproduces for itself, by mutation alone or by crossover and
//! mutation.

use crate::alignment::{carried, innovs_of, lemma_walk, rises};
use crate::errors::TyrosineError;
use crate::genome::{by_innov, genes_by_innov, ConnectionGene, Genome, GenomeView, WEIGHT_UNIT};
use crate::innovation::{InnovationRegistry, RegistryView};
use crate::phenotype::{Phenotype, PhenotypeView};
use crate::random::{random_below, shuffle};
use rand::rngs::ThreadRng;
use vstd::multiset::Multiset;
use vstd::prelude::*;
use vstd::std_specs::btree::spec_btree_keys_iter;
use vstd::std_specs::iter::IteratorSpec;

verus! {

broadcast use {vstd::std_specs::hash::group_hash_axioms, vstd::std_specs::btree::group_btree_axioms};

/// A counter that hands out species ids in increasing order.
#[derive(Debug)]
pub struct SpeciesCounter {
    /// The next id to hand out.
    pub id: usize,
}

impl SpeciesCounter {
    /// A counter that starts at zero.
    pub fn new() -> (counter: Self)
        ensures
            counter.id == 0,
    {
        SpeciesCounter { id: 0 }
    }

    /// Hands out the next species id and moves past it.
    pub fn next(&mut self) -> (id: usize)
        requires
            old(self).id < usize::MAX,
        ensures
            id == old(self).id,
            final(self).id == old(self).id + 1,
    {
        let id = self.id;
        self.id = self.id + 1;
        id
    }
}

/// The weight of the excess genes in the compatibility distance: one.
pub const EXCESS_FACTOR: u128 = 1;

/// The weight of the disjoint genes in the compatibility distance: one.
pub const DISJOINT_FACTOR: u128 = 1;

/// The mean weight difference that stands in where no gene matches: a
/// hundred units.
pub const UNMATCHED_GAP: u128 = 429496729600;

/// The largest sum of the three gene counts for which the threshold can be
/// tested: more than any two genomes in memory can reach.
pub const COUNT_LIMIT: u128 = 73786976294838206464;

/// The absolute difference of two weights.
pub open spec fn weight_gap(first: i64, second: i64) -> nat {
    if first >= second {
        (first - second) as nat
    } else {
        (second - first) as nat
    }
}

/// The largest innovation number among the first `upto` genes, or zero.
pub open spec fn max_innov(genes: Seq<ConnectionGene>, upto: int) -> nat
    decreases upto,
{
    if upto <= 0 {
        0
    } else if genes[upto - 1].innov > max_innov(genes, upto - 1) {
        genes[upto - 1].innov as nat
    } else {
        max_innov(genes, upto - 1)
    }
}

/// How the innovation numbers of two genomes stand against each other.
pub struct Tally {
    /// The numbers that both genomes carry.
    pub matching: nat,
    /// The numbers that one genome carries and that are at most the largest
    /// of the other.
    pub disjoint: nat,
    /// The numbers that one genome carries and that are beyond the largest
    /// of the other.
    pub excess: nat,
    /// The sum, over the matching numbers, of the absolute weight
    /// difference.
    pub gap: nat,
}

/// How the innovation numbers below `bound` stand in the gene lists `first`
/// and `second`. Of several genes of a list with one number, the last one
/// counts.
pub open spec fn tally(first: Seq<ConnectionGene>, second: Seq<ConnectionGene>, bound: nat) -> Tally
    decreases bound,
{
    if bound == 0 {
        Tally { matching: 0, disjoint: 0, excess: 0, gap: 0 }
    } else {
        let rest = tally(first, second, (bound - 1) as nat);
        let innov = (bound - 1) as usize;
        let own = by_innov(first, first.len() as int);
        let others = by_innov(second, second.len() as int);
        if own.contains_key(innov) && others.contains_key(innov) {
            Tally {
                matching: rest.matching + 1,
                gap: rest.gap + weight_gap(own[innov].weight, others[innov].weight),
                ..rest
            }
        } else if own.contains_key(innov) {
            if innov <= max_innov(second, second.len() as int) {
                Tally { disjoint: rest.disjoint + 1, ..rest }
            } else {
                Tally { excess: rest.excess + 1, ..rest }
            }
        } else if others.contains_key(innov) {
            if innov <= max_innov(first, first.len() as int) {
                Tally { disjoint: rest.disjoint + 1, ..rest }
            } else {
                Tally { excess: rest.excess + 1, ..rest }
            }
        } else {
            rest
        }
    }
}

/// One more than the largest innovation number.
pub open spec fn innov_limit() -> nat {
    (usize::MAX + 1) as nat
}

/// The parts of the compatibility distance between two genomes.
///
/// The distance is `excess / n + disjoint / n + 0.4 * w`, where `n` is the
/// number of innovation numbers that either genome carries, or one if there
/// is none, and `w` is the mean weight difference of the matching genes, or
/// a hundred if none matches.
#[derive(Clone, Copy, Debug, PartialEq, Eq, Structural)]
pub struct GeneticDistance {
    /// The innovation numbers that one genome alone carries, beyond the
    /// largest number of the other.
    pub excess: u128,
    /// The other innovation numbers that one genome alone carries.
    pub disjoint: u128,
    /// The innovation numbers that both genomes carry.
    pub matching: u128,
    /// The sum, over the matching numbers, of the absolute difference of the
    /// two weights, in fixed point.
    pub weight_gap: u128,
}

impl GeneticDistance {
    /// Whether these are the parts of the distance between `first` and
    /// `second`.
    pub open spec fn measures(self, first: GenomeView, second: GenomeView) -> bool {
        let counted = tally(first.connections, second.connections, innov_limit());
        &&& self.matching == counted.matching
        &&& self.disjoint == counted.disjoint
        &&& self.excess == counted.excess
        &&& self.weight_gap == counted.gap
    }

    /// `n`: the number of innovation numbers that either genome carries, or
    /// one if there is none.
    pub open spec fn normalizer(self) -> int {
        if self.excess + self.disjoint + self.matching < 1 {
            1
        } else {
            self.excess + self.disjoint + self.matching
        }
    }

    /// Whether the distance is below three: the threshold under which two
    /// genomes are of one species.
    ///
    /// With `m` matching genes and their summed weight difference `g`, the
    /// distance is `(excess + disjoint) / n + 0.4 * g / m` in units. Times
    /// `5 * n * m` units this is `5 * (excess + disjoint) * m` units and
    /// `2 * g * n`, against a threshold of `15 * n * m` units. Without a
    /// matching gene a hundred stands for the mean difference, and the
    /// distance times `5 * n` units is `5 * (excess + disjoint)` units and
    /// `2 * n` times a hundred units.
    pub open spec fn within_threshold(self) -> bool {
        if self.matching > 0 {
            5 * WEIGHT_UNIT * (EXCESS_FACTOR * self.excess + DISJOINT_FACTOR * self.disjoint)
                * self.matching + 2 * self.weight_gap * self.normalizer() < 15 * WEIGHT_UNIT
                * self.normalizer() * self.matching
        } else {
            5 * WEIGHT_UNIT * (EXCESS_FACTOR * self.excess + DISJOINT_FACTOR * self.disjoint) + 2
                * UNMATCHED_GAP * self.normalizer() < 15 * WEIGHT_UNIT * self.normalizer()
        }
    }

    /// Whether the distance is below three, exactly.
    pub fn is_compatible(&self) -> (compatible: bool)
        requires
            self.excess + self.disjoint + self.matching <= COUNT_LIMIT,
        ensures
            compatible == self.within_threshold(),
    {
        let unit: u128 = 4294967296;
        let apart: u128 = self.excess + self.disjoint;
        let matching: u128 = self.matching;
        if matching == 0 {
            assert(2 * 429496729600 * self.normalizer() >= 15 * 4294967296 * self.normalizer())
                by (nonlinear_arith)
                requires
                    self.normalizer() >= 1,
            ;
            return false;
        }
        let normalizer: u128 = apart + matching;
        assert(8 * 4294967296 * matching <= 8 * 4294967296 * 73786976294838206464) by (nonlinear_arith)
            requires
                matching <= 73786976294838206464,
        ;
        if self.weight_gap >= 8 * unit * matching {
            proof {
                lemma_far_apart(apart as int, matching as int, self.weight_gap as int);
            }
            return false;
        }
        let whole: u128 = self.weight_gap / matching;
        let rest: u128 = self.weight_gap % matching;
        proof {
            lemma_threshold_parts(
                apart as int,
                matching as int,
                self.weight_gap as int,
                whole as int,
                rest as int,
            );
        }
        let room: u128 = 5 * unit * (2 * apart + 3 * matching);
        let used: u128 = 2 * normalizer * whole;
        if room <= used {
            assert(room * matching <= used * matching) by (nonlinear_arith)
                requires
                    room <= used,
                    matching >= 0,
            ;
            assert(2 * normalizer * rest >= 0) by (nonlinear_arith)
                requires
                    normalizer >= 0,
                    rest >= 0,
            ;
            return false;
        }
        let left: u128 = room - used;
        assert((room - used) * matching == room * matching - used * matching) by (nonlinear_arith);
        if left >= 2 * normalizer {
            assert(2 * normalizer * rest < left * matching) by (nonlinear_arith)
                requires
                    left >= 2 * normalizer,
                    0 <= rest < matching,
                    normalizer >= 1,
            ;
            return true;
        }
        product_less(2 * normalizer, rest, left, matching)
    }
}

/// Where the summed weight difference is at least eight units for each
/// matching gene, the distance is not below three.
proof fn lemma_far_apart(apart: int, matching: int, gap: int)
    requires
        apart >= 0,
        matching > 0,
        gap >= 8 * 4294967296 * matching,
    ensures
        !(5 * 4294967296 * apart * matching + 2 * gap * (apart + matching) < 15 * 4294967296 * (apart
            + matching) * matching),
{
    let n = apart + matching;
    assert(2 * gap * n >= 2 * (8 * 4294967296 * matching) * n) by (nonlinear_arith)
        requires
            gap >= 8 * 4294967296 * matching,
            n >= 0,
    ;
    assert(2 * (8 * 4294967296 * matching) * n >= 15 * 4294967296 * n * matching) by (nonlinear_arith)
        requires
            matching >= 0,
            n >= 0,
    ;
    assert(5 * 4294967296 * apart * matching >= 0) by (nonlinear_arith)
        requires
            apart >= 0,
            matching >= 0,
    ;
}

/// The threshold test, taken apart: with the summed weight difference as
/// `whole * matching + rest`, the distance is below three exactly when
/// `2 * n * rest` is below what is left of `5 * (3 * n - apart)` units after
/// `2 * n * whole`, times the matching genes.
proof fn lemma_threshold_parts(apart: int, matching: int, gap: int, whole: int, rest: int)
    requires
        apart >= 0,
        matching > 0,
        gap >= 0,
        whole == gap / matching,
        rest == gap % matching,
        gap < 8 * 4294967296 * matching,
        apart + matching <= 73786976294838206464,
    ensures
        gap == whole * matching + rest,
        0 <= rest < matching,
        0 <= whole < 8 * 4294967296,
        5 * 4294967296 * (2 * apart + 3 * matching) <= 5 * 4294967296 * (3 * 73786976294838206464),
        2 * (apart + matching) * whole <= 2 * 73786976294838206464 * (8 * 4294967296),
        (5 * 4294967296 * apart * matching + 2 * gap * (apart + matching) < 15 * 4294967296 * (apart
            + matching) * matching) <==> (2 * (apart + matching) * whole * matching + 2 * (apart
            + matching) * rest < 5 * 4294967296 * (2 * apart + 3 * matching) * matching),
{
    let n = apart + matching;
    assert(5 * 4294967296 * (2 * apart + 3 * matching) <= 5 * 4294967296 * (3 * 73786976294838206464))
        by (nonlinear_arith)
        requires
            apart >= 0,
            matching > 0,
            apart + matching <= 73786976294838206464,
    ;
    vstd::arithmetic::div_mod::lemma_fundamental_div_mod(gap, matching);
    assert(gap == matching * whole + rest);
    assert(matching * whole == whole * matching) by (nonlinear_arith);
    assert(0 <= rest < matching) by {
        vstd::arithmetic::div_mod::lemma_mod_bound(gap, matching);
    }
    assert(whole >= 0) by {
        vstd::arithmetic::div_mod::lemma_div_pos_is_pos(gap, matching);
    }
    assert(whole < 8 * 4294967296) by (nonlinear_arith)
        requires
            gap == whole * matching + rest,
            rest >= 0,
            matching > 0,
            gap < 8 * 4294967296 * matching,
    ;
    assert(2 * n * whole <= 2 * 73786976294838206464 * (8 * 4294967296)) by (nonlinear_arith)
        requires
            0 <= n <= 73786976294838206464,
            0 <= whole < 8 * 4294967296,
    ;
    assert(2 * gap * n == 2 * n * whole * matching + 2 * n * rest) by (nonlinear_arith)
        requires
            gap == whole * matching + rest,
    ;
    assert(15 * 4294967296 * n * matching - 5 * 4294967296 * apart * matching == 5 * 4294967296 * (2
        * apart + 3 * matching) * matching) by (nonlinear_arith)
        requires
            n == apart + matching,
    ;
}

/// The product of two numbers below two to the sixty-eighth, as the pair
/// `(high, low)` with `high * 2^68 + low` the product and `low` below
/// `2^68`.
fn wide_product(a: u128, b: u128) -> (parts: (u128, u128))
    requires
        a < 295147905179352825856,
        b < 295147905179352825856,
    ensures
        parts.0 * 295147905179352825856 + parts.1 == a * b,
        parts.1 < 295147905179352825856,
{
    let half: u128 = 17179869184;
    let limb: u128 = 295147905179352825856;
    let a_high = a / half;
    let a_low = a % half;
    let b_high = b / half;
    let b_low = b % half;
    assert(a_high * b_high < 295147905179352825856 && a_high * b_low < 295147905179352825856 && a_low
        * b_high < 295147905179352825856 && a_low * b_low < 295147905179352825856) by (nonlinear_arith)
        requires
            0 <= a_high < 17179869184,
            0 <= a_low < 17179869184,
            0 <= b_high < 17179869184,
            0 <= b_low < 17179869184,
    ;
    let top = a_high * b_high;
    let middle = a_high * b_low + a_low * b_high;
    let bottom = a_low * b_low;
    let rest = middle * half + bottom;
    assert(a * b == top * 295147905179352825856 + rest) by (nonlinear_arith)
        requires
            a == a_high * 17179869184 + a_low,
            b == b_high * 17179869184 + b_low,
            top == a_high * b_high,
            rest == (a_high * b_low + a_low * b_high) * 17179869184 + a_low * b_low,
    ;
    (top + rest / limb, rest % limb)
}

/// Whether `a * b` is below `c * d`, for numbers below two to the
/// sixty-eighth.
fn product_less(a: u128, b: u128, c: u128, d: u128) -> (less: bool)
    requires
        a < 295147905179352825856,
        b < 295147905179352825856,
        c < 295147905179352825856,
        d < 295147905179352825856,
    ensures
        less == (a * b < c * d),
{
    let (first_high, first_low) = wide_product(a, b);
    let (second_high, second_low) = wide_product(c, d);
    assert(first_high < second_high ==> (first_high + 1) * 295147905179352825856 <= second_high
        * 295147905179352825856) by (nonlinear_arith);
    assert(second_high < first_high ==> (second_high + 1) * 295147905179352825856 <= first_high
        * 295147905179352825856) by (nonlinear_arith);
    assert((first_high + 1) * 295147905179352825856 == first_high * 295147905179352825856
        + 295147905179352825856) by (nonlinear_arith);
    assert((second_high + 1) * 295147905179352825856 == second_high * 295147905179352825856
        + 295147905179352825856) by (nonlinear_arith);
    first_high < second_high || (first_high == second_high && first_low < second_low)
}

/// The counts never exceed the number of innovation numbers counted, and
/// the sum of the weight differences stays below that number times the span
/// of weights.
proof fn lemma_tally_bound(first: Seq<ConnectionGene>, second: Seq<ConnectionGene>, bound: nat)
    ensures
        tally(first, second, bound).matching + tally(first, second, bound).disjoint + tally(
            first,
            second,
            bound,
        ).excess <= bound,
        tally(first, second, bound).gap <= bound * 0xffff_ffff_ffff_ffff,
    decreases bound,
{
    if bound > 0 {
        lemma_tally_bound(first, second, (bound - 1) as nat);
        assert((bound - 1) * 0xffff_ffff_ffff_ffff + 0xffff_ffff_ffff_ffff == bound
            * 0xffff_ffff_ffff_ffff) by (nonlinear_arith);
    }
}

/// Numbers that neither genome carries count for nothing.
proof fn lemma_tally_skips(first: Seq<ConnectionGene>, second: Seq<ConnectionGene>, low: nat, high: nat)
    requires
        low <= high <= innov_limit(),
        forall|innov: usize|
            low <= innov < high ==> !(#[trigger] carried(first).contains(innov)) && !carried(
                second,
            ).contains(innov),
    ensures
        tally(first, second, high) == tally(first, second, low),
    decreases high,
{
    if low < high {
        let innov = (high - 1) as usize;
        assert(!carried(first).contains(innov));
        lemma_tally_skips(first, second, low, (high - 1) as nat);
    }
}

/// The largest innovation number of `genes`, or zero.
fn largest_innov(genes: &Vec<ConnectionGene>) -> (largest: usize)
    ensures
        largest == max_innov(genes@, genes@.len() as int),
{
    let mut largest: usize = 0;
    let mut i: usize = 0;
    while i < genes.len()
        invariant
            i <= genes@.len(),
            largest == max_innov(genes@, i as int),
        decreases genes@.len() - i,
    {
        if genes[i].innov > largest {
            largest = genes[i].innov;
        }
        i = i + 1;
    }
    largest
}

/// The parts of the compatibility distance between two genomes.
pub open spec fn distance_between(first: GenomeView, second: GenomeView) -> GeneticDistance {
    let counted = tally(first.connections, second.connections, innov_limit());
    GeneticDistance {
        excess: counted.excess as u128,
        disjoint: counted.disjoint as u128,
        matching: counted.matching as u128,
        weight_gap: counted.gap as u128,
    }
}

/// Whether two genomes are of one species: their compatibility distance is
/// below three.
pub open spec fn compatible(first: GenomeView, second: GenomeView) -> bool {
    distance_between(first, second).within_threshold()
}

/// A cluster of phenotypes around a type specimen.
#[derive(Debug, Clone)]
pub struct Species {
    /// The genome against which membership is decided. It is a copy, and
    /// may differ from the genome of every member.
    pub type_specimen: Genome,
    /// The phenotypes of the species, the best first once they are ranked.
    pub members: Vec<Phenotype>,
    /// The id of the species.
    pub id: usize,
    /// The mean fitness of the members, once it is known.
    pub species_fitness: Option<u64>,
}

/// The phenotypes of all species: species after species, and member after
/// member within each.
pub open spec fn specimens(species: Seq<Species>) -> Seq<Phenotype>
    decreases species.len(),
{
    if species.len() == 0 {
        Seq::empty()
    } else {
        specimens(species.drop_last()) + species.last().members@
    }
}

/// The first species, along `order` from `from` on, whose type specimen is
/// compatible with `genome`.
pub open spec fn first_home(
    species: Seq<Species>,
    genome: GenomeView,
    order: Seq<usize>,
    from: int,
) -> Option<int>
    decreases order.len() - from,
{
    if from < 0 || from >= order.len() {
        None
    } else if order[from] < species.len() && compatible(
        genome,
        species[order[from] as int].type_specimen@,
    ) {
        Some(order[from] as int)
    } else {
        first_home(species, genome, order, from + 1)
    }
}

/// Whether `after` is the species `before` joined by `phenotype`.
pub open spec fn joined(before: Species, after: Species, phenotype: Phenotype) -> bool {
    &&& after.id == before.id
    &&& after.type_specimen == before.type_specimen
    &&& after.species_fitness == before.species_fitness
    &&& after.members@ == before.members@.push(phenotype)
}

/// Whether `species` was founded by `phenotype` under the id `id`: the
/// genome of the founder is its type specimen, and the founder its only
/// member.
pub open spec fn founded(species: Species, phenotype: Phenotype, id: usize) -> bool {
    &&& species.id == id
    &&& species.type_specimen@ == phenotype@.genome
    &&& species.species_fitness is None
    &&& species.members@ == seq![phenotype]
}

/// Whether `after` is `before` with `phenotype` placed: in the species
/// `home`, or, without a home, in a new species with the id `next_id`.
pub open spec fn placed_into(
    before: Seq<Species>,
    after: Seq<Species>,
    phenotype: Phenotype,
    home: Option<int>,
    next_id: usize,
) -> bool {
    match home {
        Some(at) => {
            &&& 0 <= at < before.len()
            &&& after.len() == before.len()
            &&& forall|k: int| 0 <= k < before.len() && k != at ==> #[trigger] after[k] == before[k]
            &&& joined(before[at], after[at], phenotype)
        },
        None => {
            &&& after.len() == before.len() + 1
            &&& forall|k: int| 0 <= k < before.len() ==> #[trigger] after[k] == before[k]
            &&& founded(after[before.len() as int], phenotype, next_id)
        },
    }
}

/// Whether `after` is `before` after phenotypes were sorted into it, the
/// first new species having the id `first_id`.
///
/// Every species of `before` is still there, with its id, its type
/// specimen and its fitness, and its members of before come first. The
/// species that follow were founded in order, with ids that count up from
/// `first_id`; the founder of each is its first member and gave it its type
/// specimen, and was not compatible with the type specimen of any species
/// before it. Every other new member is compatible with the type specimen of
/// its species.
pub open spec fn clustered(before: Seq<Species>, after: Seq<Species>, first_id: usize) -> bool {
    &&& before.len() <= after.len()
    &&& forall|i: int|
        0 <= i < before.len() ==> {
            &&& (#[trigger] after[i]).id == before[i].id
            &&& after[i].type_specimen == before[i].type_specimen
            &&& after[i].species_fitness == before[i].species_fitness
            &&& before[i].members@.len() <= after[i].members@.len()
            &&& after[i].members@.subrange(0, before[i].members@.len() as int) == before[i].members@
            &&& forall|k: int|
                before[i].members@.len() <= k < after[i].members@.len() ==> compatible(
                    (#[trigger] after[i].members@[k])@.genome,
                    after[i].type_specimen@,
                )
        }
    &&& forall|i: int|
        before.len() <= i < after.len() ==> {
            &&& (#[trigger] after[i]).id == first_id + (i - before.len())
            &&& after[i].species_fitness is None
            &&& after[i].members@.len() >= 1
            &&& after[i].type_specimen@ == after[i].members@[0]@.genome
            &&& forall|k: int|
                1 <= k < after[i].members@.len() ==> compatible(
                    (#[trigger] after[i].members@[k])@.genome,
                    after[i].type_specimen@,
                )
            &&& forall|j: int|
                0 <= j < i ==> !compatible(
                    after[i].members@[0]@.genome,
                    (#[trigger] after[j]).type_specimen@,
                )
        }
}

/// Whether `child` descends from `parent` by one mutation, with nudges from
/// `table`.
pub open spec fn descends(parent: GenomeView, child: GenomeView, table: Seq<i64>) -> bool {
    &&& child.num_inputs == parent.num_inputs
    &&& child.num_outputs == parent.num_outputs
    &&& exists|start: RegistryView, end: RegistryView| #[trigger]
        parent.mutated(start, child, end, table)
}

/// The contents of `members`, in order.
pub open spec fn views(members: Seq<Phenotype>) -> Seq<PhenotypeView> {
    Seq::new(members.len(), |k: int| members[k]@)
}

/// Whether `child` can be bred from `parents`, which are listed by rank: by
/// mutation of the only parent, or, of several parents, by mutation of the
/// child that crossover gives to two of them, the one of higher rank as the
/// fitter parent.
pub open spec fn bred_from(parents: Seq<PhenotypeView>, child: GenomeView, table: Seq<i64>) -> bool {
    if parents.len() == 1 {
        descends(parents[0].genome, child, table)
    } else {
        exists|fit: int, unfit: int, picks: Seq<bool>|
            {
                &&& 0 <= fit < unfit < parents.len()
                &&& picks.len() == parents[fit].genome.connections.len()
                &&& descends(
                    #[trigger] parents[fit].genome.crossed(parents[unfit].genome, picks),
                    child,
                    table,
                )
            }
    }
}

/// Whether none of `members` has a connection.
pub open spec fn unconnected(members: Seq<Phenotype>) -> bool {
    forall|k: int| 0 <= k < members.len() ==> (#[trigger] members[k])@.genome.connections.len() == 0
}

/// Whether all of `members` have the node counts of the first.
pub open spec fn uniform(members: Seq<Phenotype>) -> bool {
    forall|k: int|
        0 <= k < members.len() ==> (#[trigger] members[k]).genome.num_inputs
            == members[0].genome.num_inputs && members[k].genome.num_outputs
            == members[0].genome.num_outputs
}

impl Species {
    /// A species without members, with a copy of `genome` as its type
    /// specimen.
    pub fn new(genome: &Genome, id: usize) -> (species: Self)
        ensures
            species.id == id,
            species.type_specimen@ == genome@,
            species.members@.len() == 0,
            species.species_fitness is None,
    {
        Species { type_specimen: genome.clone(), members: Vec::new(), id, species_fitness: None }
    }

    /// The parts of the compatibility distance between two genomes: the
    /// excess, the disjoint and the matching innovation numbers, and the sum
    /// of the weight differences of the matching genes.
    ///
    /// The innovation numbers of both genomes are walked in increasing
    /// order, and each is looked up in both.
    pub fn compatibility_distance(g1: &Genome, g2: &Genome) -> (distance: GeneticDistance)
        ensures
            distance.measures(g1@, g2@),
            distance == distance_between(g1@, g2@),
            distance.excess + distance.disjoint + distance.matching <= COUNT_LIMIT,
    {
        let g1_map = genes_by_innov(&g1.connection_genes);
        let g2_map = genes_by_innov(&g2.connection_genes);
        let all_innovs = innovs_of(&g1.connection_genes, &g2.connection_genes);
        let max1 = largest_innov(&g1.connection_genes);
        let max2 = largest_innov(&g2.connection_genes);
        let ghost first = g1@.connections;
        let ghost second = g2@.connections;
        let ghost walk = spec_btree_keys_iter(&all_innovs).remaining().unref();
        proof {
            lemma_walk(&all_innovs);
        }
        let mut matching: u128 = 0;
        let mut disjoint: u128 = 0;
        let mut excess: u128 = 0;
        let mut gap: u128 = 0;
        let ghost mut low: nat = 0;
        for innov in iter: all_innovs.iter()
            invariant
                iter.seq() == spec_btree_keys_iter(&all_innovs).remaining(),
                walk == iter.seq().unref(),
                rises(walk),
                forall|number: usize| all_innovs@.contains(number) <==> walk.contains(number),
                first == g1@.connections,
                second == g2@.connections,
                all_innovs@ == carried(first).union(carried(second)),
                g1_map@ == by_innov(first, first.len() as int),
                g2_map@ == by_innov(second, second.len() as int),
                max1 == max_innov(first, first.len() as int),
                max2 == max_innov(second, second.len() as int),
                low <= innov_limit(),
                forall|p: int| iter.index() <= p < walk.len() ==> low <= #[trigger] walk[p],
                forall|p: int| 0 <= p < iter.index() ==> (#[trigger] walk[p]) < low,
                matching == tally(first, second, low).matching,
                disjoint == tally(first, second, low).disjoint,
                excess == tally(first, second, low).excess,
                gap == tally(first, second, low).gap,
        {
            let number: usize = *innov;
            let ghost at = iter.index() as int;
            proof {
                assert(walk[at] == number);
                assert forall|other: usize| low <= other < number implies !(#[trigger] carried(
                    first,
                ).contains(other)) && !carried(second).contains(other) by {
                    if all_innovs@.contains(other) {
                        let p = choose|p: int| 0 <= p < walk.len() && walk[p] == other;
                        if p < at {
                            assert(walk[p] < low);
                        } else if p > at {
                            assert(walk[at] < walk[p]);
                        }
                    }
                }
                lemma_tally_skips(first, second, low, number as nat);
                lemma_tally_bound(first, second, number as nat);
                lemma_tally_bound(first, second, (number + 1) as nat);
                assert(walk.contains(number));
                assert((number + 1) * 0xffff_ffff_ffff_ffff <= 0x1_0000_0000_0000_0000
                    * 0xffff_ffff_ffff_ffff) by (nonlinear_arith)
                    requires
                        number + 1 <= 0x1_0000_0000_0000_0000,
                ;
            }
            match (g1_map.get(innov), g2_map.get(innov)) {
                (Some(a), Some(b)) => {
                    let apart: u128 = if a.weight >= b.weight {
                        (a.weight as i128 - b.weight as i128) as u128
                    } else {
                        (b.weight as i128 - a.weight as i128) as u128
                    };
                    matching = matching + 1;
                    gap = gap + apart;
                },
                (Some(_), None) => {
                    if number <= max2 {
                        disjoint = disjoint + 1;
                    } else {
                        excess = excess + 1;
                    }
                },
                (None, Some(_)) => {
                    if number <= max1 {
                        disjoint = disjoint + 1;
                    } else {
                        excess = excess + 1;
                    }
                },
                (None, None) => {
                    assert(false);
                },
            }
            proof {
                low = (number + 1) as nat;
                assert forall|p: int| at + 1 <= p < walk.len() implies low <= #[trigger] walk[p] by {
                    assert(walk[at] < walk[p]);
                }
                assert forall|p: int| 0 <= p < at + 1 implies (#[trigger] walk[p]) < low by {
                    if p < at {
                        assert(walk[p] < walk[at]);
                    }
                }
            }
        }
        proof {
            assert forall|other: usize| low <= other < innov_limit() implies !(#[trigger] carried(
                first,
            ).contains(other)) && !carried(second).contains(other) by {
                if all_innovs@.contains(other) {
                    let p = choose|p: int| 0 <= p < walk.len() && walk[p] == other;
                    assert(walk[p] < low);
                }
            }
            lemma_tally_skips(first, second, low, innov_limit());
            lemma_tally_bound(first, second, innov_limit());
        }
        GeneticDistance { excess, disjoint, matching, weight_gap: gap }
    }

    /// Whether `genome` is of this species: its compatibility distance to
    /// the type specimen is below three.
    pub fn accepts(&self, genome: &Genome) -> (accepted: bool)
        ensures
            accepted == compatible(genome@, self.type_specimen@),
    {
        Species::compatibility_distance(genome, &self.type_specimen).is_compatible()
    }

    /// Places one phenotype: in the first species along `order` that
    /// accepts its genome, or in a new species which it founds.
    pub fn place(
        species: &mut Vec<Species>,
        phenotype: Phenotype,
        order: &Vec<usize>,
        species_counter: &mut SpeciesCounter,
    )
        requires
            old(species_counter).id < usize::MAX,
        ensures
            placed_into(
                old(species)@,
                final(species)@,
                phenotype,
                first_home(old(species)@, phenotype@.genome, order@, 0),
                old(species_counter).id,
            ),
            final(species_counter).id == old(species_counter).id + (final(species)@.len() - old(
                species,
            )@.len()),
            specimens(final(species)@).to_multiset() == specimens(old(species)@).to_multiset().insert(
                phenotype,
            ),
    {
        let mut at: usize = 0;
        while at < order.len()
            invariant
                species@ == old(species)@,
                at <= order@.len(),
                first_home(species@, phenotype@.genome, order@, 0) == first_home(
                    species@,
                    phenotype@.genome,
                    order@,
                    at as int,
                ),
            decreases order@.len() - at,
        {
            let candidate = order[at];
            if candidate < species.len() && species[candidate].accepts(&phenotype.genome) {
                proof {
                    lemma_specimens_joined(species@, candidate as int, phenotype);
                }
                species[candidate].members.push(phenotype);
                assert(joined(old(species)@[candidate as int], species@[candidate as int], phenotype));
                assert(specimens(species@).to_multiset() == specimens(old(species)@).to_multiset().insert(
                    phenotype,
                ));
                return ;
            }
            at = at + 1;
        }
        let mut founded_species = Species::new(&phenotype.genome, species_counter.next());
        proof {
            lemma_specimens_founded(species@, phenotype);
        }
        founded_species.members.push(phenotype);
        assert(founded_species.members@ =~= seq![phenotype]);
        species.push(founded_species);
        assert(specimens(species@).to_multiset() == specimens(old(species)@).to_multiset().insert(
            phenotype,
        )) by {
            assert(species@ == old(species)@.push(founded_species));
        }
    }

    /// Sorts phenotypes into species.
    ///
    /// The phenotypes are shuffled. Each in turn goes to the first species,
    /// in an order shuffled anew, whose type specimen is compatible with its
    /// genome; one that no species accepts founds a new species, which is
    /// added at the end with the next id of the counter.
    pub fn sort_species(
        species: &mut Vec<Species>,
        phenotypes: Vec<Phenotype>,
        species_counter: &mut SpeciesCounter,
        rng: &mut ThreadRng,
    )
        requires
            old(species_counter).id + phenotypes@.len() <= usize::MAX,
        ensures
            clustered(old(species)@, final(species)@, old(species_counter).id),
            final(species_counter).id == old(species_counter).id + (final(species)@.len() - old(
                species,
            )@.len()),
            specimens(final(species)@).to_multiset() == specimens(old(species)@).to_multiset().add(
                phenotypes@.to_multiset(),
            ),
    {
        let mut waiting = phenotypes;
        shuffle(rng, &mut waiting);
        let ghost shuffled = waiting@;
        proof {
            vstd::seq_lib::to_multiset_len(shuffled);
            vstd::seq_lib::to_multiset_len(phenotypes@);
            lemma_clustered_start(species@, species_counter.id);
            assert(waiting@.subrange(waiting@.len() as int, shuffled.len() as int) =~= Seq::empty());
            lemma_nothing_sorted::<Phenotype>();
            assert(specimens(species@).to_multiset().add(Multiset::empty()) =~= specimens(
                species@,
            ).to_multiset());
        }
        while waiting.len() > 0
            invariant
                shuffled.len() == phenotypes@.len(),
                old(species_counter).id + phenotypes@.len() <= usize::MAX,
                waiting@.len() <= shuffled.len(),
                waiting@ == shuffled.subrange(0, waiting@.len() as int),
                clustered(old(species)@, species@, old(species_counter).id),
                species_counter.id == old(species_counter).id + (species@.len() - old(species)@.len()),
                species@.len() - old(species)@.len() <= shuffled.len() - waiting@.len(),
                specimens(species@).to_multiset() == specimens(old(species)@).to_multiset().add(
                    shuffled.subrange(waiting@.len() as int, shuffled.len() as int).to_multiset(),
                ),
            decreases waiting@.len(),
        {
            let ghost before_len = waiting@.len() as int;
            let phenotype = match waiting.pop() {
                Some(phenotype) => phenotype,
                None => {
                    return ;
                },
            };
            assert(waiting@ =~= shuffled.subrange(0, before_len - 1));
            assert(phenotype == shuffled[before_len - 1]);
            let mut order: Vec<usize> = Vec::new();
            let mut i: usize = 0;
            while i < species.len()
                invariant
                    i <= species@.len(),
                    order@.len() == i,
                    forall|k: int| 0 <= k < i ==> #[trigger] order@[k] == k,
                decreases species@.len() - i,
            {
                order.push(i);
                i = i + 1;
            }
            let ghost straight = order@;
            shuffle(rng, &mut order);
            let ghost before = species@;
            Species::place(species, phenotype, &order, species_counter);
            proof {
                lemma_first_home(before, phenotype@.genome, order@, 0);
                if first_home(before, phenotype@.genome, order@, 0) is None {
                    assert forall|j: int| 0 <= j < before.len() implies !compatible(
                        phenotype@.genome,
                        (#[trigger] before[j]).type_specimen@,
                    ) by {
                        assert(straight[j] == j as usize);
                        assert(straight.contains(j as usize));
                        vstd::seq_lib::to_multiset_contains(straight, j as usize);
                        vstd::seq_lib::to_multiset_contains(order@, j as usize);
                        let k = choose|k: int| 0 <= k < order@.len() && order@[k] == j as usize;
                        assert(order@[k] < before.len());
                    }
                }
                lemma_clustered_step(
                    old(species)@,
                    before,
                    species@,
                    phenotype,
                    first_home(before, phenotype@.genome, order@, 0),
                    old(species_counter).id,
                );
                let rest = shuffled.subrange(before_len, shuffled.len() as int);
                let more = shuffled.subrange(before_len - 1, shuffled.len() as int);
                assert(more =~= seq![phenotype] + rest);
                vstd::seq_lib::lemma_multiset_commutative(seq![phenotype], rest);
                assert(seq![phenotype].to_multiset() =~= Multiset::singleton(phenotype)) by {
                    assert(seq![phenotype] =~= Seq::<Phenotype>::empty().push(phenotype));
                    vstd::seq_lib::to_multiset_build(Seq::<Phenotype>::empty(), phenotype);
                    lemma_nothing_sorted::<Phenotype>();
                }
                assert(specimens(species@).to_multiset() =~= specimens(old(species)@).to_multiset().add(
                    more.to_multiset(),
                ));
            }
        }
        proof {
            assert(shuffled.subrange(0, shuffled.len() as int) =~= shuffled);
        }
    }

    /// Draws the type specimen anew: a copy of the genome of one member,
    /// drawn uniformly. A species without members keeps what it has.
    pub fn choose_type_specimen(&mut self, rng: &mut ThreadRng)
        ensures
            final(self).id == old(self).id,
            final(self).members == old(self).members,
            final(self).species_fitness == old(self).species_fitness,
            old(self).members@.len() == 0 ==> final(self).type_specimen == old(self).type_specimen,
            old(self).members@.len() > 0 ==> exists|k: int|
                0 <= k < old(self).members@.len() && final(self).type_specimen@ == (#[trigger] old(
                    self,
                ).members@[k])@.genome,
    {
        if self.members.len() == 0 {
            return ;
        }
        let drawn = random_below(rng, self.members.len() as u64) as usize;
        self.type_specimen = self.members[drawn].genome.clone();
        assert(self.type_specimen@ == old(self).members@[drawn as int]@.genome);
    }

    /// Draws two different positions below `count`, each pair equally
    /// likely, and returns the lower one first.
    pub fn draw_parents(count: usize, rng: &mut ThreadRng) -> (parents: (usize, usize))
        requires
            count >= 2,
        ensures
            parents.0 < parents.1 < count,
    {
        let first = random_below(rng, count as u64) as usize;
        let drawn = random_below(rng, (count - 1) as u64) as usize;
        let second = if drawn >= first {
            drawn + 1
        } else {
            drawn
        };
        if first < second {
            (first, second)
        } else {
            (second, first)
        }
    }

    /// The next generation of this species: `slots` phenotypes.
    ///
    /// The first is the elite, a copy of the member of the highest rank.
    /// Each of the others is bred anew. A single member breeds by mutation.
    /// Of several members two are drawn without replacement; crossover takes
    /// the one of higher rank as the fitter parent, and its child is
    /// mutated. Where the mutation of a child finds no valid topology, the
    /// whole is given up as `InvalidTopology`. A single slot always
    /// succeeds: it takes the elite, and nothing is bred. So do members
    /// without connections: their children have none before the mutation,
    /// and one mutation of such a genome makes no cycle.
    pub fn populate(
        &self,
        slots: usize,
        registry: &mut InnovationRegistry,
        rng: &mut ThreadRng,
        perturbations: &Vec<i64>,
    ) -> (bred: Result<Vec<Phenotype>, TyrosineError>)
        requires
            self.members@.len() >= 1,
            slots >= 1,
            forall|k: int| 0 <= k < self.members@.len() ==> (#[trigger] self.members@[k]).wf(),
            old(registry).wf(),
        ensures
            final(registry).wf(),
            final(registry)@.extends(old(registry)@),
            match bred {
                Ok(children) => {
                    &&& children@.len() == slots
                    &&& children@[0]@ == self.members@[0]@
                    &&& forall|k: int| 0 <= k < children@.len() ==> (#[trigger] children@[k]).wf()
                    &&& forall|k: int|
                        1 <= k < children@.len() ==> bred_from(
                            views(self.members@),
                            (#[trigger] children@[k])@.genome,
                            perturbations@,
                        )
                    &&& uniform(self.members@) ==> forall|k: int|
                        0 <= k < children@.len() ==> (#[trigger] children@[k]).genome.num_inputs
                            == self.members@[0].genome.num_inputs && children@[k].genome.num_outputs
                            == self.members@[0].genome.num_outputs
                },
                Err(error) => error == TyrosineError::InvalidTopology,
            },
            slots == 1 || unconnected(self.members@) ==> bred is Ok,
    {
        let mut children: Vec<Phenotype> = Vec::new();
        children.push(self.members[0].clone());
        while children.len() < slots
            invariant
                self.members@.len() >= 1,
                forall|k: int| 0 <= k < self.members@.len() ==> (#[trigger] self.members@[k]).wf(),
                registry.wf(),
                registry@.extends(old(registry)@),
                1 <= children@.len() <= slots,
                children@[0]@ == self.members@[0]@,
                forall|k: int| 0 <= k < children@.len() ==> (#[trigger] children@[k]).wf(),
                forall|k: int|
                    1 <= k < children@.len() ==> bred_from(
                        views(self.members@),
                        (#[trigger] children@[k])@.genome,
                        perturbations@,
                    ),
                uniform(self.members@) ==> forall|k: int|
                    0 <= k < children@.len() ==> (#[trigger] children@[k]).genome.num_inputs
                        == self.members@[0].genome.num_inputs && children@[k].genome.num_outputs
                        == self.members@[0].genome.num_outputs,
            decreases slots - children@.len(),
        {
            let child = if self.members.len() == 1 {
                assert(self.members@[0].wf());
                assert(unconnected(self.members@) ==> self.members@[0]@.genome.connections.len() == 0);
                match Phenotype::from_mutation(&self.members[0].genome, registry, rng, perturbations) {
                    Ok(child) => {
                        assert(views(self.members@)[0] == self.members@[0]@);
                        child
                    },
                    Err(error) => {
                        return Err(error);
                    },
                }
            } else {
                let (fit, unfit) = Species::draw_parents(self.members.len(), rng);
                assert(self.members@[fit as int].wf());
                let crossed = Genome::crossover(
                    &self.members[fit].genome,
                    &self.members[unfit].genome,
                    rng,
                );
                let ghost picks = choose|picks: Seq<bool>|
                    picks.len() == self.members@[fit as int]@.genome.connections.len() && crossed@
                        == #[trigger] self.members@[fit as int]@.genome.crossed(
                        self.members@[unfit as int]@.genome,
                        picks,
                    );
                assert(unconnected(self.members@) ==> crossed@.connections.len() == 0) by {
                    if unconnected(self.members@) {
                        assert(self.members@[fit as int]@.genome.connections.len() == 0);
                    }
                }
                match Phenotype::from_mutation(&crossed, registry, rng, perturbations) {
                    Ok(child) => {
                        assert(views(self.members@)[fit as int] == self.members@[fit as int]@);
                        assert(views(self.members@)[unfit as int] == self.members@[unfit as int]@);
                        assert(descends(
                            views(self.members@)[fit as int].genome.crossed(
                                views(self.members@)[unfit as int].genome,
                                picks,
                            ),
                            child@.genome,
                            perturbations@,
                        ));
                        child
                    },
                    Err(error) => {
                        return Err(error);
                    },
                }
            };
            assert(bred_from(views(self.members@), child@.genome, perturbations@));
            children.push(child);
        }
        Ok(children)
    }
}

/// Where `first_home` finds a species, that species accepts the genome;
/// where it finds none, no species along the order does.
pub proof fn lemma_first_home(species: Seq<Species>, genome: GenomeView, order: Seq<usize>, from: int)
    requires
        0 <= from,
    ensures
        match first_home(species, genome, order, from) {
            Some(at) => 0 <= at < species.len() && compatible(genome, species[at].type_specimen@),
            None => forall|k: int|
                from <= k < order.len() && (#[trigger] order[k]) < species.len() ==> !compatible(
                    genome,
                    species[order[k] as int].type_specimen@,
                ),
        },
    decreases order.len() - from,
{
    if from < order.len() {
        if !(order[from] < species.len() && compatible(
            genome,
            species[order[from] as int].type_specimen@,
        )) {
            lemma_first_home(species, genome, order, from + 1);
        }
    }
}

/// The phenotypes of all species, after one species was joined by a
/// phenotype, are those of before and the newcomer.
proof fn lemma_specimens_joined(species: Seq<Species>, at: int, phenotype: Phenotype)
    requires
        0 <= at < species.len(),
    ensures
        forall|after: Seq<Species>|
            after.len() == species.len() && (forall|k: int|
                0 <= k < species.len() && k != at ==> #[trigger] after[k] == species[k])
                && after[at].members@ == species[at].members@.push(phenotype) ==> #[trigger] specimens(
                after,
            ).to_multiset() == specimens(species).to_multiset().insert(phenotype),
{
    assert forall|after: Seq<Species>|
        after.len() == species.len() && (forall|k: int|
            0 <= k < species.len() && k != at ==> #[trigger] after[k] == species[k])
            && after[at].members@ == species[at].members@.push(phenotype) implies #[trigger] specimens(
        after,
    ).to_multiset() == specimens(species).to_multiset().insert(phenotype) by {
        lemma_specimens_joined_at(species, after, at, phenotype);
    }
}

/// The phenotypes of `after`, which is `species` with one species joined by
/// a phenotype, are those of `species` and the newcomer.
proof fn lemma_specimens_joined_at(
    species: Seq<Species>,
    after: Seq<Species>,
    at: int,
    phenotype: Phenotype,
)
    requires
        0 <= at < species.len(),
        after.len() == species.len(),
        forall|k: int| 0 <= k < species.len() && k != at ==> #[trigger] after[k] == species[k],
        after[at].members@ == species[at].members@.push(phenotype),
    ensures
        specimens(after).to_multiset() == specimens(species).to_multiset().insert(phenotype),
    decreases species.len(),
{
    let head = specimens(species.drop_last());
    let tail = species.last().members@;
    vstd::seq_lib::lemma_multiset_commutative(head, tail);
    if at == species.len() - 1 {
        assert(after.drop_last() =~= species.drop_last());
        assert(specimens(after) =~= specimens(species).push(phenotype));
        vstd::seq_lib::to_multiset_build(specimens(species), phenotype);
    } else {
        lemma_specimens_joined_at(species.drop_last(), after.drop_last(), at, phenotype);
        let after_head = specimens(after.drop_last());
        vstd::seq_lib::lemma_multiset_commutative(after_head, tail);
        assert(after.last() == species.last());
        assert(specimens(after).to_multiset() =~= specimens(species).to_multiset().insert(phenotype));
    }
}

/// The phenotypes of all species, after a species with one member was
/// added, are those of before and that member.
proof fn lemma_specimens_founded(species: Seq<Species>, phenotype: Phenotype)
    ensures
        forall|founded_species: Species|
            founded_species.members@ == seq![phenotype] ==> #[trigger] specimens(
                species.push(founded_species),
            ).to_multiset() == specimens(species).to_multiset().insert(phenotype),
{
    assert forall|founded_species: Species|
        founded_species.members@ == seq![phenotype] implies #[trigger] specimens(
        species.push(founded_species),
    ).to_multiset() == specimens(species).to_multiset().insert(phenotype) by {
        let after = species.push(founded_species);
        assert(after.drop_last() =~= species);
        assert(specimens(after) =~= specimens(species).push(phenotype));
        vstd::seq_lib::to_multiset_build(specimens(species), phenotype);
    }
}

/// An empty list holds nothing.
proof fn lemma_nothing_sorted<A>()
    ensures
        Seq::<A>::empty().to_multiset() == Multiset::<A>::empty(),
{
    vstd::seq_lib::to_multiset_len(Seq::<A>::empty());
    vstd::multiset::lemma_multiset_empty_len(Seq::<A>::empty().to_multiset());
    assert(Seq::<A>::empty().to_multiset() =~= Multiset::<A>::empty());
}

/// Before any phenotype is sorted in, the species are as they were.
proof fn lemma_clustered_start(species: Seq<Species>, first_id: usize)
    ensures
        clustered(species, species, first_id),
{
    assert forall|i: int| 0 <= i < species.len() implies species[i].members@.subrange(
        0,
        species[i].members@.len() as int,
    ) == species[i].members@ by {
        assert(species[i].members@.subrange(0, species[i].members@.len() as int)
            =~= species[i].members@);
    }
}

/// Placing one more phenotype keeps the species sorted.
proof fn lemma_clustered_step(
    origin: Seq<Species>,
    before: Seq<Species>,
    after: Seq<Species>,
    phenotype: Phenotype,
    home: Option<int>,
    first_id: usize,
)
    requires
        clustered(origin, before, first_id),
        placed_into(before, after, phenotype, home, (first_id + (before.len() - origin.len())) as usize),
        first_id + (before.len() - origin.len()) <= usize::MAX,
        match home {
            Some(at) => 0 <= at < before.len() && compatible(
                phenotype@.genome,
                before[at].type_specimen@,
            ),
            None => forall|j: int|
                0 <= j < before.len() ==> !compatible(
                    phenotype@.genome,
                    (#[trigger] before[j]).type_specimen@,
                ),
        },
    ensures
        clustered(origin, after, first_id),
{
    match home {
        Some(at) => {
            assert forall|i: int| 0 <= i < origin.len() implies {
                &&& (#[trigger] after[i]).id == origin[i].id
                &&& after[i].type_specimen == origin[i].type_specimen
                &&& after[i].species_fitness == origin[i].species_fitness
                &&& origin[i].members@.len() <= after[i].members@.len()
                &&& after[i].members@.subrange(0, origin[i].members@.len() as int)
                    == origin[i].members@
                &&& forall|k: int|
                    origin[i].members@.len() <= k < after[i].members@.len() ==> compatible(
                        (#[trigger] after[i].members@[k])@.genome,
                        after[i].type_specimen@,
                    )
            } by {
                assert(before[i].id == origin[i].id);
                if i == at {
                    assert(after[i].members@.subrange(0, origin[i].members@.len() as int)
                        =~= before[i].members@.subrange(0, origin[i].members@.len() as int));
                    assert forall|k: int|
                        origin[i].members@.len() <= k < after[i].members@.len() implies compatible(
                        (#[trigger] after[i].members@[k])@.genome,
                        after[i].type_specimen@,
                    ) by {
                        if k < before[i].members@.len() {
                            assert(after[i].members@[k] == before[i].members@[k]);
                        }
                    }
                } else {
                    assert(after[i] == before[i]);
                }
            }
            assert forall|i: int| origin.len() <= i < after.len() implies {
                &&& (#[trigger] after[i]).id == first_id + (i - origin.len())
                &&& after[i].species_fitness is None
                &&& after[i].members@.len() >= 1
                &&& after[i].type_specimen@ == after[i].members@[0]@.genome
                &&& forall|k: int|
                    1 <= k < after[i].members@.len() ==> compatible(
                        (#[trigger] after[i].members@[k])@.genome,
                        after[i].type_specimen@,
                    )
                &&& forall|j: int|
                    0 <= j < i ==> !compatible(
                        after[i].members@[0]@.genome,
                        (#[trigger] after[j]).type_specimen@,
                    )
            } by {
                assert(before[i].id == first_id + (i - origin.len()));
                if i == at {
                    assert(after[i].members@[0] == before[i].members@[0]);
                    assert forall|k: int| 1 <= k < after[i].members@.len() implies compatible(
                        (#[trigger] after[i].members@[k])@.genome,
                        after[i].type_specimen@,
                    ) by {
                        if k < before[i].members@.len() {
                            assert(after[i].members@[k] == before[i].members@[k]);
                        }
                    }
                } else {
                    assert(after[i] == before[i]);
                }
                assert forall|j: int| 0 <= j < i implies !compatible(
                    after[i].members@[0]@.genome,
                    (#[trigger] after[j]).type_specimen@,
                ) by {
                    assert(before[j].type_specimen == after[j].type_specimen);
                    assert(!compatible(before[i].members@[0]@.genome, before[j].type_specimen@));
                }
            }
        },
        None => {
            assert forall|i: int| 0 <= i < origin.len() implies {
                &&& (#[trigger] after[i]).id == origin[i].id
                &&& after[i].type_specimen == origin[i].type_specimen
                &&& after[i].species_fitness == origin[i].species_fitness
                &&& origin[i].members@.len() <= after[i].members@.len()
                &&& after[i].members@.subrange(0, origin[i].members@.len() as int)
                    == origin[i].members@
                &&& forall|k: int|
                    origin[i].members@.len() <= k < after[i].members@.len() ==> compatible(
                        (#[trigger] after[i].members@[k])@.genome,
                        after[i].type_specimen@,
                    )
            } by {
                assert(after[i] == before[i]);
                assert(before[i].id == origin[i].id);
            }
            assert forall|i: int| origin.len() <= i < after.len() implies {
                &&& (#[trigger] after[i]).id == first_id + (i - origin.len())
                &&& after[i].species_fitness is None
                &&& after[i].members@.len() >= 1
                &&& after[i].type_specimen@ == after[i].members@[0]@.genome
                &&& forall|k: int|
                    1 <= k < after[i].members@.len() ==> compatible(
                        (#[trigger] after[i].members@[k])@.genome,
                        after[i].type_specimen@,
                    )
                &&& forall|j: int|
                    0 <= j < i ==> !compatible(
                        after[i].members@[0]@.genome,
                        (#[trigger] after[j]).type_specimen@,
                    )
            } by {
                if i < before.len() {
                    assert(after[i] == before[i]);
                    assert(before[i].id == first_id + (i - origin.len()));
                    assert forall|j: int| 0 <= j < i implies !compatible(
                        after[i].members@[0]@.genome,
                        (#[trigger] after[j]).type_specimen@,
                    ) by {
                        assert(after[j] == before[j]);
                        assert(!compatible(before[i].members@[0]@.genome, before[j].type_specimen@));
                    }
                } else {
                    assert forall|j: int| 0 <= j < i implies !compatible(
                        after[i].members@[0]@.genome,
                        (#[trigger] after[j]).type_specimen@,
                    ) by {
                        assert(after[j] == before[j]);
                    }
                }
            }
        },
    }
}

} // verus!
