//! The population: all species of one generation, and the step to the next.
//!
//! The specimens of a generation are numbered by going through the species
//! in order and through the members of each in order. The caller scores
//! every specimen and hands the scores to [`Population::evolve`], which
//! replaces the generation by the next.

use crate::errors::TyrosineError;
use crate::genome::{Genome, GenomeView};
use crate::innovation::{GlobalInnovator, InnovationRegistry};
use crate::phenotype::{ActivationPlan, Phenotype, PhenotypeView};
use crate::random::{random_below, thread_rng};
use crate::selection::{
    allot_slots, allotted, count_sum, lemma_total_bound, mean_fitness, mean_of, mean_scale,
    rank_by_fitness, ranked, ranking_of, shares_fit, total_of,
};
use crate::species::{
    bred_from, clustered, descends, specimens, unconnected, uniform, views, Species, SpeciesCounter,
};
use rand::rngs::ThreadRng;
use std::collections::HashMap;
use vstd::multiset::Multiset;
use vstd::prelude::*;

verus! {

broadcast use vstd::std_specs::hash::group_hash_axioms;

/// How often a next generation is drawn anew because it shows no change.
pub const GENERATION_ATTEMPTS: usize = 64;

/// Whether two lists of species show the same: as many species, as many
/// members in each, and the same genome in every place.
pub open spec fn alike(first: Seq<Species>, second: Seq<Species>) -> bool {
    &&& first.len() == second.len()
    &&& forall|i: int|
        0 <= i < first.len() ==> (#[trigger] first[i]).members@.len() == second[i].members@.len()
    &&& forall|i: int, k: int|
        0 <= i < first.len() && 0 <= k < first[i].members@.len() ==> (
        #[trigger] first[i].members@[k])@.genome == second[i].members@[k]@.genome
}

/// Whether two lists of species show the same: see [`alike`].
pub fn same_generation(first: &Vec<Species>, second: &Vec<Species>) -> (same: bool)
    ensures
        same == alike(first@, second@),
{
    if first.len() != second.len() {
        return false;
    }
    let mut i: usize = 0;
    while i < first.len()
        invariant
            first@.len() == second@.len(),
            i <= first@.len(),
            forall|j: int|
                0 <= j < i ==> (#[trigger] first@[j]).members@.len() == second@[j].members@.len(),
            forall|j: int, k: int|
                0 <= j < i && 0 <= k < first@[j].members@.len() ==> (
                #[trigger] first@[j].members@[k])@.genome == second@[j].members@[k]@.genome,
        decreases first@.len() - i,
    {
        if first[i].members.len() != second[i].members.len() {
            assert(first@[i as int].members@.len() != second@[i as int].members@.len());
            return false;
        }
        let mut k: usize = 0;
        while k < first[i].members.len()
            invariant
                i < first@.len(),
                first@.len() == second@.len(),
                first@[i as int].members@.len() == second@[i as int].members@.len(),
                k <= first@[i as int].members@.len(),
                forall|m: int|
                    0 <= m < k ==> (#[trigger] first@[i as int].members@[m])@.genome
                        == second@[i as int].members@[m]@.genome,
            decreases first@[i as int].members@.len() - k,
        {
            if !first[i].members[k].genome.same_as(&second[i].members[k].genome) {
                assert(first@[i as int].members@[k as int]@.genome
                    != second@[i as int].members@[k as int]@.genome);
                return false;
            }
            k = k + 1;
        }
        i = i + 1;
    }
    true
}

/// Where each specimen is found: for every species in order, and every
/// member in order, the position of the species and of the member.
pub open spec fn cache_of(species: Seq<Species>) -> Seq<(usize, usize)>
    decreases species.len(),
{
    if species.len() == 0 {
        Seq::empty()
    } else {
        cache_of(species.drop_last()) + Seq::new(
            species.last().members@.len(),
            |k: int| ((species.len() - 1) as usize, k as usize),
        )
    }
}

/// The map that takes each position of `entries` to its entry.
pub open spec fn as_map(entries: Seq<(usize, usize)>) -> Map<usize, (usize, usize)> {
    Map::new(|index: usize| index < entries.len(), |index: usize| entries[index as int])
}

/// The map of a list of entries has an entry for each position, and no
/// other.
pub proof fn lemma_as_map(entries: Seq<(usize, usize)>)
    requires
        entries.len() <= usize::MAX,
    ensures
        as_map(entries).dom().finite(),
        as_map(entries).len() == entries.len(),
{
    let count = entries.len() as usize;
    vstd::set_lib::range_set_properties::<usize>(0usize, count);
    assert(as_map(entries).dom() =~= Set::new(|i: usize| 0usize <= i < count));
}

/// A finite map with as many entries as `entries` has, and with every
/// entry of `entries` at its position, is the map of `entries`.
pub proof fn lemma_is_as_map(cache: Map<usize, (usize, usize)>, entries: Seq<(usize, usize)>)
    requires
        entries.len() <= usize::MAX,
        cache.dom().finite(),
        cache.len() == entries.len(),
        forall|index: usize|
            index < entries.len() ==> #[trigger] cache.contains_key(index) && cache[index]
                == entries[index as int],
    ensures
        cache == as_map(entries),
{
    lemma_as_map(entries);
    let wanted = as_map(entries).dom();
    assert(wanted.subset_of(cache.dom())) by {
        assert forall|index: usize| wanted.contains(index) implies cache.dom().contains(index) by {
            assert(cache.contains_key(index));
        }
    }
    vstd::set_lib::lemma_subset_equality(wanted, cache.dom());
    assert(cache =~= as_map(entries));
}

/// The number of the first specimen of species `at`: the number of members
/// of the species before it.
pub open spec fn offset_of(species: Seq<Species>, at: int) -> nat
    decreases at,
{
    if at <= 0 {
        0
    } else {
        offset_of(species, at - 1) + species[at - 1].members@.len()
    }
}

/// The species, of `species`, that have at least one member, in order.
pub open spec fn inhabited(species: Seq<Species>) -> Seq<Species>
    decreases species.len(),
{
    if species.len() == 0 {
        Seq::empty()
    } else if species.last().members@.len() > 0 {
        inhabited(species.drop_last()).push(species.last())
    } else {
        inhabited(species.drop_last())
    }
}

/// Whether the ids of `species` are all below `bound` and all different.
pub open spec fn ids_in_order(species: Seq<Species>, bound: usize) -> bool {
    &&& forall|i: int| 0 <= i < species.len() ==> (#[trigger] species[i]).id < bound
    &&& forall|i: int, j: int|
        0 <= i < j < species.len() ==> (#[trigger] species[i]).id != (#[trigger] species[j]).id
}

/// Whether `phenotype` is well formed and has `num_inputs` input nodes and
/// `num_outputs` output nodes.
pub open spec fn fits(phenotype: Phenotype, num_inputs: usize, num_outputs: usize) -> bool {
    &&& phenotype.wf()
    &&& phenotype.genome.num_inputs == num_inputs
    &&& phenotype.genome.num_outputs == num_outputs
}

/// The cache has one entry for each specimen.
pub proof fn lemma_cache_len(species: Seq<Species>)
    ensures
        cache_of(species).len() == specimens(species).len(),
        specimens(species).len() == offset_of(species, species.len() as int),
    decreases species.len(),
{
    if species.len() > 0 {
        lemma_cache_len(species.drop_last());
        lemma_offset_prefix(species, species.len() - 1);
    }
}

/// The offset of a species depends only on the species before it.
proof fn lemma_offset_prefix(species: Seq<Species>, at: int)
    requires
        0 <= at < species.len(),
    ensures
        offset_of(species.drop_last(), at) == offset_of(species, at),
    decreases at,
{
    if at > 0 {
        lemma_offset_prefix(species, at - 1);
    }
}

/// Member `member` of species `at` is the specimen numbered by the offset of
/// the species plus `member`, and the cache says so.
pub proof fn lemma_specimen_at(species: Seq<Species>, at: int, member: int)
    requires
        0 <= at < species.len(),
        0 <= member < species[at].members@.len(),
        species.len() <= usize::MAX,
        species[at].members@.len() <= usize::MAX,
    ensures
        offset_of(species, at) + member < specimens(species).len(),
        specimens(species)[offset_of(species, at) + member] == species[at].members@[member],
        cache_of(species)[offset_of(species, at) + member] == (at as usize, member as usize),
    decreases species.len(),
{
    lemma_cache_len(species);
    lemma_cache_len(species.drop_last());
    if at == species.len() - 1 {
        lemma_offset_prefix(species, at);
    } else {
        lemma_specimen_at(species.drop_last(), at, member);
        lemma_offset_prefix(species, at);
    }
}

/// Every cache entry names a member of a species, and that member is the
/// specimen with the number of the entry.
pub proof fn lemma_cache_locates(species: Seq<Species>, index: int)
    requires
        0 <= index < cache_of(species).len(),
        species.len() <= usize::MAX,
        forall|i: int| 0 <= i < species.len() ==> (#[trigger] species[i]).members@.len() <= usize::MAX,
    ensures
        index < specimens(species).len(),
        cache_of(species)[index].0 < species.len(),
        cache_of(species)[index].1 < species[cache_of(species)[index].0 as int].members@.len(),
        specimens(species)[index] == species[cache_of(species)[index].0 as int].members@[cache_of(
            species,
        )[index].1 as int],
        index == offset_of(species, cache_of(species)[index].0 as int) + cache_of(species)[index].1,
    decreases species.len(),
{
    lemma_cache_len(species);
    lemma_cache_len(species.drop_last());
    let before = cache_of(species.drop_last()).len() as int;
    if index < before {
        lemma_cache_locates(species.drop_last(), index);
        lemma_offset_prefix(species, cache_of(species)[index].0 as int);
    } else {
        assert(species.last().members@.len() <= usize::MAX);
        assert(cache_of(species)[index] == ((species.len() - 1) as usize, (index - before) as usize));
        lemma_offset_prefix(species, species.len() - 1);
    }
}

/// All species of one generation, with what is needed to make the next.
pub struct Population {
    /// The authority that numbers new connections.
    pub innovator: InnovationRegistry,
    /// The counter that numbers new species.
    pub species_counter: SpeciesCounter,
    /// The species, each with at least one member.
    pub species: Vec<Species>,
    /// The number of specimens of every generation.
    pub population_size: usize,
    /// The number of input nodes of every genome, the bias input included.
    pub num_inputs: usize,
    /// The number of output nodes of every genome.
    pub num_outputs: usize,
    /// The number of generations that came before this one.
    pub generation: u64,
    /// For the number of each specimen, the position of its species and its
    /// position among the members.
    pub index_cache: HashMap<usize, (usize, usize)>,
    /// The source of all random draws.
    pub rng: ThreadRng,
}

impl Population {
    /// The invariant of a population.
    ///
    /// The registry is well formed. The species hold `population_size`
    /// specimens between them, and each holds at least one. Every specimen
    /// is well formed and has the node counts of the population. The species
    /// ids are different from each other and were handed out by the counter.
    /// The cache says where each specimen is.
    pub open spec fn wf(&self) -> bool {
        &&& self.innovator.wf()
        &&& self.num_inputs >= 1
        &&& specimens(self.species@).len() == self.population_size
        &&& forall|i: int|
            0 <= i < self.species@.len() ==> (#[trigger] self.species@[i]).members@.len() >= 1
        &&& forall|i: int, k: int|
            0 <= i < self.species@.len() && 0 <= k < self.species@[i].members@.len() ==> fits(
                #[trigger] self.species@[i].members@[k],
                self.num_inputs,
                self.num_outputs,
            )
        &&& ids_in_order(self.species@, self.species_counter.id)
        &&& self.index_cache@ == as_map(cache_of(self.species@))
    }

    /// The specimens of this generation, in order of their numbers.
    pub open spec fn specimens(&self) -> Seq<Phenotype> {
        specimens(self.species@)
    }

    /// The number of specimens of every generation.
    pub fn population_size(&self) -> (size: usize)
        ensures
            size == self.population_size,
    {
        self.population_size
    }

    /// The number of generations that came before this one.
    pub fn generation(&self) -> (generation: u64)
        ensures
            generation == self.generation,
    {
        self.generation
    }

    /// Whether the population keeps its invariant.
    pub fn is_valid(&self) -> (valid: bool)
        ensures
            valid == self.wf(),
    {
        if !self.innovator.is_valid() || self.num_inputs < 1 {
            return false;
        }
        proof {
            lemma_cache_len(self.species@);
        }
        match count_specimens(&self.species) {
            None => {
                return false;
            },
            Some(count) => {
                if count != self.population_size || !cache_is_current(
                    &self.index_cache,
                    &self.species,
                ) {
                    return false;
                }
            },
        }
        let mut at: usize = 0;
        while at < self.species.len()
            invariant
                at <= self.species@.len(),
                forall|i: int| 0 <= i < at ==> (#[trigger] self.species@[i]).members@.len() >= 1,
                forall|i: int, k: int|
                    0 <= i < at && 0 <= k < self.species@[i].members@.len() ==> fits(
                        #[trigger] self.species@[i].members@[k],
                        self.num_inputs,
                        self.num_outputs,
                    ),
                forall|i: int| 0 <= i < at ==> (#[trigger] self.species@[i]).id < self.species_counter.id,
                forall|i: int, j: int|
                    0 <= i < j < at ==> (#[trigger] self.species@[i]).id != (
                    #[trigger] self.species@[j]).id,
            decreases self.species@.len() - at,
        {
            let species = &self.species[at];
            if species.members.len() == 0 || species.id >= self.species_counter.id {
                assert(!self.wf()) by {
                    let broken = self.species@[at as int];
                    assert(broken.members@.len() == 0 || broken.id >= self.species_counter.id);
                }
                return false;
            }
            let mut k: usize = 0;
            while k < species.members.len()
                invariant
                    at < self.species@.len(),
                    *species == self.species@[at as int],
                    k <= species.members@.len(),
                    forall|m: int|
                        0 <= m < k ==> fits(
                            #[trigger] species.members@[m],
                            self.num_inputs,
                            self.num_outputs,
                        ),
                decreases species.members@.len() - k,
            {
                let member = &species.members[k];
                if !member.is_valid() || member.genome.num_inputs != self.num_inputs
                    || member.genome.num_outputs != self.num_outputs {
                    assert(!self.wf()) by {
                        assert(!fits(
                            self.species@[at as int].members@[k as int],
                            self.num_inputs,
                            self.num_outputs,
                        ));
                    }
                    return false;
                }
                k = k + 1;
            }
            let mut earlier: usize = 0;
            while earlier < at
                invariant
                    at < self.species@.len(),
                    *species == self.species@[at as int],
                    earlier <= at,
                    forall|i: int| 0 <= i < earlier ==> (#[trigger] self.species@[i]).id != species.id,
                decreases at - earlier,
            {
                if self.species[earlier].id == species.id {
                    assert(!self.wf()) by {
                        assert(self.species@[earlier as int].id == self.species@[at as int].id);
                    }
                    return false;
                }
                earlier = earlier + 1;
            }
            at = at + 1;
        }
        true
    }

    /// Whether `fitnesses` can take this population to its next generation:
    /// there is a fitness for every specimen, the counters leave room, and
    /// the mean fitnesses do not add to zero.
    pub open spec fn evolves(&self, fitnesses: Seq<u64>) -> bool {
        &&& fitnesses.len() == self.population_size
        &&& self.has_room()
        &&& total_of(means_of(self.species@, fitnesses), self.species@.len() as int) > 0
    }

    /// Whether the counters leave room for one more generation: a new id
    /// for every specimen, should each found a species, and a generation
    /// number.
    pub open spec fn has_room(&self) -> bool {
        self.species_counter.id + self.population_size <= usize::MAX && self.generation < u64::MAX
    }

    /// Whether the counters leave room for one more generation.
    pub fn can_evolve(&self) -> (room: bool)
        ensures
            room == self.has_room(),
    {
        self.species_counter.id <= usize::MAX - self.population_size && self.generation < u64::MAX
    }

    /// Rebuilds the cache that says where each specimen is.
    pub fn update_cache(&mut self)
        requires
            specimens(old(self).species@).len() <= usize::MAX,
        ensures
            final(self).index_cache@ == as_map(cache_of(old(self).species@)),
            final(self).species == old(self).species,
            final(self).innovator == old(self).innovator,
            final(self).species_counter == old(self).species_counter,
            final(self).population_size == old(self).population_size,
            final(self).num_inputs == old(self).num_inputs,
            final(self).num_outputs == old(self).num_outputs,
            final(self).generation == old(self).generation,
    {
        self.index_cache = build_cache(&self.species);
    }

    /// The specimens of this generation, in order of their numbers.
    pub fn get_specimens(&self) -> (found: Vec<&Phenotype>)
        requires
            self.wf(),
        ensures
            found@.len() == self.population_size,
            forall|index: int|
                0 <= index < found@.len() ==> *(#[trigger] found@[index]) == self.specimens()[index],
    {
        let mut found: Vec<&Phenotype> = Vec::new();
        let mut index: usize = 0;
        proof {
            lemma_cache_len(self.species@);
        }
        while index < self.population_size
            invariant
                self.wf(),
                index <= self.population_size,
                cache_of(self.species@).len() == self.population_size,
                found@.len() == index,
                forall|g: int| 0 <= g < index ==> *(#[trigger] found@[g]) == self.specimens()[g],
            decreases self.population_size - index,
        {
            proof {
                self.lemma_sizes();
                lemma_cache_locates(self.species@, index as int);
                assert(self.index_cache@.contains_key(index));
            }
            match self.index_cache.get(&index) {
                Some(place) => {
                    found.push(&self.species[place.0].members[place.1]);
                },
                None => {},
            }
            index = index + 1;
        }
        found
    }

    /// The plan of an activation of the specimen numbered `idx`, on
    /// `input_count` inputs.
    ///
    /// The result is `None` exactly when there is no specimen of that
    /// number. Otherwise it is what [`Phenotype::activation_plan`] gives for
    /// the specimen: the plan, or `InputArityMismatch`.
    pub fn activate_index(&self, idx: usize, input_count: usize) -> (planned: Option<
        Result<ActivationPlan, TyrosineError>,
    >)
        requires
            self.wf(),
        ensures
            planned is Some <==> idx < self.population_size,
            planned matches Some(outcome) ==> {
                &&& outcome is Ok <==> input_count + 1 == self.num_inputs
                &&& match outcome {
                    Ok(plan) => self.specimens()[idx as int]@.planned(
                        plan.presets@,
                        plan.steps_view(),
                        plan.outputs@,
                    ) && plan.outputs@.len() == self.num_outputs,
                    Err(error) => error == TyrosineError::InputArityMismatch,
                }
            },
    {
        proof {
            lemma_cache_len(self.species@);
        }
        match self.index_cache.get(&idx) {
            None => None,
            Some(place) => {
                proof {
                    self.lemma_sizes();
                    lemma_cache_locates(self.species@, idx as int);
                }
                Some(self.species[place.0].members[place.1].activation_plan(input_count))
            },
        }
    }

    /// Whether `after` is a next generation of this population under the
    /// fitnesses `fitnesses`, with nudges from `table`: see
    /// [`Population::advanced_to`].
    pub open spec fn advanced(&self, fitnesses: Seq<u64>, table: Seq<i64>, after: &Population) -> bool {
        self.advanced_to(fitnesses, table, after.species@, after.species_counter.id)
    }

    /// Whether `species`, with the counter at `counter`, are the species of
    /// a next generation of this population under the fitnesses `fitnesses`,
    /// with nudges from `table`.
    ///
    /// Some allotment of the slots to the species, by their mean fitness,
    /// explains it. Every specimen comes from a species that received a
    /// slot: it is the elite of that species or was bred from its parents.
    /// The elite of every species that received a slot is among the
    /// specimens. A species that has the id of a species of before continues
    /// that species, which received a slot.
    pub open spec fn advanced_to(
        &self,
        fitnesses: Seq<u64>,
        table: Seq<i64>,
        species: Seq<Species>,
        counter: usize,
    ) -> bool {
        exists|slots: Seq<usize>, survivors: Seq<Species>, sorted: Seq<Species>|
            {
                &&& allotted(means_of(self.species@, fitnesses), self.population_size, slots)
                &&& #[trigger] self.resettled(fitnesses, slots, survivors, sorted, species, counter)
                &&& forall|g: int|
                    0 <= g < specimens(species).len() ==> offspring_of(
                        self.species@,
                        fitnesses,
                        slots,
                        (#[trigger] specimens(species)[g])@,
                        table,
                    )
                &&& forall|at: int|
                    0 <= at < self.species@.len() && #[trigger] slots[at] > 0 ==> exists|g: int|
                        0 <= g < specimens(species).len() && (#[trigger] specimens(species)[g])@
                            == elite_of(self.species@, fitnesses, at)
                &&& forall|at: int, j: int|
                    0 <= at < self.species@.len() && 0 <= j < species.len() && (
                    #[trigger] species[j]).id == (#[trigger] self.species@[at]).id ==> slots[at] > 0
                        && continues(self.species@, fitnesses, at, species[j])
            }
    }

    /// Whether `registry`, `counter` and `species` can replace those of this
    /// population as its next generation: the registry is well formed and
    /// continues the cleared registry of this population; the species hold
    /// as many specimens as before, each at least one, all well formed and
    /// of the node counts of the population; the ids are different from each
    /// other and below the counter; and the species are those of a next
    /// generation.
    pub open spec fn followed_by(
        &self,
        fitnesses: Seq<u64>,
        table: Seq<i64>,
        registry: InnovationRegistry,
        counter: SpeciesCounter,
        species: Seq<Species>,
    ) -> bool {
        &&& registry.wf()
        &&& registry@.extends(self.innovator@.cleared())
        &&& counter.id >= self.species_counter.id
        &&& specimens(species).len() == self.population_size
        &&& forall|i: int| 0 <= i < species.len() ==> (#[trigger] species[i]).members@.len() >= 1
        &&& forall|i: int, k: int|
            0 <= i < species.len() && 0 <= k < species[i].members@.len() ==> fits(
                #[trigger] species[i].members@[k],
                self.num_inputs,
                self.num_outputs,
            )
        &&& ids_in_order(species, counter.id)
        &&& self.advanced_to(fitnesses, table, species, counter.id)
    }

    /// Whether `species`, with the counter at `counter`, are what sorting
    /// makes of the survivors of this population: `survivors` continue, in
    /// order and without members, the species that received a slot; `sorted`
    /// is what sorting the new phenotypes into them gave; and `species` are
    /// those of `sorted` that have a member, the counter having moved past
    /// the new ids.
    pub open spec fn resettled(
        &self,
        fitnesses: Seq<u64>,
        slots: Seq<usize>,
        survivors: Seq<Species>,
        sorted: Seq<Species>,
        species: Seq<Species>,
        counter: usize,
    ) -> bool {
        &&& survivors.len() == surviving(slots, slots.len() as int).len()
        &&& forall|s: int|
            0 <= s < survivors.len() ==> continues(
                self.species@,
                fitnesses,
                surviving(slots, slots.len() as int)[s],
                #[trigger] survivors[s],
            ) && survivors[s].members@.len() == 0
        &&& clustered(survivors, sorted, self.species_counter.id)
        &&& species == inhabited(sorted)
        &&& counter == self.species_counter.id + (sorted.len() - survivors.len())
    }

    /// Whether the species of this first generation are what sorting all
    /// specimens made of one species, `first`: it had the id zero, no member,
    /// and the genome of one specimen as its type specimen; `sorted` is what
    /// the sorting gave; and the population holds those of `sorted` that have
    /// a member.
    pub open spec fn settled(&self, first: Species, sorted: Seq<Species>) -> bool {
        &&& first.id == 0
        &&& first.members@.len() == 0
        &&& first.species_fitness is None
        &&& exists|g: int|
            0 <= g < self.specimens().len() && first.type_specimen@ == (#[trigger] self.specimens()[g])@.genome
        &&& clustered(seq![first], sorted, 1)
        &&& self.species@ == inhabited(sorted)
        &&& self.species_counter.id == sorted.len()
    }

    /// Whether `after` holds what this population holds, the source of
    /// random draws aside.
    pub open spec fn unchanged(&self, after: &Population) -> bool {
        &&& after.innovator == self.innovator
        &&& after.species_counter == self.species_counter
        &&& after.species == self.species
        &&& after.population_size == self.population_size
        &&& after.num_inputs == self.num_inputs
        &&& after.num_outputs == self.num_outputs
        &&& after.generation == self.generation
        &&& after.index_cache == self.index_cache
    }

    /// A first generation of `population_size` specimens for networks of
    /// `num_inputs` inputs and `num_outputs` outputs.
    ///
    /// Every specimen is a mutation of the genome without connections. One
    /// specimen, drawn uniformly, gives the first species its type specimen;
    /// then all are sorted into species, and a species that stayed without
    /// members is dropped. A population of size zero is refused as
    /// `EmptyPopulation`; every other size succeeds, because one mutation of
    /// a genome without connections never makes a cycle.
    pub fn new(num_inputs: usize, num_outputs: usize, population_size: usize) -> (made: Result<
        Population,
        TyrosineError,
    >)
        requires
            num_inputs + 1 + num_outputs <= usize::MAX,
            population_size < usize::MAX,
        ensures
            made is Ok <==> population_size > 0,
            match made {
                Ok(population) => {
                    &&& population.wf()
                    &&& population.population_size == population_size
                    &&& population.num_inputs == num_inputs + 1
                    &&& population.num_outputs == num_outputs
                    &&& population.generation == 0
                    &&& forall|g: int|
                        0 <= g < population.specimens().len() ==> descends(
                            GenomeView::fresh(num_inputs, num_outputs),
                            (#[trigger] population.specimens()[g])@.genome,
                            Seq::empty(),
                        )
                    &&& exists|first: Species, sorted: Seq<Species>| #[trigger]
                        population.settled(first, sorted)
                },
                Err(error) => error == TyrosineError::EmptyPopulation,
            },
    {
        if population_size == 0 {
            return Err(TyrosineError::EmptyPopulation);
        }
        let mut rng = thread_rng();
        let mut innovator = InnovationRegistry::new();
        let mut species_counter = SpeciesCounter::new();
        let perturbations: Vec<i64> = Vec::new();
        let mut phenotypes: Vec<Phenotype> = Vec::new();
        while phenotypes.len() < population_size
            invariant
                num_inputs + 1 + num_outputs <= usize::MAX,
                innovator.wf(),
                phenotypes@.len() <= population_size,
                perturbations@ == Seq::<i64>::empty(),
                forall|g: int|
                    0 <= g < phenotypes@.len() ==> fits(
                        #[trigger] phenotypes@[g],
                        (num_inputs + 1) as usize,
                        num_outputs,
                    ) && descends(
                        GenomeView::fresh(num_inputs, num_outputs),
                        phenotypes@[g]@.genome,
                        Seq::empty(),
                    ),
            decreases population_size - phenotypes@.len(),
        {
            let genome = Genome::new(num_inputs, num_outputs);
            match Phenotype::from_mutation(&genome, &mut innovator, &mut rng, &perturbations) {
                Ok(phenotype) => {
                    phenotypes.push(phenotype);
                },
                Err(error) => {
                    return Err(error);
                },
            }
        }
        let chosen = random_below(&mut rng, population_size as u64) as usize;
        let first = Species::new(&phenotypes[chosen].genome, species_counter.next());
        let mut species: Vec<Species> = Vec::new();
        species.push(first);
        let ghost before = species@;
        let ghost offspring = phenotypes@;
        assert(before =~= seq![before[0]]);
        Species::sort_species(&mut species, phenotypes, &mut species_counter, &mut rng);
        let ghost sorted = species@;
        proof {
            lemma_vec_sizes(&species);
            lemma_settled(before, sorted, offspring, 1);
        }
        let species = drop_empty(species);
        let index_cache = build_cache(&species);
        let population = Population {
            innovator,
            species_counter,
            species,
            population_size,
            num_inputs: num_inputs + 1,
            num_outputs,
            generation: 0,
            index_cache,
            rng,
        };
        proof {
            lemma_all_fit(population.species@, offspring, population.num_inputs, num_outputs);
            lemma_same_specimens(
                population.specimens(),
                offspring,
                |phenotype: Phenotype|
                    descends(
                        GenomeView::fresh(num_inputs, num_outputs),
                        phenotype@.genome,
                        Seq::empty(),
                    ),
            );
            let founder = offspring[chosen as int];
            assert(offspring.contains(founder));
            vstd::seq_lib::to_multiset_contains(offspring, founder);
            vstd::seq_lib::to_multiset_contains(population.specimens(), founder);
            let g = choose|g: int|
                0 <= g < population.specimens().len() && population.specimens()[g] == founder;
            assert(before[0].type_specimen@ == population.specimens()[g]@.genome);
            assert(population.settled(before[0], sorted));
        }
        Ok(population)
    }

    /// Replaces this generation by the next.
    ///
    /// `fitnesses` holds the fitness of every specimen, in the order of
    /// [`Population::get_specimens`]; a vector of another length is refused
    /// as `FitnessArityMismatch`. The members of each species are ranked by
    /// fitness, and the species receive slots in proportion to their mean
    /// fitness; where the mean fitnesses add to zero, `EmptyPopulation` is
    /// returned. Where the counters leave no room for another generation,
    /// `CountersExhausted` is returned. A species without a slot goes extinct. Each of the others
    /// keeps the better half of its members as parents, draws its type
    /// specimen anew from them, and fills its slots: the first with a copy
    /// of its best member, the others by breeding, with the innovation
    /// numbers of a fresh generation. The new phenotypes are then sorted into
    /// the surviving species, and a species that stayed without members is
    /// dropped. On every error the population is left as it was.
    ///
    /// A next generation that shows no change from this one (as many
    /// species, as many members in each, and the same genome in every place)
    /// is dropped and drawn anew, sixty-four times at most. The result is
    /// the number of generations that were drawn: where it is below
    /// sixty-four, the new generation shows a change.
    ///
    /// `perturbations` is the table from which the weight mutation draws its
    /// nudges: samples of a Gaussian around zero, in fixed point. With an
    /// empty table a nudge leaves the weight as it is.
    #[verifier::rlimit(40)]
    pub fn evolve(&mut self, fitnesses: &Vec<u64>, perturbations: &Vec<i64>) -> (done: Result<
        usize,
        TyrosineError,
    >)
        requires
            old(self).wf(),
        ensures
            done is Ok ==> old(self).evolves(fitnesses@),
            old(self).evolves(fitnesses@) && certain(
                old(self).species@,
                fitnesses@,
                old(self).population_size,
            ) ==> done is Ok,
            match done {
                Ok(draws) => {
                    &&& final(self).wf()
                    &&& final(self).specimens().len() == old(self).population_size
                    &&& final(self).index_cache@.len() == old(self).population_size
                    &&& forall|i: int|
                        0 <= i < final(self).species@.len() ==> (
                        #[trigger] final(self).species@[i]).members@.len() >= 1
                    &&& forall|g: int|
                        0 <= g < final(self).specimens().len() ==> (
                        #[trigger] final(self).specimens()[g])@.wf()
                            && !final(self).specimens()[g]@.genome.has_cycle()
                    &&& final(self).population_size == old(self).population_size
                    &&& final(self).num_inputs == old(self).num_inputs
                    &&& final(self).num_outputs == old(self).num_outputs
                    &&& final(self).generation == old(self).generation + 1
                    &&& final(self).innovator@.extends(old(self).innovator@.cleared())
                    &&& final(self).species_counter.id >= old(self).species_counter.id
                    &&& old(self).advanced(fitnesses@, perturbations@, final(self))
                    &&& 1 <= draws <= GENERATION_ATTEMPTS
                    &&& draws < GENERATION_ATTEMPTS ==> !alike(old(self).species@, final(self).species@)
                },
                Err(error) => {
                    &&& old(self).unchanged(final(self))
                    &&& error == TyrosineError::FitnessArityMismatch <==> fitnesses@.len() != old(
                        self,
                    ).population_size
                    &&& error == TyrosineError::CountersExhausted <==> fitnesses@.len() == old(
                        self,
                    ).population_size && !old(self).has_room()
                    &&& error == TyrosineError::EmptyPopulation <==> fitnesses@.len() == old(
                        self,
                    ).population_size && old(self).has_room() && total_of(
                        means_of(old(self).species@, fitnesses@),
                        old(self).species@.len() as int,
                    ) == 0
                    &&& error == TyrosineError::FitnessArityMismatch || error
                        == TyrosineError::CountersExhausted || error == TyrosineError::EmptyPopulation
                        || error == TyrosineError::InvalidTopology
                },
            },
    {
        if fitnesses.len() != self.population_size {
            return Err(TyrosineError::FitnessArityMismatch);
        }
        if !self.can_evolve() {
            return Err(TyrosineError::CountersExhausted);
        }
        let mut attempt: usize = 1;
        loop
            invariant
                old(self).unchanged(self),
                self.wf(),
                self.has_room(),
                fitnesses@.len() == self.population_size,
                1 <= attempt <= GENERATION_ATTEMPTS,
            decreases GENERATION_ATTEMPTS - attempt,
        {
            let ghost before = *self;
            let (registry, species_counter, species) = match self.draw_generation(
                fitnesses,
                perturbations,
            ) {
                Ok(drawn) => drawn,
                Err(error) => {
                    return Err(error);
                },
            };
            if attempt >= GENERATION_ATTEMPTS || !same_generation(&self.species, &species) {
                proof {
                    lemma_same_start(
                        &before,
                        old(self),
                        fitnesses@,
                        perturbations@,
                        species@,
                        species_counter.id,
                    );
                }
                self.install(registry, species_counter, species);
                return Ok(attempt);
            }
            attempt = attempt + 1;
        }
    }

    /// Puts a next generation in the place of this one, rebuilds the cache
    /// and counts the generation.
    fn install(
        &mut self,
        registry: InnovationRegistry,
        species_counter: SpeciesCounter,
        species: Vec<Species>,
    )
        requires
            old(self).num_inputs >= 1,
            old(self).generation < u64::MAX,
            registry.wf(),
            specimens(species@).len() == old(self).population_size,
            forall|i: int| 0 <= i < species@.len() ==> (#[trigger] species@[i]).members@.len() >= 1,
            forall|i: int, k: int|
                0 <= i < species@.len() && 0 <= k < species@[i].members@.len() ==> fits(
                    #[trigger] species@[i].members@[k],
                    old(self).num_inputs,
                    old(self).num_outputs,
                ),
            ids_in_order(species@, species_counter.id),
        ensures
            final(self).wf(),
            final(self).innovator == registry,
            final(self).species_counter == species_counter,
            final(self).species == species,
            final(self).population_size == old(self).population_size,
            final(self).num_inputs == old(self).num_inputs,
            final(self).num_outputs == old(self).num_outputs,
            final(self).generation == old(self).generation + 1,
            final(self).index_cache@.len() == old(self).population_size,
            forall|g: int|
                0 <= g < final(self).specimens().len() ==> (#[trigger] final(self).specimens()[g])@.wf()
                    && !final(self).specimens()[g]@.genome.has_cycle(),
    {
        let index_cache = build_cache(&species);
        self.innovator = registry;
        self.species_counter = species_counter;
        self.species = species;
        self.index_cache = index_cache;
        self.generation = self.generation + 1;
        proof {
            lemma_cache_len(self.species@);
            lemma_as_map(cache_of(self.species@));
            assert forall|g: int| 0 <= g < self.specimens().len() implies (
            #[trigger] self.specimens()[g])@.wf() && !self.specimens()[g]@.genome.has_cycle() by {
                lemma_specimens_are_acyclic(self, g);
                lemma_specimen_origin(self.species@, g);
                let (i, k) = choose|i: int, k: int|
                    0 <= i < self.species@.len() && 0 <= k < self.species@[i].members@.len()
                        && self.specimens()[g] == #[trigger] self.species@[i].members@[k];
                assert(fits(self.species@[i].members@[k], self.num_inputs, self.num_outputs));
            }
        }
    }

    /// Draws a next generation and leaves the population as it is: the
    /// registry, the counter and the species that would replace those of the
    /// population.
    ///
    /// This is one pass of [`Population::evolve`], from the ranking of the
    /// members to the dropping of the species that stayed without members.
    pub fn draw_generation(&mut self, fitnesses: &Vec<u64>, perturbations: &Vec<i64>) -> (drawn:
        Result<(InnovationRegistry, SpeciesCounter, Vec<Species>), TyrosineError>)
        requires
            old(self).wf(),
            old(self).has_room(),
            fitnesses@.len() == old(self).population_size,
        ensures
            old(self).unchanged(final(self)),
            total_of(means_of(old(self).species@, fitnesses@), old(self).species@.len() as int) == 0
                ==> drawn == Err::<(InnovationRegistry, SpeciesCounter, Vec<Species>), TyrosineError>(
                TyrosineError::EmptyPopulation,
            ),
            certain(old(self).species@, fitnesses@, old(self).population_size) ==> drawn is Ok,
            match drawn {
                Ok((registry, counter, species)) => old(self).followed_by(
                    fitnesses@,
                    perturbations@,
                    registry,
                    counter,
                    species@,
                ),
                Err(error) => {
                    &&& error == TyrosineError::EmptyPopulation <==> total_of(
                        means_of(old(self).species@, fitnesses@),
                        old(self).species@.len() as int,
                    ) == 0
                    &&& error == TyrosineError::EmptyPopulation || error
                        == TyrosineError::InvalidTopology
                },
            },
    {
        let (rankings, means) = rank_members(&self.species, fitnesses);
        proof {
            assert forall|at: int| 0 <= at < self.species@.len() implies fitness_slice(
                self.species@,
                fitnesses@,
                at,
            ).len() == (#[trigger] self.species@[at]).members@.len() by {
                lemma_slice_len(self.species@, fitnesses@, at);
            }
        }
        proof {
            lemma_cache_len(self.species@);
            lemma_species_count(self.species@, self.species@.len() as int);
            lemma_shares_fit(means@, self.population_size);
            assert(certain(self.species@, fitnesses@, self.population_size) ==> total_of(
                means@,
                means@.len() as int,
            ) > 0) by {
                reveal(certain);
            }
        }
        let slots = match allot_slots(&means, self.population_size, &mut self.rng) {
            Ok(slots) => slots,
            Err(error) => {
                return Err(error);
            },
        };
        proof {
            assert(certain(self.species@, fitnesses@, self.population_size) ==> bare(self.species@)
                || forall|at: int| 0 <= at < slots@.len() ==> #[trigger] slots@[at] <= 1) by {
                reveal(certain);
            }
        }
        let mut registry = InnovationRegistry {
            innovator: GlobalInnovator { innov: self.innovator.innovator.innov },
            innovations: HashMap::new(),
        };
        assert(registry@.memo =~= Map::<(usize, usize), usize>::empty());
        assert(registry@ == self.innovator@.cleared());
        let (mut survivors, offspring) = match breed(
            &self.species,
            fitnesses,
            &rankings,
            &slots,
            self.num_inputs,
            self.num_outputs,
            &mut registry,
            &mut self.rng,
            perturbations,
        ) {
            Ok(bred) => bred,
            Err(error) => {
                return Err(error);
            },
        };
        let mut species_counter = SpeciesCounter { id: self.species_counter.id };
        let ghost before = survivors@;
        let ghost born = offspring@;
        proof {
            lemma_surviving(slots@, slots@.len() as int);
            assert(ids_in_order(before, self.species_counter.id)) by {
                let positions = surviving(slots@, slots@.len() as int);
                assert forall|s: int| 0 <= s < before.len() implies (#[trigger] before[s]).id
                    < self.species_counter.id by {
                    assert(continues(self.species@, fitnesses@, positions[s], before[s]));
                    assert(self.species@[positions[s]].id < self.species_counter.id);
                }
                assert forall|s: int, t: int| 0 <= s < t < before.len() implies (#[trigger] before[s]).id
                    != (#[trigger] before[t]).id by {
                    assert(continues(self.species@, fitnesses@, positions[s], before[s]));
                    assert(continues(self.species@, fitnesses@, positions[t], before[t]));
                    assert(positions[s] < positions[t]);
                    assert(self.species@[positions[s]].id != self.species@[positions[t]].id);
                }
            }
        }
        Species::sort_species(&mut survivors, offspring, &mut species_counter, &mut self.rng);
        let ghost sorted = survivors@;
        proof {
            lemma_vec_sizes(&survivors);
            lemma_settled(before, sorted, born, self.species_counter.id);
        }
        let species = drop_empty(survivors);
        proof {
            lemma_all_fit(species@, born, self.num_inputs, self.num_outputs);
            lemma_advanced(
                old(self).species@,
                fitnesses@,
                slots@,
                perturbations@,
                before,
                sorted,
                born,
                old(self).species_counter.id,
            );
            assert(species@ == inhabited(sorted));
            assert(allotted(
                means_of(old(self).species@, fitnesses@),
                old(self).population_size,
                slots@,
            ));
            assert(old(self).resettled(
                fitnesses@,
                slots@,
                before,
                sorted,
                species@,
                species_counter.id,
            ));
            assert(old(self).advanced_to(fitnesses@, perturbations@, species@, species_counter.id));
        }
        Ok((registry, species_counter, species))
    }

    /// The lengths of the lists of a population fit the machine.
    pub proof fn lemma_sizes(&self)
        ensures
            self.species@.len() <= usize::MAX,
            forall|i: int|
                0 <= i < self.species@.len() ==> (#[trigger] self.species@[i]).members@.len()
                    <= usize::MAX,
    {
        assert(self.species.len() <= usize::MAX);
        assert forall|i: int| 0 <= i < self.species@.len() implies (
        #[trigger] self.species@[i]).members@.len() <= usize::MAX by {
            assert(self.species@[i].members.len() <= usize::MAX);
        }
    }
}

/// How many specimens the species hold, if the number fits the machine.
pub fn count_specimens(species: &Vec<Species>) -> (count: Option<usize>)
    ensures
        match count {
            Some(count) => count == specimens(species@).len(),
            None => specimens(species@).len() > usize::MAX,
        },
{
    let mut count: usize = 0;
    let mut at: usize = 0;
    proof {
        lemma_cache_len(species@);
    }
    while at < species.len()
        invariant
            at <= species@.len(),
            count == offset_of(species@, at as int),
            specimens(species@).len() == offset_of(species@, species@.len() as int),
        decreases species@.len() - at,
    {
        let members = species[at].members.len();
        if members > usize::MAX - count {
            proof {
                lemma_offset_rises(species@, at + 1, species@.len() as int);
            }
            return None;
        }
        count = count + members;
        at = at + 1;
    }
    Some(count)
}

/// Whether `cache` says where each specimen of `species` is, and nothing
/// else.
pub fn cache_is_current(cache: &HashMap<usize, (usize, usize)>, species: &Vec<Species>) -> (current:
    bool)
    requires
        specimens(species@).len() <= usize::MAX,
    ensures
        current == (cache@ == as_map(cache_of(species@))),
{
    proof {
        lemma_cache_len(species@);
        lemma_as_map(cache_of(species@));
        lemma_vec_sizes(species);
    }
    let total = match count_specimens(species) {
        Some(total) => total,
        None => {
            return false;
        },
    };
    if cache.len() != total {
        return false;
    }
    let mut index: usize = 0;
    let mut at: usize = 0;
    while at < species.len()
        invariant
            at <= species@.len(),
            cache_of(species@).len() == total,
            specimens(species@).len() == offset_of(species@, species@.len() as int),
            specimens(species@).len() == total,
            index == offset_of(species@, at as int),
            forall|i: int| 0 <= i < species@.len() ==> (#[trigger] species@[i]).members@.len() <= usize::MAX,
            forall|g: usize|
                g < index ==> #[trigger] cache@.contains_key(g) && cache@[g] == cache_of(species@)[g as int],
        decreases species@.len() - at,
    {
        let members = species[at].members.len();
        proof {
            lemma_offset_rises(species@, at + 1, species@.len() as int);
        }
        let mut member: usize = 0;
        while member < members
            invariant
                at < species@.len(),
                members == species@[at as int].members@.len(),
                member <= members,
                cache_of(species@).len() == total,
                index == offset_of(species@, at as int),
                index + members <= total,
                species@.len() <= usize::MAX,
                forall|g: usize|
                    g < index + member ==> #[trigger] cache@.contains_key(g) && cache@[g] == cache_of(
                        species@,
                    )[g as int],
            decreases members - member,
        {
            proof {
                lemma_specimen_at(species@, at as int, member as int);
            }
            let wanted: usize = index + member;
            assert(as_map(cache_of(species@)).contains_key(wanted));
            assert(as_map(cache_of(species@))[wanted] == (at, member));
            match cache.get(&wanted) {
                Some(place) => {
                    if place.0 != at || place.1 != member {
                        assert(cache@[wanted] != (at, member));
                        return false;
                    }
                    assert(cache@.contains_key(wanted) && cache@[wanted] == (at, member));
                },
                None => {
                    assert(!cache@.contains_key(wanted));
                    return false;
                },
            }
            member = member + 1;
        }
        index = index + members;
        at = at + 1;
    }
    proof {
        lemma_is_as_map(cache@, cache_of(species@));
    }
    true
}

/// The cache for `species`: for the number of each specimen, the position
/// of its species and its position among the members.
pub fn build_cache(species: &Vec<Species>) -> (cache: HashMap<usize, (usize, usize)>)
    requires
        specimens(species@).len() <= usize::MAX,
    ensures
        cache@ == as_map(cache_of(species@)),
{
    let mut cache: HashMap<usize, (usize, usize)> = HashMap::new();
    let mut index: usize = 0;
    let ghost mut listed: Seq<(usize, usize)> = Seq::empty();
    let mut at: usize = 0;
    proof {
        lemma_cache_len(species@);
        assert(cache@ =~= as_map(listed));
    }
    while at < species.len()
        invariant
            at <= species@.len(),
            specimens(species@).len() <= usize::MAX,
            specimens(species@).len() == offset_of(species@, species@.len() as int),
            index == offset_of(species@, at as int),
            index == listed.len(),
            listed == cache_of(species@.subrange(0, at as int)),
            cache@ == as_map(listed),
        decreases species@.len() - at,
    {
        let ghost before = listed;
        let count = species[at].members.len();
        proof {
            lemma_offset_rises(species@, at + 1, species@.len() as int);
        }
        let mut member: usize = 0;
        while member < count
            invariant
                at < species@.len(),
                count == species@[at as int].members@.len(),
                member <= count,
                before.len() + count <= usize::MAX,
                index == before.len() + member,
                listed == before + Seq::new(member as nat, |k: int| (at, k as usize)),
                cache@ == as_map(listed),
            decreases count - member,
        {
            cache.insert(index, (at, member));
            proof {
                let longer = listed.push((at, member));
                assert(longer =~= before + Seq::new((member + 1) as nat, |k: int| (at, k as usize)));
                assert(cache@ =~= as_map(longer));
                listed = longer;
            }
            index = index + 1;
            member = member + 1;
        }
        proof {
            let upto = species@.subrange(0, at + 1);
            assert(upto.drop_last() =~= species@.subrange(0, at as int));
            assert(upto.last() == species@[at as int]);
            assert(Seq::new(count as nat, |k: int| (at, k as usize)) =~= Seq::new(
                upto.last().members@.len(),
                |k: int| ((upto.len() - 1) as usize, k as usize),
            ));
        }
        at = at + 1;
    }
    assert(species@.subrange(0, species@.len() as int) =~= species@);
    cache
}

/// Whether no genome of any species has a connection.
pub open spec fn bare(species: Seq<Species>) -> bool {
    forall|i: int| 0 <= i < species.len() ==> unconnected((#[trigger] species[i]).members@)
}

/// Whether the next generation is certain to come, whatever is drawn: the
/// mean fitnesses do not add to zero, and either no genome has a connection,
/// so that no child can have a cycle, or every allotment gives each species
/// one slot at most, so that nothing is bred but the elites.
#[verifier::opaque]
pub open spec fn certain(species: Seq<Species>, fitnesses: Seq<u64>, size: usize) -> bool {
    &&& total_of(means_of(species, fitnesses), species.len() as int) > 0
    &&& bare(species) || forall|slots: Seq<usize>| #[trigger]
        allotted(means_of(species, fitnesses), size, slots) ==> forall|at: int|
            0 <= at < slots.len() ==> #[trigger] slots[at] <= 1
}

/// Where no genome has a connection and the mean fitnesses do not add to
/// zero, the next generation is certain to come.
pub proof fn lemma_bare_is_certain(species: Seq<Species>, fitnesses: Seq<u64>, size: usize)
    requires
        bare(species),
        total_of(means_of(species, fitnesses), species.len() as int) > 0,
    ensures
        certain(species, fitnesses, size),
{
    reveal(certain);
}

/// A population of one specimen whose fitness is not zero is certain of its
/// next generation: the one slot goes to one species.
pub proof fn lemma_one_specimen_is_certain(species: Seq<Species>, fitnesses: Seq<u64>)
    requires
        total_of(means_of(species, fitnesses), species.len() as int) > 0,
    ensures
        certain(species, fitnesses, 1),
{
    reveal(certain);
    assert forall|slots: Seq<usize>| #[trigger]
        allotted(means_of(species, fitnesses), 1, slots) implies forall|at: int|
        0 <= at < slots.len() ==> #[trigger] slots[at] <= 1 by {
        assert forall|at: int| 0 <= at < slots.len() implies #[trigger] slots[at] <= 1 by {
            crate::selection::lemma_count_sum_part(slots, at, slots.len() as int);
        }
    }
}

/// The fitnesses of the members of species `at`, in order.
pub open spec fn fitness_slice(species: Seq<Species>, fitnesses: Seq<u64>, at: int) -> Seq<u64> {
    fitnesses.subrange(
        offset_of(species, at) as int,
        (offset_of(species, at) + species[at].members@.len()) as int,
    )
}

/// The mean fitness of every species, in parts of a score: as many parts
/// to the score as [`mean_scale`] gives for the number of fitnesses.
pub open spec fn means_of(species: Seq<Species>, fitnesses: Seq<u64>) -> Seq<u128> {
    Seq::new(
        species.len(),
        |at: int|
            mean_of(fitness_slice(species, fitnesses, at), mean_scale(fitnesses.len())) as u128,
    )
}

/// How many of `count` members are kept as parents: the better half, and at
/// least one.
pub open spec fn retained(count: nat) -> nat {
    if count / 2 < 1 {
        1
    } else {
        count / 2
    }
}

/// The members that `ranking` ranks highest: as many as are kept as
/// parents, the best first.
pub open spec fn ranked_parents(members: Seq<Phenotype>, ranking: Seq<usize>) -> Seq<PhenotypeView> {
    Seq::new(retained(members.len()), |r: int| members[ranking[r] as int]@)
}

/// The parents of species `at`: its better half by fitness, the best first.
pub open spec fn parents_of(species: Seq<Species>, fitnesses: Seq<u64>, at: int) -> Seq<PhenotypeView> {
    ranked_parents(species[at].members@, ranking_of(fitness_slice(species, fitnesses, at)))
}

/// The elite of species `at`: its fittest member, the earliest of several.
pub open spec fn elite_of(species: Seq<Species>, fitnesses: Seq<u64>, at: int) -> PhenotypeView {
    parents_of(species, fitnesses, at)[0]
}

/// Whether `child` can come from the species `at`: it is the elite of the
/// species, or it was bred from the parents of the species.
pub open spec fn born_to(
    species: Seq<Species>,
    fitnesses: Seq<u64>,
    at: int,
    child: PhenotypeView,
    table: Seq<i64>,
) -> bool {
    child == elite_of(species, fitnesses, at) || bred_from(
        parents_of(species, fitnesses, at),
        child.genome,
        table,
    )
}

/// Whether `child` can come from one of the species that received a slot.
pub open spec fn offspring_of(
    species: Seq<Species>,
    fitnesses: Seq<u64>,
    slots: Seq<usize>,
    child: PhenotypeView,
    table: Seq<i64>,
) -> bool {
    exists|at: int|
        0 <= at < species.len() && slots[at] > 0 && #[trigger] born_to(
            species,
            fitnesses,
            at,
            child,
            table,
        )
}

/// The positions, among the first `upto` species, of those that received a
/// slot.
pub open spec fn surviving(slots: Seq<usize>, upto: int) -> Seq<int>
    decreases upto,
{
    if upto <= 0 {
        Seq::empty()
    } else if slots[upto - 1] > 0 {
        surviving(slots, upto - 1).push(upto - 1)
    } else {
        surviving(slots, upto - 1)
    }
}

/// Whether `survivor` continues the species `at` into the next generation:
/// it has the id of the species, no member yet and no fitness, and the
/// genome of one of the parents as its type specimen.
pub open spec fn continues(
    species: Seq<Species>,
    fitnesses: Seq<u64>,
    at: int,
    survivor: Species,
) -> bool {
    &&& survivor.id == species[at].id
    &&& survivor.species_fitness is None
    &&& exists|r: int|
        0 <= r < parents_of(species, fitnesses, at).len() && survivor.type_specimen@ == (
        #[trigger] parents_of(species, fitnesses, at)[r]).genome
}

/// The fitnesses of the members of a species are as many as its members.
pub proof fn lemma_slice_len(species: Seq<Species>, fitnesses: Seq<u64>, at: int)
    requires
        0 <= at < species.len(),
        fitnesses.len() == specimens(species).len(),
    ensures
        fitness_slice(species, fitnesses, at).len() == species[at].members@.len(),
{
    lemma_cache_len(species);
    lemma_offset_rises(species, at + 1, species.len() as int);
}

/// The offset of a species is at most the offset of a later one.
pub proof fn lemma_offset_rises(species: Seq<Species>, at: int, later: int)
    requires
        0 <= at <= later,
    ensures
        offset_of(species, at) <= offset_of(species, later),
    decreases later - at,
{
    if at < later {
        lemma_offset_rises(species, at, later - 1);
    }
}

/// The positions of those that received a slot rise, and each names a
/// species that received one.
proof fn lemma_surviving(slots: Seq<usize>, upto: int)
    requires
        0 <= upto <= slots.len(),
    ensures
        surviving(slots, upto).len() <= upto,
        forall|s: int|
            0 <= s < surviving(slots, upto).len() ==> 0 <= (#[trigger] surviving(slots, upto)[s]) < upto
                && slots[surviving(slots, upto)[s]] > 0,
        forall|s: int, t: int|
            0 <= s < t < surviving(slots, upto).len() ==> (#[trigger] surviving(slots, upto)[s]) < (
            #[trigger] surviving(slots, upto)[t]),
        forall|at: int|
            0 <= at < upto && slots[at] > 0 ==> surviving(slots, upto).contains(at),
    decreases upto,
{
    if upto > 0 {
        lemma_surviving(slots, upto - 1);
        let before = surviving(slots, upto - 1);
        let now = surviving(slots, upto);
        assert forall|at: int| 0 <= at < upto && slots[at] > 0 implies now.contains(at) by {
            if at < upto - 1 {
                assert(before.contains(at));
                let s = choose|s: int| 0 <= s < before.len() && before[s] == at;
                assert(now[s] == at);
            } else {
                assert(now[now.len() - 1] == at);
            }
        }
    }
}

/// The mean fitness and the ranking of the members of every species.
pub fn rank_members(species: &Vec<Species>, fitnesses: &Vec<u64>) -> (scored: (
    Vec<Vec<usize>>,
    Vec<u128>,
))
    requires
        fitnesses@.len() == specimens(species@).len(),
    ensures
        scored.0@.len() == species@.len(),
        scored.1@ == means_of(species@, fitnesses@),
        forall|at: int|
            0 <= at < species@.len() ==> (#[trigger] scored.1@[at]) <= 0xffff_ffff_ffff_ffff
                * mean_scale(fitnesses@.len()),
        forall|at: int|
            0 <= at < species@.len() ==> (#[trigger] scored.0@[at])@ == ranking_of(
                fitness_slice(species@, fitnesses@, at),
            ) && ranked(fitness_slice(species@, fitnesses@, at), scored.0@[at]@),
{
    let mut rankings: Vec<Vec<usize>> = Vec::new();
    let mut means: Vec<u128> = Vec::new();
    let mut offset: usize = 0;
    let mut at: usize = 0;
    let scale: u128 = if fitnesses.len() == 0 {
        1
    } else {
        0x1_0000_0000_0000_0000u128 / (fitnesses.len() as u128)
    };
    proof {
        lemma_cache_len(species@);
        lemma_mean_scale(fitnesses@.len());
    }
    while at < species.len()
        invariant
            fitnesses@.len() == specimens(species@).len(),
            specimens(species@).len() == offset_of(species@, species@.len() as int),
            scale == mean_scale(fitnesses@.len()),
            fitnesses@.len() * scale <= 0x1_0000_0000_0000_0000,
            at <= species@.len(),
            offset == offset_of(species@, at as int),
            rankings@.len() == at,
            means@.len() == at,
            forall|k: int|
                0 <= k < at ==> #[trigger] means@[k] == mean_of(
                    fitness_slice(species@, fitnesses@, k),
                    scale as nat,
                ) as u128 && means@[k] <= 0xffff_ffff_ffff_ffff * scale,
            forall|k: int|
                0 <= k < at ==> (#[trigger] rankings@[k])@ == ranking_of(
                    fitness_slice(species@, fitnesses@, k),
                ) && ranked(fitness_slice(species@, fitnesses@, k), rankings@[k]@),
        decreases species@.len() - at,
    {
        let count = species[at].members.len();
        proof {
            lemma_offset_rises(species@, at + 1, species@.len() as int);
            assert(offset + count == offset_of(species@, at + 1));
            assert(fitnesses.len() <= usize::MAX);
        }
        let mut own: Vec<u64> = Vec::new();
        let mut k: usize = 0;
        while k < count
            invariant
                k <= count,
                offset + count <= fitnesses@.len() <= usize::MAX,
                own@ == fitnesses@.subrange(offset as int, offset + k),
            decreases count - k,
        {
            own.push(fitnesses[offset + k]);
            assert(own@ =~= fitnesses@.subrange(offset as int, offset + k + 1));
            k = k + 1;
        }
        assert(own@ == fitness_slice(species@, fitnesses@, at as int));
        assert(own@.len() * scale <= 0x1_0000_0000_0000_0000) by (nonlinear_arith)
            requires
                own@.len() <= fitnesses@.len(),
                scale >= 0,
                fitnesses@.len() * scale <= 0x1_0000_0000_0000_0000,
        ;
        rankings.push(rank_by_fitness(&own));
        means.push(mean_fitness(&own, scale));
        offset = offset + count;
        at = at + 1;
    }
    assert(means@ =~= means_of(species@, fitnesses@));
    (rankings, means)
}

/// The scale of the means, times the number of fitnesses, is at most two to
/// the sixty-fourth, and the scale is at least one for fewer fitnesses than
/// that.
pub proof fn lemma_mean_scale(count: nat)
    requires
        count <= usize::MAX,
    ensures
        count * mean_scale(count) <= 0x1_0000_0000_0000_0000,
        mean_scale(count) >= 1,
        0xffff_ffff_ffff_ffff * mean_scale(count) * count <= 0xffff_ffff_ffff_ffff
            * 0x1_0000_0000_0000_0000,
{
    if count > 0 {
        let whole = 0x1_0000_0000_0000_0000int;
        let size = count as int;
        vstd::arithmetic::div_mod::lemma_fundamental_div_mod(whole, size);
        vstd::arithmetic::div_mod::lemma_mod_bound(whole, size);
        let scale = whole / size;
        assert(mean_scale(count) == scale);
        assert(size * scale <= whole);
        assert(scale >= 1) by (nonlinear_arith)
            requires
                whole == size * scale + whole % size,
                whole % size < size,
                size <= 0xffff_ffff_ffff_ffff,
                size > 0,
                whole == 0x1_0000_0000_0000_0000,
        ;
        assert(0xffff_ffff_ffff_ffff * scale * size <= 0xffff_ffff_ffff_ffff * whole)
            by (nonlinear_arith)
            requires
                size * scale <= whole,
        ;
    } else {
        assert(0xffff_ffff_ffff_ffff * mean_scale(count) * count == 0) by (nonlinear_arith)
            requires
                count == 0,
        ;
    }
}

/// Species that each have a member are no more than their specimens.
pub proof fn lemma_species_count(species: Seq<Species>, upto: int)
    requires
        0 <= upto <= species.len(),
        forall|i: int| 0 <= i < species.len() ==> (#[trigger] species[i]).members@.len() >= 1,
    ensures
        upto <= offset_of(species, upto),
    decreases upto,
{
    if upto > 0 {
        lemma_species_count(species, upto - 1);
        assert(species[upto - 1].members@.len() >= 1);
    }
}

/// The shares can be taken in 128 bits from means that are each at most the
/// highest score in parts, if there are no more means than specimens.
pub proof fn lemma_shares_fit(means: Seq<u128>, size: usize)
    requires
        means.len() <= size,
        forall|i: int|
            0 <= i < means.len() ==> (#[trigger] means[i]) <= 0xffff_ffff_ffff_ffff * mean_scale(
                size as nat,
            ),
    ensures
        shares_fit(means, size),
{
    let bound = 0xffff_ffff_ffff_ffff * mean_scale(size as nat);
    lemma_mean_scale(size as nat);
    lemma_total_bound(means, bound, means.len() as int);
    assert(means.len() * bound <= size * bound) by (nonlinear_arith)
        requires
            means.len() <= size,
            bound >= 0,
    ;
    assert(size * bound == 0xffff_ffff_ffff_ffff * mean_scale(size as nat) * size)
        by (nonlinear_arith)
        requires
            bound == 0xffff_ffff_ffff_ffff * mean_scale(size as nat),
    ;
    assert forall|i: int| 0 <= i < means.len() implies (#[trigger] means[i]) * size <= u128::MAX by {
        assert(means[i] * size <= bound * size) by (nonlinear_arith)
            requires
                means[i] <= bound,
                size >= 0,
        ;
        assert(bound * size == size * bound) by (nonlinear_arith);
    }
}

/// Copies of the members that `ranking` ranks highest: as many as are kept
/// as parents, the best first.
pub fn select_parents(species: &Species, ranking: &Vec<usize>) -> (parents: Vec<Phenotype>)
    requires
        species.members@.len() >= 1,
        ranking@.len() == species.members@.len(),
        forall|r: int| 0 <= r < ranking@.len() ==> (#[trigger] ranking@[r]) < species.members@.len(),
    ensures
        views(parents@) == ranked_parents(species.members@, ranking@),
        parents@.len() >= 1,
{
    let half = species.members.len() / 2;
    let keep = if half < 1 {
        1
    } else {
        half
    };
    let mut parents: Vec<Phenotype> = Vec::new();
    let mut r: usize = 0;
    while r < keep
        invariant
            r <= keep <= species.members@.len(),
            ranking@.len() == species.members@.len(),
            forall|k: int| 0 <= k < ranking@.len() ==> (#[trigger] ranking@[k]) < species.members@.len(),
            parents@.len() == r,
            forall|k: int|
                0 <= k < r ==> (#[trigger] parents@[k])@ == species.members@[ranking@[k] as int]@,
        decreases keep - r,
    {
        parents.push(species.members[ranking[r]].clone());
        r = r + 1;
    }
    assert(views(parents@) =~= ranked_parents(species.members@, ranking@));
    parents
}

/// The species that have a member, in order: see [`inhabited`].
pub fn drop_empty(species: Vec<Species>) -> (kept: Vec<Species>)
    ensures
        kept@ == inhabited(species@),
{
    let mut kept = species;
    let mut at: usize = 0;
    while at < kept.len()
        invariant
            at <= kept@.len(),
            inhabited(kept@) == inhabited(species@),
            forall|k: int| 0 <= k < at ==> (#[trigger] kept@[k]).members@.len() > 0,
        decreases kept@.len() - at,
    {
        if kept[at].members.len() == 0 {
            proof {
                lemma_inhabited_remove(kept@, at as int);
            }
            kept.remove(at);
        } else {
            at = at + 1;
        }
    }
    proof {
        lemma_inhabited_all(kept@);
    }
    kept
}

/// Taking out a species without members changes nothing for the others.
proof fn lemma_inhabited_remove(species: Seq<Species>, at: int)
    requires
        0 <= at < species.len(),
        species[at].members@.len() == 0,
    ensures
        inhabited(species.remove(at)) == inhabited(species),
    decreases species.len(),
{
    if at == species.len() - 1 {
        assert(species.remove(at) =~= species.drop_last());
    } else {
        lemma_inhabited_remove(species.drop_last(), at);
        assert(species.remove(at).drop_last() =~= species.drop_last().remove(at));
        assert(species.remove(at).last() == species.last());
    }
}

/// Where every species has a member, all are kept.
proof fn lemma_inhabited_all(species: Seq<Species>)
    requires
        forall|k: int| 0 <= k < species.len() ==> (#[trigger] species[k]).members@.len() > 0,
    ensures
        inhabited(species) == species,
    decreases species.len(),
{
    if species.len() > 0 {
        assert forall|k: int| 0 <= k < species.drop_last().len() implies (
        #[trigger] species.drop_last()[k]).members@.len() > 0 by {
            assert(species[k].members@.len() > 0);
        }
        lemma_inhabited_all(species.drop_last());
        assert(species.drop_last().push(species.last()) =~= species);
    }
}

/// The number of members of every species.
pub open spec fn sizes(species: Seq<Species>) -> Seq<usize> {
    Seq::new(species.len(), |i: int| species[i].members@.len() as usize)
}

/// Which positions received a slot depends only on which slots are zero.
proof fn lemma_surviving_alike(first: Seq<usize>, second: Seq<usize>, upto: int)
    requires
        0 <= upto <= first.len(),
        upto <= second.len(),
        forall|i: int| 0 <= i < upto ==> (first[i] > 0) == (second[i] > 0),
    ensures
        surviving(first, upto) == surviving(second, upto),
    decreases upto,
{
    if upto > 0 {
        lemma_surviving_alike(first, second, upto - 1);
    }
}

/// The species that are kept hold the same specimens in the same order, and
/// they are the species at the positions of those that have a member.
pub proof fn lemma_inhabited(species: Seq<Species>)
    requires
        forall|i: int| 0 <= i < species.len() ==> (#[trigger] species[i]).members@.len() <= usize::MAX,
    ensures
        specimens(inhabited(species)) == specimens(species),
        inhabited(species).len() == surviving(sizes(species), species.len() as int).len(),
        forall|j: int|
            0 <= j < inhabited(species).len() ==> #[trigger] inhabited(species)[j]
                == species[surviving(sizes(species), species.len() as int)[j]],
    decreases species.len(),
{
    if species.len() > 0 {
        let shorter = species.drop_last();
        let count = species.len() as int;
        assert forall|i: int| 0 <= i < shorter.len() implies (#[trigger] shorter[i]).members@.len()
            <= usize::MAX by {
            assert(species[i].members@.len() <= usize::MAX);
        }
        lemma_inhabited(shorter);
        lemma_surviving_alike(sizes(species), sizes(shorter), count - 1);
        lemma_surviving(sizes(shorter), count - 1);
        let kept = inhabited(species);
        let positions = surviving(sizes(species), count);
        if species.last().members@.len() > 0 {
            assert(kept.drop_last() =~= inhabited(shorter));
            assert(positions == surviving(sizes(species), count - 1).push(count - 1));
        } else {
            assert(specimens(shorter) + species.last().members@ =~= specimens(shorter));
            assert(positions == surviving(sizes(species), count - 1));
        }
        assert forall|j: int| 0 <= j < kept.len() implies #[trigger] kept[j] == species[positions[j]] by {
            if j < inhabited(shorter).len() {
                assert(kept[j] == inhabited(shorter)[j]);
                assert(shorter[surviving(sizes(shorter), count - 1)[j]] == species[positions[j]]);
            }
        }
    }
}

/// Species without members hold no specimen.
proof fn lemma_no_specimens(species: Seq<Species>)
    requires
        forall|i: int| 0 <= i < species.len() ==> (#[trigger] species[i]).members@.len() == 0,
    ensures
        specimens(species) == Seq::<Phenotype>::empty(),
    decreases species.len(),
{
    if species.len() > 0 {
        assert forall|i: int| 0 <= i < species.drop_last().len() implies (
        #[trigger] species.drop_last()[i]).members@.len() == 0 by {
            assert(species[i].members@.len() == 0);
        }
        lemma_no_specimens(species.drop_last());
        assert(specimens(species) =~= Seq::<Phenotype>::empty());
    }
}

/// Every specimen is a member of a species.
pub proof fn lemma_specimen_origin(species: Seq<Species>, index: int)
    requires
        0 <= index < specimens(species).len(),
    ensures
        exists|i: int, k: int|
            0 <= i < species.len() && 0 <= k < species[i].members@.len() && specimens(species)[index]
                == #[trigger] species[i].members@[k],
    decreases species.len(),
{
    let before = specimens(species.drop_last()).len() as int;
    if index < before {
        lemma_specimen_origin(species.drop_last(), index);
        let (i, k) = choose|i: int, k: int|
            0 <= i < species.drop_last().len() && 0 <= k < species.drop_last()[i].members@.len()
                && specimens(species.drop_last())[index] == #[trigger] species.drop_last()[i].members@[k];
        assert(species[i].members@[k] == specimens(species)[index]);
    } else {
        assert(species[species.len() - 1].members@[index - before] == specimens(species)[index]);
    }
}

/// Every member of a species is a specimen.
pub proof fn lemma_member_is_specimen(species: Seq<Species>, at: int, member: int)
    requires
        0 <= at < species.len(),
        0 <= member < species[at].members@.len(),
    ensures
        specimens(species).contains(species[at].members@[member]),
    decreases species.len(),
{
    let before = specimens(species.drop_last());
    if at == species.len() - 1 {
        assert(specimens(species)[before.len() + member] == species[at].members@[member]);
    } else {
        lemma_member_is_specimen(species.drop_last(), at, member);
        let g = choose|g: int| 0 <= g < before.len() && before[g] == species[at].members@[member];
        assert(specimens(species)[g] == species[at].members@[member]);
    }
}

/// Once phenotypes were sorted into species, the ids are still different
/// from each other and below the counter.
proof fn lemma_clustered_ids(before: Seq<Species>, sorted: Seq<Species>, first_id: usize)
    requires
        ids_in_order(before, first_id),
        clustered(before, sorted, first_id),
        first_id + (sorted.len() - before.len()) <= usize::MAX,
    ensures
        ids_in_order(sorted, (first_id + (sorted.len() - before.len())) as usize),
{
    let bound = (first_id + (sorted.len() - before.len())) as usize;
    assert forall|i: int| 0 <= i < sorted.len() implies (#[trigger] sorted[i]).id < bound by {
        if i < before.len() {
            assert(before[i].id < first_id);
        }
    }
    assert forall|i: int, j: int| 0 <= i < j < sorted.len() implies (#[trigger] sorted[i]).id != (
    #[trigger] sorted[j]).id by {
        if j < before.len() {
            assert(before[i].id != before[j].id);
        } else if i < before.len() {
            assert(before[i].id < first_id);
        }
    }
}

/// Dropping the species without members keeps the ids different from each
/// other and below the bound.
proof fn lemma_inhabited_ids(sorted: Seq<Species>, bound: usize)
    requires
        ids_in_order(sorted, bound),
        forall|i: int| 0 <= i < sorted.len() ==> (#[trigger] sorted[i]).members@.len() <= usize::MAX,
    ensures
        ids_in_order(inhabited(sorted), bound),
        forall|j: int|
            0 <= j < inhabited(sorted).len() ==> (#[trigger] inhabited(sorted)[j]).members@.len() >= 1,
{
    lemma_inhabited(sorted);
    let count = sorted.len() as int;
    lemma_surviving(sizes(sorted), count);
    let kept = inhabited(sorted);
    let positions = surviving(sizes(sorted), count);
    assert forall|j: int| 0 <= j < kept.len() implies (#[trigger] kept[j]).id < bound && kept[j].members@.len()
        >= 1 by {
        assert(kept[j] == sorted[positions[j]]);
        assert(sizes(sorted)[positions[j]] > 0);
    }
    assert forall|j: int, m: int| 0 <= j < m < kept.len() implies (#[trigger] kept[j]).id != (
    #[trigger] kept[m]).id by {
        assert(kept[j] == sorted[positions[j]]);
        assert(kept[m] == sorted[positions[m]]);
        assert(positions[j] < positions[m]);
    }
}

/// What holds once phenotypes were sorted into species that had no member,
/// and the species that stayed empty were dropped.
///
/// The specimens are the phenotypes, in some order. Every species has a
/// member. The ids are different from each other and below the counter.
pub proof fn lemma_settled(
    before: Seq<Species>,
    sorted: Seq<Species>,
    offspring: Seq<Phenotype>,
    first_id: usize,
)
    requires
        forall|i: int| 0 <= i < before.len() ==> (#[trigger] before[i]).members@.len() == 0,
        forall|i: int| 0 <= i < sorted.len() ==> (#[trigger] sorted[i]).members@.len() <= usize::MAX,
        ids_in_order(before, first_id),
        clustered(before, sorted, first_id),
        first_id + (sorted.len() - before.len()) <= usize::MAX,
        specimens(sorted).to_multiset() == specimens(before).to_multiset().add(offspring.to_multiset()),
    ensures
        specimens(inhabited(sorted)).len() == offspring.len(),
        specimens(inhabited(sorted)).to_multiset() == offspring.to_multiset(),
        forall|j: int|
            0 <= j < inhabited(sorted).len() ==> (#[trigger] inhabited(sorted)[j]).members@.len() >= 1,
        ids_in_order(inhabited(sorted), (first_id + (sorted.len() - before.len())) as usize),
{
    lemma_inhabited(sorted);
    lemma_no_specimens(before);
    assert(specimens(before).to_multiset().add(offspring.to_multiset()) =~= offspring.to_multiset()) by {
        vstd::seq_lib::to_multiset_len(specimens(before));
        vstd::multiset::lemma_multiset_empty_len(specimens(before).to_multiset());
    }
    vstd::seq_lib::to_multiset_len(specimens(sorted));
    vstd::seq_lib::to_multiset_len(offspring);
    lemma_clustered_ids(before, sorted, first_id);
    lemma_inhabited_ids(sorted, (first_id + (sorted.len() - before.len())) as usize);
}

/// A species that is kept and has an id from before the sorting is one of
/// the species of before.
pub proof fn lemma_kept_origin(before: Seq<Species>, sorted: Seq<Species>, first_id: usize, kept_at: int)
    requires
        clustered(before, sorted, first_id),
        forall|i: int| 0 <= i < sorted.len() ==> (#[trigger] sorted[i]).members@.len() <= usize::MAX,
        0 <= kept_at < inhabited(sorted).len(),
        inhabited(sorted)[kept_at].id < first_id,
    ensures
        exists|i: int|
            0 <= i < before.len() && (#[trigger] before[i]).id == inhabited(sorted)[kept_at].id
                && before[i].type_specimen == inhabited(sorted)[kept_at].type_specimen
                && before[i].species_fitness == inhabited(sorted)[kept_at].species_fitness,
{
    lemma_inhabited(sorted);
    let count = sorted.len() as int;
    lemma_surviving(sizes(sorted), count);
    let at = surviving(sizes(sorted), count)[kept_at];
    assert(inhabited(sorted)[kept_at] == sorted[at]);
    if at >= before.len() {
        assert(sorted[at].id == first_id + (at - before.len()));
    } else {
        assert(sorted[at].id == before[at].id);
    }
}

/// Every specimen of a population is acyclic: its order is a topological
/// order of its genome, and its enabled connections form no cycle.
pub proof fn lemma_specimens_are_acyclic(population: &Population, index: int)
    requires
        population.wf(),
        0 <= index < population.specimens().len(),
    ensures
        population.specimens()[index]@.genome.sorted_by(population.specimens()[index]@.order),
        !population.specimens()[index]@.genome.has_cycle(),
{
    lemma_specimen_origin(population.species@, index);
    let (i, k) = choose|i: int, k: int|
        0 <= i < population.species@.len() && 0 <= k < population.species@[i].members@.len()
            && population.specimens()[index] == #[trigger] population.species@[i].members@[k];
    assert(fits(population.species@[i].members@[k], population.num_inputs, population.num_outputs));
    crate::phenotype::lemma_sorted_has_no_cycle(
        population.specimens()[index]@.genome,
        population.specimens()[index]@.order,
    );
}

/// The size of a population is conserved: the members of all species are as
/// many as the population size, and no species is without a member.
pub proof fn lemma_size_is_conserved(population: &Population)
    requires
        population.wf(),
    ensures
        offset_of(population.species@, population.species@.len() as int) == population.population_size,
        forall|i: int|
            0 <= i < population.species@.len() ==> (#[trigger] population.species@[i]).members@.len()
                >= 1,
{
    lemma_cache_len(population.species@);
}

/// Elitism: where a species of one generation is still there in the next,
/// its fittest member is among the specimens of the next generation,
/// unchanged.
pub proof fn lemma_elite_survives(
    before: &Population,
    fitnesses: Seq<u64>,
    table: Seq<i64>,
    after: &Population,
    at: int,
    still: int,
)
    requires
        before.advanced(fitnesses, table, after),
        0 <= at < before.species@.len(),
        0 <= still < after.species@.len(),
        after.species@[still].id == before.species@[at].id,
    ensures
        exists|g: int|
            0 <= g < after.specimens().len() && (#[trigger] after.specimens()[g])@ == elite_of(
                before.species@,
                fitnesses,
                at,
            ),
{
    let (slots, survivors, sorted) = choose|
        slots: Seq<usize>,
        survivors: Seq<Species>,
        sorted: Seq<Species>,
    |
        {
            &&& allotted(means_of(before.species@, fitnesses), before.population_size, slots)
            &&& #[trigger] before.resettled(
                fitnesses,
                slots,
                survivors,
                sorted,
                after.species@,
                after.species_counter.id,
            )
            &&& forall|g: int|
                0 <= g < after.specimens().len() ==> offspring_of(
                    before.species@,
                    fitnesses,
                    slots,
                    (#[trigger] after.specimens()[g])@,
                    table,
                )
            &&& forall|at: int|
                0 <= at < before.species@.len() && #[trigger] slots[at] > 0 ==> exists|g: int|
                    0 <= g < after.specimens().len() && (#[trigger] after.specimens()[g])@
                        == elite_of(before.species@, fitnesses, at)
            &&& forall|at: int, j: int|
                0 <= at < before.species@.len() && 0 <= j < after.species@.len() && (
                #[trigger] after.species@[j]).id == (#[trigger] before.species@[at]).id ==> slots[at]
                    > 0 && continues(before.species@, fitnesses, at, after.species@[j])
        };
    assert(slots[at] > 0);
}

/// The elite of a species is its fittest member: no member is fitter.
pub proof fn lemma_elite_is_fittest(species: Seq<Species>, fitnesses: Seq<u64>, at: int, member: int)
    requires
        0 <= at < species.len(),
        fitnesses.len() == specimens(species).len(),
        1 <= species[at].members@.len() <= usize::MAX,
        0 <= member < species[at].members@.len(),
    ensures
        ranking_of(fitness_slice(species, fitnesses, at))[0] < species[at].members@.len(),
        elite_of(species, fitnesses, at) == species[at].members@[ranking_of(
            fitness_slice(species, fitnesses, at),
        )[0] as int]@,
        fitness_slice(species, fitnesses, at)[member] <= fitness_slice(
            species,
            fitnesses,
            at,
        )[ranking_of(fitness_slice(species, fitnesses, at))[0] as int],
{
    let own = fitness_slice(species, fitnesses, at);
    lemma_slice_len(species, fitnesses, at);
    crate::selection::lemma_ranking_exists(own);
    let ranking = ranking_of(own);
    crate::selection::lemma_ranked_covers(own, ranking);
    assert(ranking.contains(member as usize));
    let place = choose|place: int| 0 <= place < ranking.len() && ranking[place] == member as usize;
    if place > 0 {
        assert(crate::selection::outranks(own, ranking[0] as int, ranking[place] as int));
    }
}

/// What is a next generation of one population is a next generation of
/// every population that holds the same.
pub proof fn lemma_same_start(
    first: &Population,
    second: &Population,
    fitnesses: Seq<u64>,
    table: Seq<i64>,
    species: Seq<Species>,
    counter: usize,
)
    requires
        second.unchanged(first),
        first.advanced_to(fitnesses, table, species, counter),
    ensures
        second.advanced_to(fitnesses, table, species, counter),
{
    let (slots, survivors, sorted) = choose|
        slots: Seq<usize>,
        survivors: Seq<Species>,
        sorted: Seq<Species>,
    |
        {
            &&& allotted(means_of(first.species@, fitnesses), first.population_size, slots)
            &&& #[trigger] first.resettled(fitnesses, slots, survivors, sorted, species, counter)
            &&& forall|g: int|
                0 <= g < specimens(species).len() ==> offspring_of(
                    first.species@,
                    fitnesses,
                    slots,
                    (#[trigger] specimens(species)[g])@,
                    table,
                )
            &&& forall|at: int|
                0 <= at < first.species@.len() && #[trigger] slots[at] > 0 ==> exists|g: int|
                    0 <= g < specimens(species).len() && (#[trigger] specimens(species)[g])@
                        == elite_of(first.species@, fitnesses, at)
            &&& forall|at: int, j: int|
                0 <= at < first.species@.len() && 0 <= j < species.len() && (#[trigger] species[j]).id
                    == (#[trigger] first.species@[at]).id ==> slots[at] > 0 && continues(
                    first.species@,
                    fitnesses,
                    at,
                    species[j],
                )
        };
    assert(second.resettled(fitnesses, slots, survivors, sorted, species, counter));
}

/// The lists of species and of their members fit the machine.
pub proof fn lemma_vec_sizes(species: &Vec<Species>)
    ensures
        species@.len() <= usize::MAX,
        forall|i: int| 0 <= i < species@.len() ==> (#[trigger] species@[i]).members@.len() <= usize::MAX,
{
    assert(species.len() <= usize::MAX);
    assert forall|i: int| 0 <= i < species@.len() implies (#[trigger] species@[i]).members@.len()
        <= usize::MAX by {
        assert(species@[i].members.len() <= usize::MAX);
    }
}

/// What holds of every phenotype of a list holds of every phenotype of a
/// list with the same phenotypes in another order.
pub proof fn lemma_same_specimens(
    first: Seq<Phenotype>,
    second: Seq<Phenotype>,
    holds: spec_fn(Phenotype) -> bool,
)
    requires
        first.to_multiset() == second.to_multiset(),
        forall|g: int| 0 <= g < second.len() ==> holds(#[trigger] second[g]),
    ensures
        forall|g: int| 0 <= g < first.len() ==> holds(#[trigger] first[g]),
{
    assert forall|g: int| 0 <= g < first.len() implies holds(#[trigger] first[g]) by {
        let member = first[g];
        assert(first.contains(member));
        vstd::seq_lib::to_multiset_contains(first, member);
        vstd::seq_lib::to_multiset_contains(second, member);
        let h = choose|h: int| 0 <= h < second.len() && second[h] == member;
        assert(holds(second[h]));
    }
}

/// Where the specimens of some species are, up to their order, phenotypes
/// that all fit, every member of every species fits.
pub proof fn lemma_all_fit(
    species: Seq<Species>,
    offspring: Seq<Phenotype>,
    num_inputs: usize,
    num_outputs: usize,
)
    requires
        specimens(species).to_multiset() == offspring.to_multiset(),
        forall|g: int| 0 <= g < offspring.len() ==> fits(#[trigger] offspring[g], num_inputs, num_outputs),
    ensures
        forall|i: int, k: int|
            0 <= i < species.len() && 0 <= k < species[i].members@.len() ==> fits(
                #[trigger] species[i].members@[k],
                num_inputs,
                num_outputs,
            ),
{
    assert forall|i: int, k: int|
        0 <= i < species.len() && 0 <= k < species[i].members@.len() implies fits(
        #[trigger] species[i].members@[k],
        num_inputs,
        num_outputs,
    ) by {
        let member = species[i].members@[k];
        lemma_member_is_specimen(species, i, k);
        vstd::seq_lib::to_multiset_contains(specimens(species), member);
        vstd::seq_lib::to_multiset_contains(offspring, member);
        let g = choose|g: int| 0 <= g < offspring.len() && offspring[g] == member;
        assert(fits(offspring[g], num_inputs, num_outputs));
    }
}

/// What breeding hands to the sorting, and what the sorting and the
/// dropping of empty species make of it, is a next generation.
pub proof fn lemma_advanced(
    species: Seq<Species>,
    fitnesses: Seq<u64>,
    slots: Seq<usize>,
    table: Seq<i64>,
    survivors: Seq<Species>,
    sorted: Seq<Species>,
    offspring: Seq<Phenotype>,
    first_id: usize,
)
    requires
        slots.len() == species.len(),
        ids_in_order(species, first_id),
        survivors.len() == surviving(slots, slots.len() as int).len(),
        forall|s: int|
            0 <= s < survivors.len() ==> continues(
                species,
                fitnesses,
                surviving(slots, slots.len() as int)[s],
                #[trigger] survivors[s],
            ),
        forall|g: int|
            0 <= g < offspring.len() ==> offspring_of(
                species,
                fitnesses,
                slots,
                (#[trigger] offspring[g])@,
                table,
            ),
        forall|at: int|
            0 <= at < species.len() && #[trigger] slots[at] > 0 ==> exists|g: int|
                0 <= g < offspring.len() && (#[trigger] offspring[g])@ == elite_of(
                    species,
                    fitnesses,
                    at,
                ),
        clustered(survivors, sorted, first_id),
        forall|i: int| 0 <= i < sorted.len() ==> (#[trigger] sorted[i]).members@.len() <= usize::MAX,
        specimens(inhabited(sorted)).to_multiset() == offspring.to_multiset(),
    ensures
        forall|g: int|
            0 <= g < specimens(inhabited(sorted)).len() ==> offspring_of(
                species,
                fitnesses,
                slots,
                (#[trigger] specimens(inhabited(sorted))[g])@,
                table,
            ),
        forall|at: int|
            0 <= at < species.len() && #[trigger] slots[at] > 0 ==> exists|g: int|
                0 <= g < specimens(inhabited(sorted)).len() && (#[trigger] specimens(
                    inhabited(sorted),
                )[g])@ == elite_of(species, fitnesses, at),
        forall|at: int, j: int|
            0 <= at < species.len() && 0 <= j < inhabited(sorted).len() && (#[trigger] inhabited(
                sorted,
            )[j]).id == (#[trigger] species[at]).id ==> slots[at] > 0 && continues(
                species,
                fitnesses,
                at,
                inhabited(sorted)[j],
            ),
{
    let kept = inhabited(sorted);
    let final_specimens = specimens(kept);
    assert forall|g: int| 0 <= g < final_specimens.len() implies offspring_of(
        species,
        fitnesses,
        slots,
        (#[trigger] final_specimens[g])@,
        table,
    ) by {
        let member = final_specimens[g];
        assert(final_specimens.contains(member));
        vstd::seq_lib::to_multiset_contains(final_specimens, member);
        vstd::seq_lib::to_multiset_contains(offspring, member);
        let h = choose|h: int| 0 <= h < offspring.len() && offspring[h] == member;
        assert(offspring_of(species, fitnesses, slots, offspring[h]@, table));
    }
    assert forall|at: int| 0 <= at < species.len() && #[trigger] slots[at] > 0 implies exists|g: int|
        0 <= g < final_specimens.len() && (#[trigger] final_specimens[g])@ == elite_of(
            species,
            fitnesses,
            at,
        ) by {
        let h = choose|h: int|
            0 <= h < offspring.len() && (#[trigger] offspring[h])@ == elite_of(species, fitnesses, at);
        let member = offspring[h];
        assert(offspring.contains(member));
        vstd::seq_lib::to_multiset_contains(offspring, member);
        vstd::seq_lib::to_multiset_contains(final_specimens, member);
        let g = choose|g: int| 0 <= g < final_specimens.len() && final_specimens[g] == member;
        assert(final_specimens[g]@ == elite_of(species, fitnesses, at));
    }
    lemma_surviving(slots, slots.len() as int);
    let positions = surviving(slots, slots.len() as int);
    assert forall|at: int, j: int|
        0 <= at < species.len() && 0 <= j < kept.len() && (#[trigger] kept[j]).id == (
        #[trigger] species[at]).id implies slots[at] > 0 && continues(
        species,
        fitnesses,
        at,
        kept[j],
    ) by {
        assert(species[at].id < first_id);
        lemma_kept_origin(survivors, sorted, first_id, j);
        let s = choose|s: int|
            0 <= s < survivors.len() && (#[trigger] survivors[s]).id == kept[j].id
                && survivors[s].type_specimen == kept[j].type_specimen && survivors[s].species_fitness
                == kept[j].species_fitness;
        assert(continues(species, fitnesses, positions[s], survivors[s]));
        if positions[s] != at {
            if positions[s] < at {
                assert(species[positions[s]].id != species[at].id);
            } else {
                assert(species[at].id != species[positions[s]].id);
            }
        }
    }
}

/// Breeds the offspring of every species that received a slot.
///
/// Each such species keeps the better half of its members as parents, draws
/// its type specimen anew from them, and fills its slots with
/// [`Species::populate`]. The result holds, for each of these species, a
/// species without members that continues it, and the offspring of all of
/// them, species after species. Where no species has more than one slot,
/// nothing is bred but the elites, and the whole always succeeds; so it
/// does where no genome has a connection.
pub fn breed(
    species: &Vec<Species>,
    fitnesses: &Vec<u64>,
    rankings: &Vec<Vec<usize>>,
    slots: &Vec<usize>,
    num_inputs: usize,
    num_outputs: usize,
    registry: &mut InnovationRegistry,
    rng: &mut ThreadRng,
    perturbations: &Vec<i64>,
) -> (bred: Result<(Vec<Species>, Vec<Phenotype>), TyrosineError>)
    requires
        old(registry).wf(),
        rankings@.len() == species@.len(),
        slots@.len() == species@.len(),
        count_sum(slots@, slots@.len() as int) <= usize::MAX,
        forall|at: int|
            0 <= at < species@.len() ==> (#[trigger] rankings@[at])@ == ranking_of(
                fitness_slice(species@, fitnesses@, at),
            ) && ranked(fitness_slice(species@, fitnesses@, at), rankings@[at]@),
        forall|at: int|
            0 <= at < species@.len() ==> fitness_slice(species@, fitnesses@, at).len() == (
            #[trigger] species@[at]).members@.len(),
        forall|i: int| 0 <= i < species@.len() ==> (#[trigger] species@[i]).members@.len() >= 1,
        forall|i: int, k: int|
            0 <= i < species@.len() && 0 <= k < species@[i].members@.len() ==> fits(
                #[trigger] species@[i].members@[k],
                num_inputs,
                num_outputs,
            ),
    ensures
        final(registry).wf(),
        final(registry)@.extends(old(registry)@),
        match bred {
            Ok((survivors, offspring)) => {
                &&& survivors@.len() == surviving(slots@, slots@.len() as int).len()
                &&& forall|s: int|
                    0 <= s < survivors@.len() ==> continues(
                        species@,
                        fitnesses@,
                        surviving(slots@, slots@.len() as int)[s],
                        #[trigger] survivors@[s],
                    ) && survivors@[s].members@.len() == 0
                &&& offspring@.len() == count_sum(slots@, slots@.len() as int)
                &&& forall|g: int|
                    0 <= g < offspring@.len() ==> fits(
                        #[trigger] offspring@[g],
                        num_inputs,
                        num_outputs,
                    ) && offspring_of(species@, fitnesses@, slots@, offspring@[g]@, perturbations@)
                &&& forall|at: int|
                    0 <= at < species@.len() && #[trigger] slots@[at] > 0 ==> exists|g: int|
                        0 <= g < offspring@.len() && (#[trigger] offspring@[g])@ == elite_of(
                            species@,
                            fitnesses@,
                            at,
                        )
            },
            Err(error) => error == TyrosineError::InvalidTopology,
        },
        (forall|at: int| 0 <= at < slots@.len() ==> #[trigger] slots@[at] <= 1) || bare(species@)
            ==> bred is Ok,
{
    let mut survivors: Vec<Species> = Vec::new();
    let mut offspring: Vec<Phenotype> = Vec::new();
    let mut at: usize = 0;
    while at < species.len()
        invariant
            registry.wf(),
            registry@.extends(old(registry)@),
            rankings@.len() == species@.len(),
            slots@.len() == species@.len(),
            count_sum(slots@, slots@.len() as int) <= usize::MAX,
            forall|i: int|
                0 <= i < species@.len() ==> (#[trigger] rankings@[i])@ == ranking_of(
                    fitness_slice(species@, fitnesses@, i),
                ) && ranked(fitness_slice(species@, fitnesses@, i), rankings@[i]@),
            forall|i: int|
                0 <= i < species@.len() ==> fitness_slice(species@, fitnesses@, i).len() == (
                #[trigger] species@[i]).members@.len(),
            forall|i: int| 0 <= i < species@.len() ==> (#[trigger] species@[i]).members@.len() >= 1,
            forall|i: int, k: int|
                0 <= i < species@.len() && 0 <= k < species@[i].members@.len() ==> fits(
                    #[trigger] species@[i].members@[k],
                    num_inputs,
                    num_outputs,
                ),
            at <= species@.len(),
            survivors@.len() == surviving(slots@, at as int).len(),
            forall|s: int|
                0 <= s < survivors@.len() ==> continues(
                    species@,
                    fitnesses@,
                    surviving(slots@, at as int)[s],
                    #[trigger] survivors@[s],
                ) && survivors@[s].members@.len() == 0,
            offspring@.len() == count_sum(slots@, at as int),
            forall|g: int|
                0 <= g < offspring@.len() ==> fits(#[trigger] offspring@[g], num_inputs, num_outputs)
                    && offspring_of(species@, fitnesses@, slots@, offspring@[g]@, perturbations@),
            forall|i: int|
                0 <= i < at && #[trigger] slots@[i] > 0 ==> exists|g: int|
                    0 <= g < offspring@.len() && (#[trigger] offspring@[g])@ == elite_of(
                        species@,
                        fitnesses@,
                        i,
                    ),
        decreases species@.len() - at,
    {
        proof {
            crate::selection::lemma_count_sum_rises(slots@, at + 1, slots@.len() as int);
        }
        if slots[at] > 0 {
            let parents = select_parents(&species[at], &rankings[at]);
            let mut breeding = Species {
                type_specimen: species[at].type_specimen.clone(),
                members: parents,
                id: species[at].id,
                species_fitness: None,
            };
            let ghost chosen_from = breeding.members@;
            breeding.choose_type_specimen(rng);
            proof {
                assert(views(breeding.members@) == parents_of(species@, fitnesses@, at as int));
                lemma_parents_fit(
                    species@[at as int],
                    rankings@[at as int]@,
                    breeding.members@,
                    num_inputs,
                    num_outputs,
                );
                if bare(species@) {
                    lemma_parents_unconnected(
                        species@[at as int],
                        rankings@[at as int]@,
                        breeding.members@,
                    );
                }
            }
            let mut children = match breeding.populate(slots[at], registry, rng, perturbations) {
                Ok(children) => children,
                Err(error) => {
                    return Err(error);
                },
            };
            let ghost before = offspring@;
            let ghost added = children@;
            proof {
                assert(views(breeding.members@)[0] == breeding.members@[0]@);
                assert(added[0]@ == elite_of(species@, fitnesses@, at as int));
                assert forall|k: int| 0 <= k < added.len() implies fits(
                    #[trigger] added[k],
                    num_inputs,
                    num_outputs,
                ) && offspring_of(species@, fitnesses@, slots@, added[k]@, perturbations@) by {
                    assert(born_to(species@, fitnesses@, at as int, added[k]@, perturbations@));
                }
                let k = choose|k: int|
                    0 <= k < breeding.members@.len() && breeding.type_specimen@ == (
                    #[trigger] breeding.members@[k])@.genome;
                assert(views(breeding.members@)[k] == breeding.members@[k]@);
            }
            offspring.append(&mut children);
            breeding.members = Vec::new();
            survivors.push(breeding);
            proof {
                assert forall|i: int| 0 <= i < at + 1 && #[trigger] slots@[i] > 0 implies exists|g: int|
                    0 <= g < offspring@.len() && (#[trigger] offspring@[g])@ == elite_of(
                        species@,
                        fitnesses@,
                        i,
                    ) by {
                    if i < at {
                        let g = choose|g: int|
                            0 <= g < before.len() && (#[trigger] before[g])@ == elite_of(
                                species@,
                                fitnesses@,
                                i,
                            );
                        assert(offspring@[g] == before[g]);
                    } else {
                        assert(offspring@[before.len() as int] == added[0]);
                    }
                }
                assert forall|g: int| 0 <= g < offspring@.len() implies fits(
                    #[trigger] offspring@[g],
                    num_inputs,
                    num_outputs,
                ) && offspring_of(species@, fitnesses@, slots@, offspring@[g]@, perturbations@) by {
                    if g < before.len() {
                        assert(offspring@[g] == before[g]);
                    } else {
                        assert(offspring@[g] == added[g - before.len()]);
                    }
                }
            }
        }
        at = at + 1;
    }
    assert(at == slots@.len());
    assert(survivors@.len() == surviving(slots@, slots@.len() as int).len());
    assert(offspring@.len() == count_sum(slots@, slots@.len() as int));
    assert(forall|s: int|
        0 <= s < survivors@.len() ==> continues(
            species@,
            fitnesses@,
            surviving(slots@, slots@.len() as int)[s],
            #[trigger] survivors@[s],
        ) && survivors@[s].members@.len() == 0);
    assert(forall|g: int|
        0 <= g < offspring@.len() ==> fits(#[trigger] offspring@[g], num_inputs, num_outputs)
            && offspring_of(species@, fitnesses@, slots@, offspring@[g]@, perturbations@));
    assert(forall|at: int|
        0 <= at < species@.len() && #[trigger] slots@[at] > 0 ==> exists|g: int|
            0 <= g < offspring@.len() && (#[trigger] offspring@[g])@ == elite_of(
                species@,
                fitnesses@,
                at,
            ));
    Ok((survivors, offspring))
}

/// Copies of members without connections have no connections.
proof fn lemma_parents_unconnected(species: Species, ranking: Seq<usize>, parents: Seq<Phenotype>)
    requires
        species.members@.len() >= 1,
        views(parents) == ranked_parents(species.members@, ranking),
        ranking.len() == species.members@.len(),
        forall|r: int| 0 <= r < ranking.len() ==> (#[trigger] ranking[r]) < species.members@.len(),
        unconnected(species.members@),
    ensures
        unconnected(parents),
{
    assert(views(parents).len() == parents.len());
    assert(retained(species.members@.len()) <= species.members@.len());
    assert forall|k: int| 0 <= k < parents.len() implies (
    #[trigger] parents[k])@.genome.connections.len() == 0 by {
        assert(views(parents)[k] == parents[k]@);
        assert(ranked_parents(species.members@, ranking)[k] == species.members@[ranking[k] as int]@);
    }
}

/// Copies of members that fit have the node counts of the population, so
/// the parents are uniform and the first of them has those counts.
proof fn lemma_parents_fit(
    species: Species,
    ranking: Seq<usize>,
    parents: Seq<Phenotype>,
    num_inputs: usize,
    num_outputs: usize,
)
    requires
        parents.len() >= 1,
        species.members@.len() >= 1,
        views(parents) == ranked_parents(species.members@, ranking),
        ranking.len() == species.members@.len(),
        forall|r: int| 0 <= r < ranking.len() ==> (#[trigger] ranking[r]) < species.members@.len(),
        forall|k: int|
            0 <= k < species.members@.len() ==> fits(
                #[trigger] species.members@[k],
                num_inputs,
                num_outputs,
            ),
    ensures
        uniform(parents),
        forall|k: int| 0 <= k < parents.len() ==> (#[trigger] parents[k]).wf(),
        parents[0].genome.num_inputs == num_inputs,
        parents[0].genome.num_outputs == num_outputs,
{
    assert(views(parents).len() == parents.len());
    assert(retained(species.members@.len()) <= species.members@.len());
    assert forall|k: int| 0 <= k < parents.len() implies (#[trigger] parents[k]).wf()
        && parents[k].genome.num_inputs == num_inputs && parents[k].genome.num_outputs
        == num_outputs by {
        assert(views(parents)[k] == parents[k]@);
        assert(ranked_parents(species.members@, ranking)[k] == species.members@[ranking[k] as int]@);
        assert(fits(species.members@[ranking[k] as int], num_inputs, num_outputs));
    }
}

} // verus!
