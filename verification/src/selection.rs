//! Ranking by fitness and the allotment of reproductive slots.
//!
//! A fitness is a non-negative integer score. Within a species the members
//! are ranked by fitness, the best first. Each species then receives slots
//! in the next generation in proportion to its mean fitness.

use crate::errors::TyrosineError;
use crate::phenotype::lemma_distinct_nodes;
use crate::random::shuffle;
use rand::rngs::ThreadRng;
use vstd::arithmetic::div_mod::{lemma_fundamental_div_mod, lemma_div_pos_is_pos};
use vstd::prelude::*;

verus! {

/// Whether member `first` ranks above member `second`: it is fitter, or as
/// fit and earlier.
pub open spec fn outranks(fitnesses: Seq<u64>, first: int, second: int) -> bool {
    fitnesses[first] > fitnesses[second] || (fitnesses[first] == fitnesses[second] && first < second)
}

/// Whether `ranking` lists the positions of `fitnesses` by rank, the best
/// first.
pub open spec fn ranked(fitnesses: Seq<u64>, ranking: Seq<usize>) -> bool {
    &&& ranking.len() == fitnesses.len()
    &&& forall|a: int| 0 <= a < ranking.len() ==> (#[trigger] ranking[a]) < fitnesses.len()
    &&& forall|a: int, b: int|
        0 <= a < b < ranking.len() ==> outranks(
            fitnesses,
            (#[trigger] ranking[a]) as int,
            (#[trigger] ranking[b]) as int,
        )
}

/// The positions of `fitnesses` by rank, the best first.
pub open spec fn ranking_of(fitnesses: Seq<u64>) -> Seq<usize> {
    choose|ranking: Seq<usize>| ranked(fitnesses, ranking)
}

/// A ranking holds no position twice, and holds every position.
pub proof fn lemma_ranked_covers(fitnesses: Seq<u64>, ranking: Seq<usize>)
    requires
        ranked(fitnesses, ranking),
        fitnesses.len() <= usize::MAX,
    ensures
        ranking.no_duplicates(),
        forall|position: usize| position < fitnesses.len() ==> ranking.contains(position),
{
    assert forall|a: int, b: int| 0 <= a < ranking.len() && 0 <= b < ranking.len() && a != b implies ranking[a]
        != ranking[b] by {
        if a < b {
            assert(outranks(fitnesses, ranking[a] as int, ranking[b] as int));
        } else {
            assert(outranks(fitnesses, ranking[b] as int, ranking[a] as int));
        }
    }
    lemma_distinct_nodes(ranking, fitnesses.len());
}

/// There is one ranking only: two rankings of the same fitnesses agree up to
/// every position.
proof fn lemma_ranked_agree(fitnesses: Seq<u64>, first: Seq<usize>, second: Seq<usize>, upto: int)
    requires
        ranked(fitnesses, first),
        ranked(fitnesses, second),
        fitnesses.len() <= usize::MAX,
        0 <= upto <= fitnesses.len(),
    ensures
        forall|a: int| 0 <= a < upto ==> first[a] == second[a],
    decreases upto,
{
    if upto > 0 {
        lemma_ranked_agree(fitnesses, first, second, upto - 1);
        lemma_ranked_covers(fitnesses, first);
        lemma_ranked_covers(fitnesses, second);
        let at = upto - 1;
        if first[at] != second[at] {
            assert(second.contains(first[at]));
            let p = choose|p: int| 0 <= p < second.len() && second[p] == first[at];
            assert(first.contains(second[at]));
            let q = choose|q: int| 0 <= q < first.len() && first[q] == second[at];
            if p < at {
                assert(first[p] == second[p]);
                assert(first[p] == first[at]);
            }
            if q < at {
                assert(first[q] == second[q]);
                assert(second[q] == second[at]);
            }
            assert(outranks(fitnesses, second[at] as int, second[p] as int));
            assert(outranks(fitnesses, first[at] as int, first[q] as int));
        }
    }
}

/// There is one ranking only, so each ranking is the ranking.
pub proof fn lemma_ranked_unique(fitnesses: Seq<u64>, ranking: Seq<usize>)
    requires
        ranked(fitnesses, ranking),
        fitnesses.len() <= usize::MAX,
    ensures
        ranking == ranking_of(fitnesses),
{
    let chosen = ranking_of(fitnesses);
    assert(ranked(fitnesses, chosen));
    lemma_ranked_agree(fitnesses, ranking, chosen, fitnesses.len() as int);
    assert(ranking =~= chosen);
}

/// Every list of fitnesses has a ranking.
pub proof fn lemma_ranking_exists(fitnesses: Seq<u64>)
    requires
        fitnesses.len() <= usize::MAX,
    ensures
        ranked(fitnesses, ranking_of(fitnesses)),
    decreases fitnesses.len(),
{
    if fitnesses.len() == 0 {
        assert(ranked(fitnesses, Seq::<usize>::empty()));
    } else {
        let shorter = fitnesses.drop_last();
        lemma_ranking_exists(shorter);
        let before = ranking_of(shorter);
        let last = (fitnesses.len() - 1) as usize;
        let at = first_below(fitnesses, before, fitnesses.last(), 0);
        lemma_first_below(fitnesses, before, fitnesses.last(), 0);
        let after = before.insert(at, last);
        assert forall|a: int, b: int| 0 <= a < b < after.len() implies outranks(
            fitnesses,
            (#[trigger] after[a]) as int,
            (#[trigger] after[b]) as int,
        ) by {
            if b < at {
                assert(outranks(shorter, before[a] as int, before[b] as int));
            } else if b == at {
                assert(fitnesses[before[a] as int] >= fitnesses.last());
            } else if a < at {
                assert(outranks(shorter, before[a] as int, before[b - 1] as int));
            } else if a == at {
                assert(fitnesses[before[b - 1] as int] < fitnesses.last());
            } else {
                assert(outranks(shorter, before[a - 1] as int, before[b - 1] as int));
            }
        }
        assert(ranked(fitnesses, after));
    }
}

/// The first place, from `from` on, of a ranking whose member is less fit
/// than `fitness`.
pub open spec fn first_below(fitnesses: Seq<u64>, ranking: Seq<usize>, fitness: u64, from: int) -> int
    decreases ranking.len() - from,
{
    if from < 0 || from >= ranking.len() {
        ranking.len() as int
    } else if fitnesses[ranking[from] as int] < fitness {
        from
    } else {
        first_below(fitnesses, ranking, fitness, from + 1)
    }
}

/// Before the first place of a less fit member all are at least as fit, and
/// from it on all are less fit.
proof fn lemma_first_below(fitnesses: Seq<u64>, ranking: Seq<usize>, fitness: u64, from: int)
    requires
        0 <= from <= ranking.len(),
        forall|a: int| 0 <= a < ranking.len() ==> (#[trigger] ranking[a]) < fitnesses.len(),
        forall|a: int, b: int|
            0 <= a < b < ranking.len() ==> fitnesses[(#[trigger] ranking[a]) as int] >= fitnesses[(
            #[trigger] ranking[b]) as int],
    ensures
        from <= first_below(fitnesses, ranking, fitness, from) <= ranking.len(),
        forall|a: int|
            from <= a < first_below(fitnesses, ranking, fitness, from) ==> fitnesses[(
            #[trigger] ranking[a]) as int] >= fitness,
        forall|b: int|
            first_below(fitnesses, ranking, fitness, from) <= b < ranking.len() ==> fitnesses[(
            #[trigger] ranking[b]) as int] < fitness,
    decreases ranking.len() - from,
{
    if from < ranking.len() {
        if fitnesses[ranking[from] as int] < fitness {
            assert forall|b: int| from <= b < ranking.len() implies fitnesses[(
            #[trigger] ranking[b]) as int] < fitness by {
                if b > from {
                    assert(fitnesses[ranking[from] as int] >= fitnesses[ranking[b] as int]);
                }
            }
        } else {
            lemma_first_below(fitnesses, ranking, fitness, from + 1);
        }
    }
}

/// The sum of the first `upto` values.
pub open spec fn sum_of(values: Seq<u64>, upto: int) -> nat
    decreases upto,
{
    if upto <= 0 {
        0
    } else {
        sum_of(values, upto - 1) + values[upto - 1] as nat
    }
}

/// The sum of the first `upto` counts.
pub open spec fn count_sum(counts: Seq<usize>, upto: int) -> nat
    decreases upto,
{
    if upto <= 0 {
        0
    } else {
        count_sum(counts, upto - 1) + counts[upto - 1] as nat
    }
}

/// The sum of the first `upto` means.
pub open spec fn total_of(means: Seq<u128>, upto: int) -> nat
    decreases upto,
{
    if upto <= 0 {
        0
    } else {
        total_of(means, upto - 1) + means[upto - 1] as nat
    }
}

/// In how many parts of a score the means of a population of `size`
/// specimens are kept: as many as leave room, in 128 bits, for a mean times
/// the size and for the sum of all means.
pub open spec fn mean_scale(size: nat) -> nat {
    if size == 0 {
        1
    } else {
        0x1_0000_0000_0000_0000nat / size
    }
}

/// The mean of `fitnesses` in parts of a score, `scale` to the score,
/// rounded down; zero for none.
pub open spec fn mean_of(fitnesses: Seq<u64>, scale: nat) -> nat {
    if fitnesses.len() == 0 {
        0
    } else {
        sum_of(fitnesses, fitnesses.len() as int) * scale / fitnesses.len()
    }
}

/// In a population of fewer than two to the thirty-second specimens, a
/// species whose fitnesses do not add to zero has a mean that is not zero.
pub proof fn lemma_mean_is_positive(fitnesses: Seq<u64>, size: nat)
    requires
        1 <= fitnesses.len() <= size <= 0xffff_ffff,
        sum_of(fitnesses, fitnesses.len() as int) >= 1,
    ensures
        mean_of(fitnesses, mean_scale(size)) >= 1,
{
    let whole = 0x1_0000_0000_0000_0000int;
    let count = fitnesses.len() as int;
    let sum = sum_of(fitnesses, count) as int;
    lemma_fundamental_div_mod(whole, size as int);
    vstd::arithmetic::div_mod::lemma_mod_bound(whole, size as int);
    let scale = whole / (size as int);
    assert(scale >= 0x1_0000_0000) by (nonlinear_arith)
        requires
            whole == size * scale + whole % (size as int),
            whole % (size as int) < size,
            1 <= size <= 0xffff_ffff,
            whole == 0x1_0000_0000_0000_0000,
    ;
    assert(sum * scale >= count) by (nonlinear_arith)
        requires
            sum >= 1,
            scale >= 0x1_0000_0000,
            count <= 0xffff_ffff,
    ;
    lemma_fundamental_div_mod(sum * scale, count);
    vstd::arithmetic::div_mod::lemma_mod_bound(sum * scale, count);
    let mean = sum * scale / count;
    assert(mean >= 1) by (nonlinear_arith)
        requires
            sum * scale == count * mean + (sum * scale) % count,
            (sum * scale) % count < count,
            sum * scale >= count,
            count >= 1,
    ;
}

/// Whether the shares of `size` slots can be taken from `means` in 128
/// bits: the means add to no more, and so does each mean times the size.
pub open spec fn shares_fit(means: Seq<u128>, size: usize) -> bool {
    &&& total_of(means, means.len() as int) <= u128::MAX
    &&& forall|i: int| 0 <= i < means.len() ==> (#[trigger] means[i]) * size <= u128::MAX
}

/// The share of `size` slots that falls to a species of mean fitness
/// `mean` among species whose mean fitnesses add to `total`, rounded
/// down.
pub open spec fn floor_share(mean: u128, total: nat, size: usize) -> nat {
    if total == 0 {
        0
    } else {
        (mean * size) as nat / total
    }
}

/// The sum of the floor shares of the first `upto` species.
pub open spec fn floor_sum(means: Seq<u128>, total: nat, size: usize, upto: int) -> nat
    decreases upto,
{
    if upto <= 0 {
        0
    } else {
        floor_sum(means, total, size, upto - 1) + floor_share(means[upto - 1], total, size)
    }
}

/// Whether `slots` is an allotment of `size` slots to species of the mean
/// fitnesses `means`: each species has its floor share or one more, and
/// the slots add to `size`.
pub open spec fn allotted(means: Seq<u128>, size: usize, slots: Seq<usize>) -> bool {
    let total = total_of(means, means.len() as int);
    &&& slots.len() == means.len()
    &&& forall|i: int|
        0 <= i < slots.len() ==> (#[trigger] slots[i]) == floor_share(means[i], total, size)
            || slots[i] == floor_share(means[i], total, size) + 1
    &&& count_sum(slots, slots.len() as int) == size
}

/// The floor shares of the first `upto` species take up no more than their
/// part of the slots, and fall short of it by less than one slot each.
proof fn lemma_floor_sum(means: Seq<u128>, total: nat, size: usize, upto: int)
    requires
        0 <= upto <= means.len(),
        total > 0,
    ensures
        floor_sum(means, total, size, upto) * total <= total_of(means, upto) * size,
        total_of(means, upto) * size <= floor_sum(means, total, size, upto) * total + upto * (
        total - 1),
    decreases upto,
{
    if upto > 0 {
        lemma_floor_sum(means, total, size, upto - 1);
        let mean = means[upto - 1] as int;
        let slots = size as int;
        let whole = total as int;
        let product = mean * slots;
        let share = product / whole;
        assert(floor_share(means[upto - 1], total, size) == share);
        lemma_fundamental_div_mod(product, whole);
        let rest = product % whole;
        assert(product == whole * share + rest);
        assert(0 <= rest && rest < whole);
        let before_floor = floor_sum(means, total, size, upto - 1) as int;
        let before_sum = total_of(means, upto - 1) as int;
        assert(floor_sum(means, total, size, upto) == before_floor + share);
        assert(total_of(means, upto) == before_sum + mean);
        assert((before_floor + share) * whole == before_floor * whole + whole * share)
            by (nonlinear_arith);
        assert((before_sum + mean) * slots == before_sum * slots + mean * slots)
            by (nonlinear_arith);
        assert((upto - 1) * (whole - 1) + (whole - 1) == upto * (whole - 1)) by (nonlinear_arith);
        assert(before_floor * whole <= before_sum * slots);
        assert(before_sum * slots <= before_floor * whole + (upto - 1) * (whole - 1));
        assert((before_floor + share) * whole <= (before_sum + mean) * slots);
        assert((before_sum + mean) * slots <= (before_floor + share) * whole + upto * (whole - 1));
    } else {
        assert(floor_sum(means, total, size, upto) == 0);
        assert(total_of(means, upto) == 0);
        assert(0 * total == 0 && 0 * size == 0 && upto * (total - 1) == 0) by (nonlinear_arith)
            requires
                upto == 0,
        ;
    }
}

/// With a positive total, the floor shares of all species add to at most
/// `size`, and to more than `size` less the number of species.
pub proof fn lemma_floor_shares(means: Seq<u128>, size: usize)
    requires
        total_of(means, means.len() as int) > 0,
    ensures
        floor_sum(means, total_of(means, means.len() as int), size, means.len() as int)
            <= size,
        size < floor_sum(
            means,
            total_of(means, means.len() as int),
            size,
            means.len() as int,
        ) + means.len(),
{
    let count = means.len() as int;
    let total = total_of(means, count);
    let floors = floor_sum(means, total, size, count);
    lemma_floor_sum(means, total, size, count);
    assert(floors <= size) by (nonlinear_arith)
        requires
            floors * total <= total * size,
            total > 0,
    ;
    assert(count > 0);
    assert(count * (total - 1) == count * total - count) by (nonlinear_arith);
    assert((floors + count) * total == floors * total + count * total) by (nonlinear_arith);
    assert(size < floors + count) by (nonlinear_arith)
        requires
            total * size < (floors + count) * total,
            total > 0,
    ;
}

/// Each floor share is at most `size`, and partial sums of floor shares
/// never exceed the whole.
proof fn lemma_floor_sum_rises(means: Seq<u128>, total: nat, size: usize, upto: int, whole: int)
    requires
        0 <= upto <= whole <= means.len(),
    ensures
        floor_sum(means, total, size, upto) <= floor_sum(means, total, size, whole),
    decreases whole - upto,
{
    if upto < whole {
        lemma_floor_sum_rises(means, total, size, upto, whole - 1);
    }
}

/// A sum of values is at most their number times the largest value.
proof fn lemma_sum_bound(values: Seq<u64>, upto: int)
    requires
        0 <= upto <= values.len(),
    ensures
        sum_of(values, upto) <= upto * 0xffff_ffff_ffff_ffff,
        forall|i: int| 0 <= i < upto ==> (#[trigger] values[i]) <= sum_of(values, upto),
    decreases upto,
{
    if upto > 0 {
        lemma_sum_bound(values, upto - 1);
        assert((upto - 1) * 0xffff_ffff_ffff_ffff + 0xffff_ffff_ffff_ffff == upto
            * 0xffff_ffff_ffff_ffff) by (nonlinear_arith);
    }
}

/// Partial sums of means never exceed the whole.
pub proof fn lemma_total_rises(means: Seq<u128>, upto: int, whole: int)
    requires
        0 <= upto <= whole <= means.len(),
    ensures
        total_of(means, upto) <= total_of(means, whole),
    decreases whole - upto,
{
    if upto < whole {
        lemma_total_rises(means, upto, whole - 1);
    }
}

/// Means that are each at most `bound` add to at most their number times
/// `bound`.
pub proof fn lemma_total_bound(means: Seq<u128>, bound: nat, upto: int)
    requires
        0 <= upto <= means.len(),
        forall|i: int| 0 <= i < means.len() ==> (#[trigger] means[i]) <= bound,
    ensures
        total_of(means, upto) <= upto * bound,
    decreases upto,
{
    if upto > 0 {
        lemma_total_bound(means, bound, upto - 1);
        assert((upto - 1) * bound + bound == upto * bound) by (nonlinear_arith);
    } else {
        assert(0 * bound == 0) by (nonlinear_arith);
    }
}

/// The positions of `fitnesses` by rank: the fitter first, and of two
/// equally fit the earlier first.
pub fn rank_by_fitness(fitnesses: &Vec<u64>) -> (ranking: Vec<usize>)
    ensures
        ranked(fitnesses@, ranking@),
        ranking@ == ranking_of(fitnesses@),
{
    let mut ranking: Vec<usize> = Vec::new();
    let mut next: usize = 0;
    while next < fitnesses.len()
        invariant
            next <= fitnesses@.len(),
            ranking@.len() == next,
            forall|a: int| 0 <= a < ranking@.len() ==> (#[trigger] ranking@[a]) < next,
            forall|a: int, b: int|
                0 <= a < b < ranking@.len() ==> outranks(
                    fitnesses@,
                    (#[trigger] ranking@[a]) as int,
                    (#[trigger] ranking@[b]) as int,
                ),
        decreases fitnesses@.len() - next,
    {
        let fitness = fitnesses[next];
        let mut at: usize = 0;
        while at < ranking.len() && fitnesses[ranking[at]] >= fitness
            invariant
                next < fitnesses@.len(),
                fitness == fitnesses@[next as int],
                at <= ranking@.len(),
                forall|a: int| 0 <= a < ranking@.len() ==> (#[trigger] ranking@[a]) < next,
                forall|a: int| 0 <= a < at ==> fitnesses@[(#[trigger] ranking@[a]) as int] >= fitness,
            decreases ranking@.len() - at,
        {
            at = at + 1;
        }
        let ghost before = ranking@;
        ranking.insert(at, next);
        proof {
            let after = ranking@;
            assert forall|a: int, b: int| 0 <= a < b < after.len() implies outranks(
                fitnesses@,
                (#[trigger] after[a]) as int,
                (#[trigger] after[b]) as int,
            ) by {
                if b < at {
                    assert(outranks(fitnesses@, before[a] as int, before[b] as int));
                } else if b == at {
                    assert(fitnesses@[before[a] as int] >= fitness);
                } else if a < at {
                    assert(outranks(fitnesses@, before[a] as int, before[b - 1] as int));
                } else if a == at {
                    assert(fitnesses@[before[at as int] as int] < fitness);
                    if at < b - 1 {
                        assert(outranks(fitnesses@, before[at as int] as int, before[b - 1] as int));
                    }
                } else {
                    assert(outranks(fitnesses@, before[a - 1] as int, before[b - 1] as int));
                }
            }
        }
        next = next + 1;
    }
    proof {
        lemma_ranked_unique(fitnesses@, ranking@);
    }
    ranking
}

/// The mean of `fitnesses` in parts of a score, `scale` to the score,
/// rounded down; zero for none.
pub fn mean_fitness(fitnesses: &Vec<u64>, scale: u128) -> (mean: u128)
    requires
        fitnesses@.len() * scale <= 0x1_0000_0000_0000_0000,
    ensures
        mean == mean_of(fitnesses@, scale as nat),
        mean <= 0xffff_ffff_ffff_ffff * scale,
{
    if fitnesses.len() == 0 {
        assert(0xffff_ffff_ffff_ffff * scale >= 0) by (nonlinear_arith)
            requires
                scale >= 0,
        ;
        return 0;
    }
    let mut sum: u128 = 0;
    let mut i: usize = 0;
    while i < fitnesses.len()
        invariant
            i <= fitnesses@.len(),
            sum == sum_of(fitnesses@, i as int),
        decreases fitnesses@.len() - i,
    {
        proof {
            lemma_sum_bound(fitnesses@, i + 1);
            assert((i + 1) * 0xffff_ffff_ffff_ffff <= 0xffff_ffff_ffff_ffff * 0xffff_ffff_ffff_ffff)
                by (nonlinear_arith)
                requires
                    i + 1 <= 0xffff_ffff_ffff_ffff,
            ;
        }
        sum = sum + fitnesses[i] as u128;
        i = i + 1;
    }
    let count: u128 = fitnesses.len() as u128;
    let whole: u128 = sum / count;
    let rest: u128 = sum % count;
    proof {
        lemma_sum_bound(fitnesses@, fitnesses@.len() as int);
        lemma_scaled_mean(sum as int, count as int, scale as int, whole as int, rest as int);
    }
    whole * scale + rest * scale / count
}

/// The scaled mean, taken apart: with the sum as `whole * count + rest`,
/// the sum times the scale, divided by the count, is `whole` times the scale
/// and `rest` times the scale divided by the count.
proof fn lemma_scaled_mean(sum: int, count: int, scale: int, whole: int, rest: int)
    requires
        0 <= sum <= count * 0xffff_ffff_ffff_ffff,
        count > 0,
        scale >= 0,
        count * scale <= 0x1_0000_0000_0000_0000,
        whole == sum / count,
        rest == sum % count,
    ensures
        0 <= whole <= 0xffff_ffff_ffff_ffff,
        0 <= rest < count,
        rest * scale <= 0x1_0000_0000_0000_0000,
        whole * scale + rest * scale / count <= 0xffff_ffff_ffff_ffff * scale,
        0xffff_ffff_ffff_ffff * scale <= 0xffff_ffff_ffff_ffff * 0x1_0000_0000_0000_0000,
        sum * scale / count == whole * scale + rest * scale / count,
{
    lemma_fundamental_div_mod(sum, count);
    vstd::arithmetic::div_mod::lemma_mod_bound(sum, count);
    lemma_div_pos_is_pos(sum, count);
    assert(sum == count * whole + rest);
    assert(whole <= 0xffff_ffff_ffff_ffff) by (nonlinear_arith)
        requires
            sum == count * whole + rest,
            rest >= 0,
            count > 0,
            sum <= count * 0xffff_ffff_ffff_ffff,
    ;
    assert(scale <= 0x1_0000_0000_0000_0000) by (nonlinear_arith)
        requires
            count >= 1,
            scale >= 0,
            count * scale <= 0x1_0000_0000_0000_0000,
    ;
    assert(rest * scale <= count * scale) by (nonlinear_arith)
        requires
            0 <= rest < count,
            scale >= 0,
    ;
    assert(0xffff_ffff_ffff_ffff * scale <= 0xffff_ffff_ffff_ffff * 0x1_0000_0000_0000_0000)
        by (nonlinear_arith)
        requires
            0 <= scale <= 0x1_0000_0000_0000_0000,
    ;
    let part = rest * scale;
    let low = part / count;
    lemma_fundamental_div_mod(part, count);
    vstd::arithmetic::div_mod::lemma_mod_bound(part, count);
    assert(part >= 0) by (nonlinear_arith)
        requires
            part == rest * scale,
            rest >= 0,
            scale >= 0,
    ;
    lemma_div_pos_is_pos(part, count);
    // sum * scale == count * (whole * scale + low) + part % count
    assert(sum * scale == count * (whole * scale + low) + part % count) by (nonlinear_arith)
        requires
            sum == count * whole + rest,
            part == rest * scale,
            part == count * low + part % count,
    ;
    vstd::arithmetic::div_mod::lemma_fundamental_div_mod_converse(
        sum * scale,
        count,
        whole * scale + low,
        part % count,
    );
    if whole == 0xffff_ffff_ffff_ffff {
        assert(rest == 0) by (nonlinear_arith)
            requires
                sum == count * whole + rest,
                whole == 0xffff_ffff_ffff_ffff,
                sum <= count * 0xffff_ffff_ffff_ffff,
                rest >= 0,
        ;
        assert(part == 0) by (nonlinear_arith)
            requires
                part == rest * scale,
                rest == 0,
        ;
    } else {
        assert(low <= scale) by (nonlinear_arith)
            requires
                part == count * low + part % count,
                part % count >= 0,
                part <= count * scale,
                count > 0,
        ;
        assert(whole * scale + scale <= 0xffff_ffff_ffff_ffff * scale) by (nonlinear_arith)
            requires
                0 <= whole < 0xffff_ffff_ffff_ffff,
                scale >= 0,
        ;
    }
}

/// The slots after the floor shares were raised by one for each of the
/// first `extra` species of `order`.
pub open spec fn raised(floors: Seq<usize>, order: Seq<usize>, extra: int) -> Seq<usize> {
    Seq::new(
        floors.len(),
        |i: int|
            if order.subrange(0, extra).contains(i as usize) {
                (floors[i] + 1) as usize
            } else {
                floors[i]
            },
    )
}

/// Raises by one the share of each of the first `extra` species of `order`.
pub fn distribute(floors: Vec<usize>, order: &Vec<usize>, extra: usize) -> (slots: Vec<usize>)
    requires
        extra <= order@.len(),
        order@.no_duplicates(),
        forall|k: int| 0 <= k < order@.len() ==> (#[trigger] order@[k]) < floors@.len(),
        count_sum(floors@, floors@.len() as int) + extra <= usize::MAX,
    ensures
        slots@ == raised(floors@, order@, extra as int),
        count_sum(slots@, slots@.len() as int) == count_sum(floors@, floors@.len() as int) + extra,
{
    let mut slots = floors;
    let mut k: usize = 0;
    while k < extra
        invariant
            k <= extra <= order@.len(),
            order@.no_duplicates(),
            forall|m: int| 0 <= m < order@.len() ==> (#[trigger] order@[m]) < floors@.len(),
            count_sum(floors@, floors@.len() as int) + extra <= usize::MAX,
            slots@ == raised(floors@, order@, k as int),
            count_sum(slots@, slots@.len() as int) == count_sum(floors@, floors@.len() as int) + k,
        decreases extra - k,
    {
        let at = order[k];
        let ghost before = slots@;
        proof {
            assert(!order@.subrange(0, k as int).contains(at)) by {
                if order@.subrange(0, k as int).contains(at) {
                    let m = choose|m: int|
                        0 <= m < k && order@.subrange(0, k as int)[m] == at;
                    assert(order@[m] == order@[k as int]);
                }
            }
            lemma_count_sum_part(before, at as int, before.len() as int);
        }
        let share = slots[at];
        slots.set(at, share + 1);
        assert(slots.len() <= usize::MAX);
        proof {
            lemma_count_sum_update(before, at as int, (share + 1) as usize, before.len() as int);
            assert(slots@ =~= raised(floors@, order@, k + 1)) by {
                assert forall|i: int| 0 <= i < floors@.len() implies slots@[i] == raised(
                    floors@,
                    order@,
                    k + 1,
                )[i] by {
                    let shorter = order@.subrange(0, k as int);
                    let longer = order@.subrange(0, k + 1);
                    if shorter.contains(i as usize) {
                        let m = choose|m: int| 0 <= m < shorter.len() && shorter[m] == i as usize;
                        assert(longer[m] == i as usize);
                    }
                    if longer.contains(i as usize) {
                        let m = choose|m: int| 0 <= m < longer.len() && longer[m] == i as usize;
                        if m < k {
                            assert(shorter[m] == i as usize);
                        }
                    }
                    if i == at {
                        assert(longer[k as int] == at);
                    }
                }
            }
        }
        k = k + 1;
    }
    slots
}

/// One count is at most the sum of all.
pub proof fn lemma_count_sum_part(counts: Seq<usize>, at: int, upto: int)
    requires
        0 <= at < upto <= counts.len(),
    ensures
        counts[at] <= count_sum(counts, upto),
    decreases upto,
{
    if at < upto - 1 {
        lemma_count_sum_part(counts, at, upto - 1);
    }
}

/// Changing one count changes the sum by as much.
proof fn lemma_count_sum_update(counts: Seq<usize>, at: int, value: usize, upto: int)
    requires
        0 <= at < counts.len(),
        0 <= upto <= counts.len(),
    ensures
        count_sum(counts.update(at, value), upto) == if at < upto {
            count_sum(counts, upto) - counts[at] + value
        } else {
            count_sum(counts, upto) as int
        },
    decreases upto,
{
    if upto > 0 {
        lemma_count_sum_update(counts, at, value, upto - 1);
        if at < upto - 1 {
            lemma_count_sum_part(counts, at, upto - 1);
        }
    }
}

/// The floor share of every species.
///
/// The result is `EmptyPopulation` exactly when the mean fitnesses add to
/// zero, so that no species would receive a slot.
pub fn floor_shares(means: &Vec<u128>, size: usize) -> (shares: Result<Vec<usize>, TyrosineError>)
    requires
        shares_fit(means@, size),
    ensures
        shares is Ok <==> total_of(means@, means@.len() as int) > 0,
        match shares {
            Ok(floors) => {
                &&& floors@.len() == means@.len()
                &&& forall|i: int|
                    0 <= i < floors@.len() ==> (#[trigger] floors@[i]) == floor_share(
                        means@[i],
                        total_of(means@, means@.len() as int),
                        size,
                    )
                &&& count_sum(floors@, floors@.len() as int) == floor_sum(
                    means@,
                    total_of(means@, means@.len() as int),
                    size,
                    means@.len() as int,
                )
            },
            Err(error) => error == TyrosineError::EmptyPopulation,
        },
{
    let mut total: u128 = 0;
    let mut i: usize = 0;
    while i < means.len()
        invariant
            i <= means@.len(),
            total_of(means@, means@.len() as int) <= u128::MAX,
            total == total_of(means@, i as int),
        decreases means@.len() - i,
    {
        proof {
            lemma_total_rises(means@, i + 1, means@.len() as int);
        }
        total = total + means[i];
        i = i + 1;
    }
    if total == 0 {
        return Err(TyrosineError::EmptyPopulation);
    }
    let mut floors: Vec<usize> = Vec::new();
    let mut i: usize = 0;
    while i < means.len()
        invariant
            i <= means@.len(),
            shares_fit(means@, size),
            total == total_of(means@, means@.len() as int),
            total > 0,
            floors@.len() == i,
            forall|k: int|
                0 <= k < i ==> (#[trigger] floors@[k]) == floor_share(means@[k], total as nat, size),
            count_sum(floors@, i as int) == floor_sum(means@, total as nat, size, i as int),
        decreases means@.len() - i,
    {
        let mean = means[i];
        proof {
            assert(means@[i as int] * size <= u128::MAX);
            lemma_floor_shares(means@, size);
            lemma_floor_sum_rises(means@, total as nat, size, i + 1, means@.len() as int);
        }
        let share: u128 = (mean * size as u128) / total;
        let ghost before = floors@;
        floors.push(share as usize);
        proof {
            assert(forall|k: int| 0 <= k < i ==> floors@[k] == before[k]);
            lemma_count_sum_same(before, floors@, i as int);
        }
        i = i + 1;
    }
    Ok(floors)
}

/// Two lists that agree on their first `upto` counts have the same sum of
/// those.
proof fn lemma_count_sum_same(first: Seq<usize>, second: Seq<usize>, upto: int)
    requires
        0 <= upto <= first.len(),
        upto <= second.len(),
        forall|k: int| 0 <= k < upto ==> first[k] == second[k],
    ensures
        count_sum(first, upto) == count_sum(second, upto),
    decreases upto,
{
    if upto > 0 {
        lemma_count_sum_same(first, second, upto - 1);
    }
}

/// Allots `size` slots to species of the mean fitnesses `means`.
///
/// Each species receives its floor share. The slots that are left go, one
/// each, to the first species of a shuffled order. The result is
/// `EmptyPopulation` exactly when the mean fitnesses add to zero.
pub fn allot_slots(means: &Vec<u128>, size: usize, rng: &mut ThreadRng) -> (allotment: Result<
    Vec<usize>,
    TyrosineError,
>)
    requires
        shares_fit(means@, size),
    ensures
        allotment is Ok <==> total_of(means@, means@.len() as int) > 0,
        match allotment {
            Ok(slots) => allotted(means@, size, slots@),
            Err(error) => error == TyrosineError::EmptyPopulation,
        },
{
    let floors = match floor_shares(means, size) {
        Ok(floors) => floors,
        Err(error) => {
            return Err(error);
        },
    };
    let mut taken: usize = 0;
    let mut i: usize = 0;
    proof {
        lemma_floor_shares(means@, size);
    }
    while i < floors.len()
        invariant
            i <= floors@.len(),
            taken == count_sum(floors@, i as int),
            count_sum(floors@, floors@.len() as int) <= size,
        decreases floors@.len() - i,
    {
        proof {
            lemma_count_sum_rises(floors@, i + 1, floors@.len() as int);
        }
        taken = taken + floors[i];
        i = i + 1;
    }
    let extra: usize = size - taken;
    let mut order: Vec<usize> = Vec::new();
    let mut k: usize = 0;
    while k < floors.len()
        invariant
            k <= floors@.len(),
            order@.len() == k,
            forall|m: int| 0 <= m < k ==> #[trigger] order@[m] == m,
        decreases floors@.len() - k,
    {
        order.push(k);
        k = k + 1;
    }
    let ghost straight = order@;
    shuffle(rng, &mut order);
    proof {
        assert(straight.no_duplicates());
        straight.lemma_multiset_has_no_duplicates();
        order@.lemma_multiset_has_no_duplicates_conv();
        vstd::seq_lib::to_multiset_len(straight);
        vstd::seq_lib::to_multiset_len(order@);
        assert forall|m: int| 0 <= m < order@.len() implies (#[trigger] order@[m]) < floors@.len() by {
            assert(order@.contains(order@[m]));
            vstd::seq_lib::to_multiset_contains(order@, order@[m]);
            vstd::seq_lib::to_multiset_contains(straight, order@[m]);
            let at = choose|at: int| 0 <= at < straight.len() && straight[at] == order@[m];
            assert(straight[at] == at);
        }
    }
    let ghost floors_before = floors@;
    let slots = distribute(floors, &order, extra);
    proof {
        let total = total_of(means@, means@.len() as int);
        assert forall|i: int| 0 <= i < slots@.len() implies (#[trigger] slots@[i]) == floor_share(
            means@[i],
            total,
            size,
        ) || slots@[i] == floor_share(means@[i], total, size) + 1 by {
            assert(floors_before[i] == floor_share(means@[i], total, size));
            lemma_count_sum_part(floors_before, i, floors_before.len() as int);
        }
    }
    Ok(slots)
}

/// Partial sums of counts never exceed the whole.
pub proof fn lemma_count_sum_rises(counts: Seq<usize>, upto: int, whole: int)
    requires
        0 <= upto <= whole <= counts.len(),
    ensures
        count_sum(counts, upto) <= count_sum(counts, whole),
    decreases whole - upto,
{
    if upto < whole {
        lemma_count_sum_rises(counts, upto, whole - 1);
    }
}

} // verus!
