//! Alignment of gene lists by innovation number.
//!
//! The innovation numbers of two gene lists are gathered in an ordered set.
//! A walk through that set yields each number once, the smallest first, and
//! so meets the genes of a list whose numbers increase in the order of the
//! list.

use crate::genome::{by_innov, innovs_increasing, lemma_by_innov, ConnectionGene};
use std::collections::BTreeSet;
use vstd::prelude::*;
use vstd::std_specs::btree::{increasing_seq, spec_btree_keys_iter};
use vstd::std_specs::cmp::OrdSpec;
use vstd::std_specs::iter::IteratorSpec;

verus! {

broadcast use vstd::std_specs::btree::group_btree_axioms;

/// The innovation numbers that the genes of a list carry.
pub open spec fn carried(genes: Seq<ConnectionGene>) -> Set<usize> {
    by_innov(genes, genes.len() as int).dom()
}

/// Whether the numbers of a list increase strictly.
pub open spec fn rises(listed: Seq<usize>) -> bool {
    forall|i: int, j: int| 0 <= i < j < listed.len() ==> listed[i] < listed[j]
}

/// References that increase by the order of the set refer to numbers that
/// increase.
proof fn lemma_increasing(listed: Seq<&usize>)
    requires
        increasing_seq(listed),
    ensures
        forall|i: int, j: int|
            0 <= i < j < listed.len() ==> *(#[trigger] listed[i]) < *(#[trigger] listed[j]),
{
    broadcast use vstd::laws_cmp::group_laws_cmp;

    assert(vstd::laws_cmp::obeys_cmp::<usize>());
    assert(vstd::laws_cmp::obeys_cmp::<&usize>());
    assert forall|i: int, j: int| 0 <= i < j < listed.len() implies *(#[trigger] listed[i]) < *(
    #[trigger] listed[j]) by {
        assert(OrdSpec::cmp_spec(&listed[i], &listed[j]) is Less);
    }
}

/// A walk through an ordered set yields the numbers of the set, each once
/// and the smallest first.
pub proof fn lemma_walk(all: &BTreeSet<usize>)
    ensures
        rises(spec_btree_keys_iter(all).remaining().unref()),
        forall|innov: usize|
            all@.contains(innov) <==> spec_btree_keys_iter(all).remaining().unref().contains(innov),
{
    let listed = spec_btree_keys_iter(all).remaining();
    let walk = listed.unref();
    lemma_increasing(listed);
    assert forall|i: int, j: int| 0 <= i < j < walk.len() implies walk[i] < walk[j] by {
        assert(*listed[i] < *listed[j]);
    }
    assert(walk.to_set() == all@);
    assert forall|innov: usize| all@.contains(innov) <==> walk.contains(innov) by {
        assert(walk.to_set().contains(innov) <==> walk.contains(innov));
    }
}

/// The innovation numbers of two gene lists, in an ordered set.
pub fn innovs_of(first: &Vec<ConnectionGene>, second: &Vec<ConnectionGene>) -> (all: BTreeSet<usize>)
    ensures
        all@ == carried(first@).union(carried(second@)),
{
    let mut all: BTreeSet<usize> = BTreeSet::new();
    let mut i: usize = 0;
    while i < first.len()
        invariant
            i <= first@.len(),
            all@ =~= by_innov(first@, i as int).dom(),
        decreases first@.len() - i,
    {
        all.insert(first[i].innov);
        i = i + 1;
    }
    let mut j: usize = 0;
    while j < second.len()
        invariant
            j <= second@.len(),
            all@ =~= carried(first@).union(by_innov(second@, j as int).dom()),
        decreases second@.len() - j,
    {
        all.insert(second[j].innov);
        j = j + 1;
    }
    all
}

/// Whether a walk that has yielded the first `index` numbers of `listed`
/// has met the first `count` genes and no other: the genes that it met carry
/// smaller numbers than the walk has yet to yield, and the others carry
/// larger numbers than it has yielded.
pub open spec fn met(genes: Seq<ConnectionGene>, listed: Seq<usize>, count: int, index: int) -> bool {
    &&& 0 <= count <= genes.len()
    &&& 0 <= index <= listed.len()
    &&& forall|j: int, p: int|
        0 <= j < count && index <= p < listed.len() ==> (#[trigger] genes[j]).innov
            < #[trigger] listed[p]
    &&& forall|j: int, p: int|
        count <= j < genes.len() && 0 <= p < index ==> (#[trigger] listed[p])
            < (#[trigger] genes[j]).innov
}

/// The next number of the walk is the number of the next gene, or of no
/// gene of the list.
pub proof fn lemma_met_next(genes: Seq<ConnectionGene>, listed: Seq<usize>, count: int, index: int)
    requires
        innovs_increasing(genes),
        rises(listed),
        forall|i: int| 0 <= i < genes.len() ==> listed.contains((#[trigger] genes[i]).innov),
        met(genes, listed, count, index),
        index < listed.len(),
    ensures
        carried(genes).contains(listed[index]) ==> count < genes.len() && genes[count]
            == by_innov(genes, genes.len() as int)[listed[index]] && met(
            genes,
            listed,
            count + 1,
            index + 1,
        ),
        !carried(genes).contains(listed[index]) ==> met(genes, listed, count, index + 1),
{
    let number = listed[index];
    lemma_by_innov(genes, genes.len() as int);
    assert forall|j: int| count <= j < genes.len() && genes[j].innov <= number implies j == count
        && genes[j].innov == number by {
        let p = choose|p: int| 0 <= p < listed.len() && listed[p] == genes[j].innov;
        assert(listed[p] == genes[j].innov);
        if p < index {
            assert(listed[p] < genes[j].innov);
        }
        if p > index {
            assert(listed[index] < listed[p]);
        }
        if j > count {
            let q = choose|q: int| 0 <= q < listed.len() && listed[q] == genes[count].innov;
            assert(listed[q] == genes[count].innov);
            assert(genes[count].innov < genes[j].innov);
            if q < index {
                assert(listed[q] < genes[count].innov);
            }
            if q > index {
                assert(listed[index] < listed[q]);
            }
        }
    }
    if carried(genes).contains(number) {
        let gene = by_innov(genes, genes.len() as int)[number];
        let j = choose|j: int| 0 <= j < genes.len() && genes[j] == gene;
        assert(genes[j].innov == number);
        if j < count {
            assert(genes[j].innov < listed[index]);
        }
        assert(j == count);
        assert forall|k: int, p: int|
            0 <= k < count + 1 && index + 1 <= p < listed.len() implies (#[trigger] genes[k]).innov
            < #[trigger] listed[p] by {
            if k == count {
                assert(listed[index] < listed[p]);
            }
        }
        assert forall|k: int, p: int|
            count + 1 <= k < genes.len() && 0 <= p < index + 1 implies (#[trigger] listed[p])
            < (#[trigger] genes[k]).innov by {
            if p == index {
                assert(genes[count].innov < genes[k].innov);
            }
        }
    } else {
        assert forall|k: int, p: int|
            count <= k < genes.len() && 0 <= p < index + 1 implies (#[trigger] listed[p])
            < (#[trigger] genes[k]).innov by {
            if p == index {
                if genes[k].innov <= number {
                    assert(genes[k].innov == number);
                }
            }
        }
    }
}

/// A walk that has yielded every number has met every gene.
pub proof fn lemma_met_all(genes: Seq<ConnectionGene>, listed: Seq<usize>, count: int)
    requires
        forall|i: int| 0 <= i < genes.len() ==> listed.contains((#[trigger] genes[i]).innov),
        met(genes, listed, count, listed.len() as int),
    ensures
        count == genes.len(),
{
    if count < genes.len() {
        let p = choose|p: int| 0 <= p < listed.len() && listed[p] == genes[count].innov;
        assert(listed[p] < genes[count].innov);
    }
}

} // verus!
