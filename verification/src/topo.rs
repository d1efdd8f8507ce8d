//! Renumbering of node ids.
//!
//! The ids of a network that was put in layers are collapsed to the numbers
//! from zero up: first the ids in the order in which the layers name them,
//! then the output ids, which so come last.

use std::collections::{HashMap, HashSet};
use vstd::prelude::*;
use vstd::std_specs::hash::spec_hash_keys_iter;
use vstd::std_specs::iter::IteratorSpec;

verus! {

broadcast use vstd::std_specs::hash::group_hash_axioms;

/// The ids of all layers, layer after layer.
pub open spec fn flattened(topo: Seq<Vec<u32>>) -> Seq<u32>
    decreases topo.len(),
{
    if topo.len() == 0 {
        Seq::empty()
    } else {
        flattened(topo.drop_last()) + topo.last()@
    }
}

/// Whether the id at position `at` occurs there for the first time.
pub open spec fn first_seen(ids: Seq<u32>, at: int) -> bool {
    !ids.subrange(0, at).contains(ids[at])
}

/// How many different ids occur among the first `upto`.
pub open spec fn different(ids: Seq<u32>, upto: int) -> nat
    decreases upto,
{
    if upto <= 0 {
        0
    } else if first_seen(ids, upto - 1) {
        different(ids, upto - 1) + 1
    } else {
        different(ids, upto - 1)
    }
}

/// The numbers of the first `upto` ids: each id has the number of different
/// ids that came before it first occurred.
pub open spec fn numbered(ids: Seq<u32>, upto: int) -> Map<u32, u32>
    decreases upto,
{
    if upto <= 0 {
        Map::empty()
    } else if first_seen(ids, upto - 1) {
        numbered(ids, upto - 1).insert(ids[upto - 1], different(ids, upto - 1) as u32)
    } else {
        numbered(ids, upto - 1)
    }
}

/// The numbers after the first `upto` ids of `order` were numbered anew,
/// from `start` up.
pub open spec fn renumbered(numbers: Map<u32, u32>, order: Seq<u32>, start: nat, upto: int) -> Map<
    u32,
    u32,
>
    decreases upto,
{
    if upto <= 0 {
        numbers
    } else {
        renumbered(numbers, order, start, upto - 1).insert(
            order[upto - 1],
            (start + upto - 1) as u32,
        )
    }
}

/// Whether `mapping` collapses the ids of `ids` and the output ids, the
/// latter numbered in the order `order`.
pub open spec fn collapsed(
    ids: Seq<u32>,
    outputs: Set<u32>,
    order: Seq<u32>,
    mapping: Map<u32, u32>,
) -> bool {
    &&& order.no_duplicates()
    &&& order.to_set() == outputs
    &&& mapping == renumbered(
        numbered(ids, ids.len() as int),
        order,
        different(ids, ids.len() as int),
        order.len() as int,
    )
}

/// The ids that have a number are those that occurred, and there are never
/// more different ids than ids.
proof fn lemma_numbered(ids: Seq<u32>, upto: int)
    requires
        0 <= upto <= ids.len(),
    ensures
        different(ids, upto) <= upto,
        forall|id: u32|
            numbered(ids, upto).contains_key(id) <==> ids.subrange(0, upto).contains(id),
    decreases upto,
{
    if upto > 0 {
        lemma_numbered(ids, upto - 1);
        let shorter = ids.subrange(0, upto - 1);
        let longer = ids.subrange(0, upto);
        assert forall|id: u32|
            numbered(ids, upto).contains_key(id) <==> longer.contains(id) by {
            if shorter.contains(id) {
                let k = choose|k: int| 0 <= k < shorter.len() && shorter[k] == id;
                assert(longer[k] == id);
            }
            if longer.contains(id) {
                let k = choose|k: int| 0 <= k < longer.len() && longer[k] == id;
                if k < upto - 1 {
                    assert(shorter[k] == id);
                }
            }
            assert(longer[upto - 1] == ids[upto - 1]);
        }
    }
}

/// The count of different ids never falls.
proof fn lemma_different_rises(ids: Seq<u32>, upto: int, whole: int)
    requires
        0 <= upto <= whole <= ids.len(),
    ensures
        different(ids, upto) <= different(ids, whole),
    decreases whole - upto,
{
    if upto < whole {
        lemma_different_rises(ids, upto, whole - 1);
    }
}

/// The ids of all layers, layer after layer.
pub fn flatten(topo: &Vec<Vec<u32>>) -> (ids: Vec<u32>)
    ensures
        ids@ == flattened(topo@),
{
    let mut ids: Vec<u32> = Vec::new();
    let mut layer: usize = 0;
    while layer < topo.len()
        invariant
            layer <= topo@.len(),
            ids@ == flattened(topo@.subrange(0, layer as int)),
        decreases topo@.len() - layer,
    {
        let ghost before = ids@;
        let mut at: usize = 0;
        while at < topo[layer].len()
            invariant
                layer < topo@.len(),
                at <= topo@[layer as int]@.len(),
                ids@ == before + topo@[layer as int]@.subrange(0, at as int),
            decreases topo@[layer as int]@.len() - at,
        {
            ids.push(topo[layer][at]);
            assert(ids@ =~= before + topo@[layer as int]@.subrange(0, at + 1));
            at = at + 1;
        }
        proof {
            let upto = topo@.subrange(0, layer + 1);
            assert(upto.drop_last() =~= topo@.subrange(0, layer as int));
            assert(upto.last() == topo@[layer as int]);
            assert(topo@[layer as int]@.subrange(0, at as int) =~= topo@[layer as int]@);
        }
        layer = layer + 1;
    }
    assert(topo@.subrange(0, topo@.len() as int) =~= topo@);
    ids
}

/// The members of `ids`, each once, in the order in which the set hands
/// them out.
pub fn members_of(ids: &HashSet<u32>) -> (members: Vec<u32>)
    ensures
        members@.no_duplicates(),
        members@.to_set() == ids@,
        members@.len() == ids@.len(),
{
    let mut members: Vec<u32> = Vec::new();
    for id in iter: ids.iter()
        invariant
            iter.seq() == spec_hash_keys_iter(ids).remaining(),
            members@.len() == iter.index(),
            forall|k: int| 0 <= k < members@.len() ==> members@[k] == *iter.seq()[k],
    {
        members.push(*id);
    }
    assert(members@ =~= spec_hash_keys_iter(ids).remaining().unref());
    members
}

/// Collapses the ids to make them continuous, and returns the map from old
/// ids to new.
///
/// The ids of the layers are numbered from zero in the order in which they
/// first occur. The output ids are then numbered anew, one after the other
/// in the order in which the set hands them out, so that they have the
/// highest numbers.
pub fn collapse_ids(topo: &Vec<Vec<u32>>, output_ids: &HashSet<u32>) -> (mapping: HashMap<u32, u32>)
    requires
        different(flattened(topo@), flattened(topo@).len() as int) + output_ids@.len() <= u32::MAX,
    ensures
        exists|order: Seq<u32>| #[trigger] collapsed(flattened(topo@), output_ids@, order, mapping@),
{
    let ids = flatten(topo);
    let outputs = members_of(output_ids);
    let mut mapping: HashMap<u32, u32> = HashMap::new();
    let mut new_id: u32 = 0;
    let mut at: usize = 0;
    while at < ids.len()
        invariant
            at <= ids@.len(),
            different(ids@, ids@.len() as int) <= u32::MAX,
            new_id == different(ids@, at as int),
            mapping@ == numbered(ids@, at as int),
        decreases ids@.len() - at,
    {
        let id = ids[at];
        proof {
            lemma_numbered(ids@, at as int);
            lemma_different_rises(ids@, at + 1, ids@.len() as int);
        }
        if !mapping.contains_key(&id) {
            mapping.insert(id, new_id);
            new_id = new_id + 1;
        }
        at = at + 1;
    }
    let ghost base = mapping@;
    let ghost start = new_id as nat;
    let mut next: usize = 0;
    while next < outputs.len()
        invariant
            next <= outputs@.len(),
            start + outputs@.len() <= u32::MAX,
            new_id == start + next,
            mapping@ == renumbered(base, outputs@, start, next as int),
        decreases outputs@.len() - next,
    {
        mapping.insert(outputs[next], new_id);
        new_id = new_id + 1;
        next = next + 1;
    }
    assert(collapsed(flattened(topo@), output_ids@, outputs@, mapping@));
    mapping
}

} // verus!
