//! Innovation numbers: the global identity of structural edges.
//!
//! A [`GlobalInnovator`] counts upward. An [`InnovationRegistry`] remembers,
//! for the generation in progress, which number each edge `(in, out)`
//! received, so that genomes which grow the same edge in that generation
//! share its number.

use std::collections::{HashMap, HashSet};
use vstd::prelude::*;
use vstd::std_specs::hash::spec_hash_map_iter;
use vstd::std_specs::iter::IteratorSpec;

verus! {

broadcast use vstd::std_specs::hash::group_hash_axioms;

/// A counter that hands out innovation numbers in increasing order.
#[derive(Debug)]
pub struct GlobalInnovator {
    /// The next number to hand out.
    pub innov: usize,
}

impl GlobalInnovator {
    /// A counter that starts at zero.
    pub fn new() -> (innovator: Self)
        ensures
            innovator.innov == 0,
    {
        GlobalInnovator { innov: 0 }
    }

    /// Hands out the next innovation number and moves past it.
    pub fn next(&mut self) -> (innov: usize)
        requires
            old(self).innov < usize::MAX,
        ensures
            innov == old(self).innov,
            final(self).innov == old(self).innov + 1,
    {
        let innov = self.innov;
        self.innov = self.innov + 1;
        innov
    }
}

/// The key under which the edge `(in_node, out_node)` is remembered: the
/// source in the high half, the target in the low half.
pub open spec fn edge_key(in_node: usize, out_node: usize) -> u128 {
    (in_node * 0x1_0000_0000_0000_0000 + out_node) as u128
}

/// Whether `key` is the key of an edge.
pub open spec fn is_edge_key(key: u128) -> bool {
    key / 0x1_0000_0000_0000_0000 <= usize::MAX && key % 0x1_0000_0000_0000_0000 <= usize::MAX
}

/// The edge of which `key` is the key.
pub open spec fn key_edge(key: u128) -> (usize, usize) {
    ((key / 0x1_0000_0000_0000_0000) as usize, (key % 0x1_0000_0000_0000_0000) as usize)
}

/// Every edge has a key of its own, from which the edge can be read back.
pub proof fn lemma_edge_key(in_node: usize, out_node: usize)
    ensures
        edge_key(in_node, out_node) == in_node * 0x1_0000_0000_0000_0000 + out_node,
        is_edge_key(edge_key(in_node, out_node)),
        key_edge(edge_key(in_node, out_node)) == (in_node, out_node),
{
    let key = in_node * 0x1_0000_0000_0000_0000 + out_node;
    assert(0 <= key <= 0xffff_ffff_ffff_ffff * 0x1_0000_0000_0000_0000 + 0xffff_ffff_ffff_ffff);
    vstd::arithmetic::div_mod::lemma_fundamental_div_mod_converse(
        key,
        0x1_0000_0000_0000_0000,
        in_node as int,
        out_node as int,
    );
}

/// The key of an edge is the key of no other edge.
pub proof fn lemma_key_edge(key: u128)
    requires
        is_edge_key(key),
    ensures
        edge_key(key_edge(key).0, key_edge(key).1) == key,
{
    vstd::arithmetic::div_mod::lemma_fundamental_div_mod(key as int, 0x1_0000_0000_0000_0000);
}

/// The key under which the edge `(in_node, out_node)` is remembered.
pub fn key_of(in_node: usize, out_node: usize) -> (key: u128)
    ensures
        key == edge_key(in_node, out_node),
{
    proof {
        lemma_edge_key(in_node, out_node);
    }
    (in_node as u128) * 0x1_0000_0000_0000_0000u128 + (out_node as u128)
}

/// The authority that issues innovation numbers and remembers those of the
/// generation in progress.
#[derive(Debug)]
pub struct InnovationRegistry {
    /// The counter from which fresh numbers come.
    pub innovator: GlobalInnovator,
    /// The numbers of the edges numbered in the generation in progress, each
    /// under the key of its edge: see [`edge_key`].
    pub innovations: HashMap<u128, usize>,
}

/// The mathematical content of an [`InnovationRegistry`].
pub struct RegistryView {
    /// The next number that the counter hands out.
    pub next: usize,
    /// The number of each edge numbered in the generation in progress.
    pub memo: Map<(usize, usize), usize>,
}

/// The numbers by edge that are remembered by key in `keyed`.
pub open spec fn memo_of(keyed: Map<u128, usize>) -> Map<(usize, usize), usize> {
    Map::new(
        |edge: (usize, usize)| keyed.contains_key(edge_key(edge.0, edge.1)),
        |edge: (usize, usize)| keyed[edge_key(edge.0, edge.1)],
    )
}

impl View for InnovationRegistry {
    type V = RegistryView;

    open spec fn view(&self) -> RegistryView {
        RegistryView { next: self.innovator.innov, memo: memo_of(self.innovations@) }
    }
}

impl RegistryView {
    /// The number that the edge `(in_node, out_node)` received in this
    /// generation, if it received one.
    pub open spec fn assigned(self, in_node: usize, out_node: usize) -> Option<usize> {
        if self.memo.contains_key((in_node, out_node)) {
            Some(self.memo[(in_node, out_node)])
        } else {
            None
        }
    }

    /// The invariant of a registry: every remembered number was handed out by
    /// the counter, and no two edges share a number.
    pub open spec fn wf(self) -> bool {
        &&& forall|edge: (usize, usize)| #[trigger]
            self.memo.contains_key(edge) ==> self.memo[edge] < self.next
        &&& forall|first: (usize, usize), second: (usize, usize)|
            #[trigger] self.memo.contains_key(first) && #[trigger] self.memo.contains_key(second)
                && self.memo[first] == self.memo[second] ==> first == second
    }

    /// Whether the counter can still hand out a number.
    pub open spec fn has_fresh(self) -> bool {
        self.next < usize::MAX
    }

    /// What `issue` returns for the edge `(in_node, out_node)`: the number
    /// that the edge already has, else the next one of the counter, else
    /// nothing.
    pub open spec fn issued(self, in_node: usize, out_node: usize) -> Option<usize> {
        match self.assigned(in_node, out_node) {
            Some(innov) => Some(innov),
            None => if self.has_fresh() {
                Some(self.next)
            } else {
                None
            },
        }
    }

    /// Whether this registry continues `earlier` within one generation: the
    /// counter has not gone back, every edge numbered then still has its
    /// number, and every edge numbered since has a number that the counter
    /// had not yet handed out then.
    pub open spec fn extends(self, earlier: RegistryView) -> bool {
        &&& self.next >= earlier.next
        &&& forall|a: usize, b: usize|
            earlier.assigned(a, b) is Some ==> #[trigger] self.assigned(a, b) == earlier.assigned(a, b)
        &&& forall|edge: (usize, usize)| #[trigger]
            self.memo.contains_key(edge) ==> (earlier.memo.contains_key(edge) && earlier.memo[edge]
                == self.memo[edge]) || self.memo[edge] >= earlier.next
    }

    /// The registry at the start of a generation: the counter as it is, and
    /// no edge numbered yet.
    pub open spec fn cleared(self) -> RegistryView {
        RegistryView { next: self.next, memo: Map::empty() }
    }

    /// The registry that `issue` leaves behind for the edge
    /// `(in_node, out_node)`.
    pub open spec fn after_issue(self, in_node: usize, out_node: usize) -> RegistryView {
        if self.assigned(in_node, out_node) is None && self.has_fresh() {
            RegistryView {
                next: (self.next + 1) as usize,
                memo: self.memo.insert((in_node, out_node), self.next),
            }
        } else {
            self
        }
    }
}

impl InnovationRegistry {
    /// The invariant of a registry: see [`RegistryView::wf`]; and every key
    /// is the key of an edge.
    pub open spec fn wf(&self) -> bool {
        &&& self@.wf()
        &&& forall|key: u128| #[trigger] self.innovations@.contains_key(key) ==> is_edge_key(key)
    }

    /// A registry that has issued nothing.
    pub fn new() -> (registry: Self)
        ensures
            registry.wf(),
            registry@.next == 0,
            registry@.memo == Map::<(usize, usize), usize>::empty(),
    {
        let registry = InnovationRegistry {
            innovator: GlobalInnovator::new(),
            innovations: HashMap::new(),
        };
        assert(registry@.memo =~= Map::<(usize, usize), usize>::empty());
        registry
    }

    /// Whether the registry keeps its invariant.
    pub fn is_valid(&self) -> (valid: bool)
        ensures
            valid == self.wf(),
    {
        let mut seen: HashSet<usize> = HashSet::new();
        for entry in iter: self.innovations.iter()
            invariant
                iter.seq() == spec_hash_map_iter(&self.innovations).remaining(),
                iter.seq().no_duplicates(),
                forall|i: int|
                    0 <= i < iter.index() ==> is_edge_key(*(#[trigger] iter.seq()[i]).0)
                        && *iter.seq()[i].1 < self.innovator.innov,
                forall|i: int| 0 <= i < iter.index() ==> seen@.contains(*(#[trigger] iter.seq()[i]).1),
                forall|value: usize|
                    seen@.contains(value) ==> exists|i: int|
                        0 <= i < iter.index() && *(#[trigger] iter.seq()[i]).1 == value,
                forall|i: int, j: int|
                    0 <= i < j < iter.index() ==> *(#[trigger] iter.seq()[i]).1 != *(
                    #[trigger] iter.seq()[j]).1,
        {
            let key: u128 = *entry.0;
            let value: usize = *entry.1;
            let ghost at = iter.index();
            assert(self.innovations@.contains_key(key) && self.innovations@[key] == value) by {
                assert(iter.seq()[at] == entry);
                assert(self.innovations@.contains_key(*iter.seq()[at].0));
            }
            if key / 0x1_0000_0000_0000_0000u128 > usize::MAX as u128 || key
                % 0x1_0000_0000_0000_0000u128 > usize::MAX as u128 {
                return false;
            }
            proof {
                lemma_key_edge(key);
                assert(self@.memo.contains_key(key_edge(key)));
            }
            if value >= self.innovator.innov {
                return false;
            }
            if seen.contains(&value) {
                proof {
                    let i = choose|i: int| 0 <= i < at && *(#[trigger] iter.seq()[i]).1 == value;
                    let other = *iter.seq()[i].0;
                    assert(self.innovations@.contains_key(*iter.seq()[i].0));
                    assert(other != key) by {
                        if other == key {
                            assert(iter.seq()[i] == iter.seq()[at]);
                        }
                    }
                    lemma_key_edge(other);
                    assert(self@.memo.contains_key(key_edge(other)));
                    assert(key_edge(other) != key_edge(key));
                }
                return false;
            }
            seen.insert(value);
        }
        proof {
            let listed = spec_hash_map_iter(&self.innovations).remaining();
            assert forall|edge: (usize, usize)| #[trigger]
                self@.memo.contains_key(edge) implies self@.memo[edge] < self@.next by {
                let key = edge_key(edge.0, edge.1);
                assert(listed.contains((&key, &self.innovations@[key])));
                let i = choose|i: int| 0 <= i < listed.len() && listed[i] == (&key, &self.innovations@[key]);
                assert(*listed[i].1 < self.innovator.innov);
            }
            assert forall|first: (usize, usize), second: (usize, usize)|
                #[trigger] self@.memo.contains_key(first) && #[trigger] self@.memo.contains_key(second)
                    && self@.memo[first] == self@.memo[second] implies first == second by {
                let one = edge_key(first.0, first.1);
                let two = edge_key(second.0, second.1);
                assert(listed.contains((&one, &self.innovations@[one])));
                assert(listed.contains((&two, &self.innovations@[two])));
                let i = choose|i: int| 0 <= i < listed.len() && listed[i] == (&one, &self.innovations@[one]);
                let j = choose|j: int| 0 <= j < listed.len() && listed[j] == (&two, &self.innovations@[two]);
                if i < j {
                    assert(*listed[i].1 != *listed[j].1);
                } else if j < i {
                    assert(*listed[j].1 != *listed[i].1);
                }
                lemma_edge_key(first.0, first.1);
                lemma_edge_key(second.0, second.1);
            }
            assert forall|key: u128| #[trigger] self.innovations@.contains_key(key) implies is_edge_key(
                key,
            ) by {
                assert(listed.contains((&key, &self.innovations@[key])));
                let i = choose|i: int| 0 <= i < listed.len() && listed[i] == (&key, &self.innovations@[key]);
                assert(is_edge_key(*listed[i].0));
            }
        }
        true
    }

    /// Starts a generation: forgets which edges were numbered, and keeps the
    /// counter.
    pub fn clear(&mut self)
        ensures
            final(self)@ == old(self)@.cleared(),
            final(self).wf(),
    {
        self.innovations = HashMap::new();
        assert(self@.memo =~= Map::<(usize, usize), usize>::empty());
    }

    /// The number of the edge `(in_node, out_node)`, if this generation has
    /// numbered it.
    pub fn lookup(&self, in_node: usize, out_node: usize) -> (found: Option<usize>)
        ensures
            found == self@.assigned(in_node, out_node),
    {
        let key = key_of(in_node, out_node);
        match self.innovations.get(&key) {
            Some(innov) => Some(*innov),
            None => None,
        }
    }

    /// The innovation number of the edge `(in_node, out_node)`.
    ///
    /// An edge that this generation has numbered keeps its number. Another
    /// edge receives the next number of the counter, which is remembered. The
    /// result is `None`, and nothing changes, only when the edge is new and
    /// the counter is exhausted.
    pub fn issue(&mut self, in_node: usize, out_node: usize) -> (innov: Option<usize>)
        requires
            old(self).wf(),
        ensures
            final(self).wf(),
            innov == old(self)@.issued(in_node, out_node),
            final(self)@ == old(self)@.after_issue(in_node, out_node),
            final(self)@.extends(old(self)@),
            innov is Some ==> final(self)@.assigned(in_node, out_node) == innov,
    {
        proof {
            lemma_issue_keeps_assignments(old(self)@, in_node, out_node);
        }
        match self.lookup(in_node, out_node) {
            Some(known) => Some(known),
            None => {
                if self.innovator.innov == usize::MAX {
                    return None;
                }
                let fresh = self.innovator.next();
                let key = key_of(in_node, out_node);
                self.innovations.insert(key, fresh);
                proof {
                    lemma_edge_key(in_node, out_node);
                    assert forall|edge: (usize, usize)|
                        edge_key(edge.0, edge.1) == key implies edge == (in_node, out_node) by {
                        lemma_edge_key(edge.0, edge.1);
                    }
                    assert(self@.memo =~= old(self)@.memo.insert((in_node, out_node), fresh));
                }
                Some(fresh)
            },
        }
    }
}

/// Issuing a number leaves the registry well formed and the numbers of all
/// edges numbered before as they were; the edge asked for then has the
/// number that was returned.
pub proof fn lemma_issue_keeps_assignments(before: RegistryView, in_node: usize, out_node: usize)
    requires
        before.wf(),
    ensures
        before.after_issue(in_node, out_node).wf(),
        before.after_issue(in_node, out_node).next >= before.next,
        before.after_issue(in_node, out_node).extends(before),
        before.issued(in_node, out_node) is Some ==> before.after_issue(in_node, out_node).assigned(
            in_node,
            out_node,
        ) == before.issued(in_node, out_node),
        forall|a: usize, b: usize|
            before.assigned(a, b) is Some ==> #[trigger] before.after_issue(in_node, out_node).assigned(
                a,
                b,
            ) == before.assigned(a, b),
{
}

/// Within one generation two numbered edges are the same edge exactly when
/// they carry the same innovation number.
pub proof fn lemma_innovation_identifies_edge(
    registry: RegistryView,
    first: (usize, usize),
    second: (usize, usize),
)
    requires
        registry.wf(),
        registry.assigned(first.0, first.1) is Some,
        registry.assigned(second.0, second.1) is Some,
    ensures
        first == second <==> registry.assigned(first.0, first.1) == registry.assigned(
            second.0,
            second.1,
        ),
{
    assert(registry.memo.contains_key(first));
    assert(registry.memo.contains_key(second));
}

/// Two edges that are issued numbers one after the other, in one generation,
/// receive the same number exactly when they are the same edge.
pub proof fn lemma_issue_twice(registry: RegistryView, first: (usize, usize), second: (usize, usize))
    requires
        registry.wf(),
        registry.issued(first.0, first.1) is Some,
        registry.after_issue(first.0, first.1).issued(second.0, second.1) is Some,
    ensures
        first == second <==> registry.issued(first.0, first.1) == registry.after_issue(
            first.0,
            first.1,
        ).issued(second.0, second.1),
{
    let mid = registry.after_issue(first.0, first.1);
    lemma_issue_keeps_assignments(registry, first.0, first.1);
    lemma_issue_keeps_assignments(mid, second.0, second.1);
    let last = mid.after_issue(second.0, second.1);
    assert(mid.assigned(first.0, first.1) is Some);
    assert(last.assigned(first.0, first.1) == mid.assigned(first.0, first.1));
    lemma_innovation_identifies_edge(last, first, second);
}

} // verus!
