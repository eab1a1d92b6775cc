//! The bounded cache of resident nodes.
//!
//! The cache keeps up to [`CACHE_LIMIT`] nodes other than the root in memory
//! and knows in which order they were last used. The order is kept by an
//! `lru::LruCache` from node names to slots; the nodes themselves stand in
//! the slots. A node that is pushed out is handed back to the caller and is
//! not written anywhere: whoever changes a resident node has to see to it
//! that the change is stored.

use crate::names::{root_name, NodeRef};
use crate::node::{Node, NodeState};
use crate::order::total_order;
use lru::LruCache;
use vstd::prelude::*;

verus! {

/// The hasher of the outside cache, which the engine never looks into.
#[verifier::external_type_specification]
#[verifier::external_body]
pub struct ExDefaultHasher(lru::DefaultHasher);

/// The cache of the `lru` crate: a map with a bound on its size that knows
/// the order in which its entries were last used. The engine sees its
/// contents only through [`lru_entries`].
#[verifier::external_type_specification]
#[verifier::external_body]
#[verifier::reject_recursive_types(K)]
#[verifier::reject_recursive_types(V)]
#[verifier::reject_recursive_types(S)]
pub struct ExLruCache<K, V, S>(LruCache<K, V, S>);

/// The entries of the outside cache, from the most recently used to the
/// least recently used, each a node name with the slot stored under it.
pub uninterp spec fn lru_entries(c: LruCache<NodeRef, usize>) -> Seq<(Seq<char>, usize)>;

/// The number of entries that the outside cache was made to hold.
pub uninterp spec fn lru_limit(c: LruCache<NodeRef, usize>) -> nat;

/// The number of nodes that the cache keeps resident.
pub const CACHE_LIMIT: usize = 256;

/// No name occurs twice among the entries.
pub open spec fn distinct_names(entries: Seq<(Seq<char>, usize)>) -> bool {
    forall|i: int, j: int|
        0 <= i < entries.len() && 0 <= j < entries.len() && i != j ==> (#[trigger] entries[i]).0
            != (#[trigger] entries[j]).0
}

/// Some entry has the name.
pub open spec fn names(entries: Seq<(Seq<char>, usize)>, name: Seq<char>) -> bool {
    exists|i: int| 0 <= i < entries.len() && (#[trigger] entries[i]).0 == name
}

/// The index of the entry that has the name, where there is one.
pub open spec fn entry_of(entries: Seq<(Seq<char>, usize)>, name: Seq<char>) -> int {
    choose|i: int| 0 <= i < entries.len() && (#[trigger] entries[i]).0 == name
}

/// Makes an empty outside cache for up to `limit` entries.
///
/// The body calls `LruCache::new`, which builds an empty map with room for
/// `limit` entries and records `limit` as the bound. The contract says that
/// the cache is empty and has that bound. Large bounds are left out because
/// the map's allocation fails on them.
#[verifier::external_body]
fn index_new(limit: usize) -> (c: LruCache<NodeRef, usize>)
    requires
        limit <= 65536,
    ensures
        lru_entries(c) == Seq::<(Seq<char>, usize)>::empty(),
        lru_limit(c) == limit,
{
    LruCache::new(limit)
}

/// The number of entries in the outside cache.
///
/// The body calls `LruCache::len`, which returns the size of the map.
#[verifier::external_body]
fn index_len(c: &LruCache<NodeRef, usize>) -> (r: usize)
    ensures
        r == lru_entries(*c).len(),
{
    c.len()
}

/// Looks a name up in the outside cache without changing the order of use.
///
/// The body calls `LruCache::peek`, which reads the map and leaves the list
/// of use alone. The contract says that the slot of the name's entry is
/// returned where the name has one, and `None` where it has none.
#[verifier::external_body]
fn index_peek(c: &LruCache<NodeRef, usize>, name: &NodeRef) -> (r: Option<usize>)
    requires
        distinct_names(lru_entries(*c)),
    ensures
        names(lru_entries(*c), name@) ==> r == Some(
            lru_entries(*c)[entry_of(lru_entries(*c), name@)].1,
        ),
        !names(lru_entries(*c), name@) ==> r is None,
{
    c.peek(name).copied()
}

/// Looks a name up in the outside cache and marks its entry as just used.
///
/// The body calls `LruCache::get`, which on a hit detaches the entry from
/// the list of use and attaches it at the head, and on a miss changes
/// nothing. The contract says that: on a hit the slot is returned and the
/// entry moves to the front while the others keep their order; on a miss
/// the answer is `None` and the entries stay as they are.
#[verifier::external_body]
fn index_touch(c: &mut LruCache<NodeRef, usize>, name: &NodeRef) -> (r: Option<usize>)
    requires
        distinct_names(lru_entries(*old(c))),
    ensures
        lru_limit(*final(c)) == lru_limit(*old(c)),
        names(lru_entries(*old(c)), name@) ==> {
            let i = entry_of(lru_entries(*old(c)), name@);
            &&& r == Some(lru_entries(*old(c))[i].1)
            &&& lru_entries(*final(c)) == seq![lru_entries(*old(c))[i]] + lru_entries(
                *old(c),
            ).remove(i)
        },
        !names(lru_entries(*old(c)), name@) ==> r is None && lru_entries(*final(c))
            == lru_entries(*old(c)),
{
    c.get(name).copied()
}

/// Enters a new name with its slot into an outside cache that has room.
///
/// The body calls `LruCache::push`. For a key that the map lacks, in a cache
/// with fewer entries than its bound, that call allocates an entry, attaches
/// it at the head of the list of use and returns `None`. The contract covers
/// that case alone: the new entry stands in front of the old ones.
#[verifier::external_body]
fn index_push(c: &mut LruCache<NodeRef, usize>, name: NodeRef, slot: usize)
    requires
        !names(lru_entries(*old(c)), name@),
        lru_entries(*old(c)).len() < lru_limit(*old(c)),
    ensures
        lru_limit(*final(c)) == lru_limit(*old(c)),
        lru_entries(*final(c)) == seq![(name@, slot)] + lru_entries(*old(c)),
{
    c.push(name, slot);
}

/// Takes the least recently used entry out of the outside cache.
///
/// The body calls `LruCache::pop_lru`, which removes the entry at the tail
/// of the list of use and returns its key and value, or returns `None` for an
/// empty cache. The contract says that the last entry leaves and is returned.
#[verifier::external_body]
fn index_pop_lru(c: &mut LruCache<NodeRef, usize>) -> (r: Option<(NodeRef, usize)>)
    ensures
        lru_limit(*final(c)) == lru_limit(*old(c)),
        lru_entries(*old(c)).len() == 0 ==> r is None && lru_entries(*final(c)) == lru_entries(
            *old(c),
        ),
        lru_entries(*old(c)).len() > 0 ==> {
            &&& r is Some
            &&& (r->Some_0.0@, r->Some_0.1) == lru_entries(*old(c)).last()
            &&& lru_entries(*final(c)) == lru_entries(*old(c)).drop_last()
        },
{
    c.pop_lru()
}

/// Some node of the sequence has the name.
pub open spec fn resident<K, V>(nodes: Seq<NodeState<K, V>>, name: Seq<char>) -> bool {
    exists|i: int| 0 <= i < nodes.len() && (#[trigger] nodes[i]).name == name
}

/// The index of the node that has the name, where there is one.
pub open spec fn rank_of<K, V>(nodes: Seq<NodeState<K, V>>, name: Seq<char>) -> int {
    choose|i: int| 0 <= i < nodes.len() && (#[trigger] nodes[i]).name == name
}

/// The nodes after the one of the given name was used: it stands in front,
/// the others keep their order. Nothing changes where no node has the name.
pub open spec fn promoted<K, V>(nodes: Seq<NodeState<K, V>>, name: Seq<char>) -> Seq<
    NodeState<K, V>,
> {
    if resident(nodes, name) {
        seq![nodes[rank_of(nodes, name)]] + nodes.remove(rank_of(nodes, name))
    } else {
        nodes
    }
}

/// The nodes after `node` came in: it stands in front, and where the cache
/// was full the least recently used node has left.
pub open spec fn entered<K, V>(nodes: Seq<NodeState<K, V>>, node: NodeState<K, V>) -> Seq<
    NodeState<K, V>,
> {
    if nodes.len() >= CACHE_LIMIT {
        seq![node] + nodes.drop_last()
    } else {
        seq![node] + nodes
    }
}

/// The nodes with the record of the one at index `i` replaced.
pub open spec fn with_data<K, V>(
    nodes: Seq<NodeState<K, V>>,
    i: int,
    data: crate::node::NodeView<K, V>,
) -> Seq<NodeState<K, V>> {
    nodes.update(i, NodeState { name: nodes[i].name, data })
}

/// What holds of the nodes of a cache: they are no more than the cache may
/// keep, no two have the same name, none has the root's name, and each
/// satisfies the node invariant.
pub open spec fn cache_wf<K: Ord, V>(nodes: Seq<NodeState<K, V>>) -> bool {
    &&& nodes.len() <= CACHE_LIMIT
    &&& forall|i: int, j: int|
        0 <= i < nodes.len() && 0 <= j < nodes.len() && i != j ==> (#[trigger] nodes[i]).name != (
        #[trigger] nodes[j]).name
    &&& forall|i: int| 0 <= i < nodes.len() ==> (#[trigger] nodes[i]).name != root_name()
    &&& forall|i: int| 0 <= i < nodes.len() ==> (#[trigger] nodes[i]).data.wf()
}

/// The cache of resident nodes other than the root.
pub struct NodeCache<K, V> {
    index: LruCache<NodeRef, usize>,
    slots: Vec<Node<K, V>>,
}

impl<K, V> View for NodeCache<K, V> {
    type V = Seq<NodeState<K, V>>;

    /// The resident nodes, from the most recently used to the least
    /// recently used.
    closed spec fn view(&self) -> Seq<NodeState<K, V>> {
        Seq::new(
            lru_entries(self.index).len(),
            |i: int| self.slots@[lru_entries(self.index)[i].1 as int]@,
        )
    }
}

impl<K: Ord, V> NodeCache<K, V> {
    /// How the index and the slots belong together: every entry of the index
    /// names a slot of its own, and the node in that slot has the entry's
    /// name.
    pub closed spec fn inv(&self) -> bool {
        let entries = lru_entries(self.index);
        &&& lru_limit(self.index) == CACHE_LIMIT
        &&& entries.len() == self.slots@.len()
        &&& forall|i: int| 0 <= i < entries.len() ==> (#[trigger] entries[i]).1 < self.slots@.len()
        &&& forall|i: int, j: int|
            0 <= i < entries.len() && 0 <= j < entries.len() && i != j ==> (#[trigger] entries[i]).1
                != (#[trigger] entries[j]).1
        &&& forall|i: int|
            0 <= i < entries.len() ==> self.slots@[(#[trigger] entries[i]).1 as int]@.name
                == entries[i].0
    }

    /// The cache is consistent and its nodes satisfy [`cache_wf`].
    pub open spec fn wf(&self) -> bool {
        self.inv() && cache_wf(self@)
    }

    proof fn lemma_entries(&self)
        requires
            self.wf(),
        ensures
            self@.len() == lru_entries(self.index).len(),
            distinct_names(lru_entries(self.index)),
            forall|i: int|
                0 <= i < self@.len() ==> (#[trigger] self@[i]).name == lru_entries(self.index)[i].0,
            forall|name: Seq<char>|
                #![trigger resident(self@, name)]
                #![trigger names(lru_entries(self.index), name)]
                resident(self@, name) == names(lru_entries(self.index), name),
            forall|name: Seq<char>|
                #![trigger rank_of(self@, name)]
                #![trigger entry_of(lru_entries(self.index), name)]
                resident(self@, name) ==> rank_of(self@, name) == entry_of(
                    lru_entries(self.index),
                    name,
                ),
    {
        let entries = lru_entries(self.index);
        let nodes = self@;
        assert forall|i: int| 0 <= i < nodes.len() implies (#[trigger] nodes[i]).name
            == entries[i].0 by {
            assert(entries[i].1 < self.slots@.len());
        }
        assert forall|i: int, j: int|
            0 <= i < entries.len() && 0 <= j < entries.len() && i != j implies (
        #[trigger] entries[i]).0 != (#[trigger] entries[j]).0 by {
            assert(nodes[i].name != nodes[j].name);
        }
        assert forall|name: Seq<char>|
            #![trigger resident(nodes, name)]
            #![trigger names(entries, name)]
            resident(nodes, name) == names(entries, name) by {
            if resident(nodes, name) {
                let i = rank_of(nodes, name);
                assert(entries[i].0 == name);
            }
            if names(entries, name) {
                let i = entry_of(entries, name);
                assert(nodes[i].name == name);
            }
        }
        assert forall|name: Seq<char>|
            #![trigger rank_of(nodes, name)]
            #![trigger entry_of(entries, name)]
            resident(nodes, name) implies rank_of(nodes, name) == entry_of(entries, name) by {
            let i = rank_of(nodes, name);
            assert(entries[i].0 == name);
            let j = entry_of(entries, name);
            assert(nodes[j].name == name);
            if i != j {
                assert(nodes[i].name != nodes[j].name);
            }
        }
    }

    /// An empty cache.
    pub fn new() -> (cache: Self)
        ensures
            cache.wf(),
            cache@ == Seq::<NodeState<K, V>>::empty(),
    {
        let cache = NodeCache { index: index_new(CACHE_LIMIT), slots: Vec::new() };
        proof {
            assert(cache@ =~= Seq::<NodeState<K, V>>::empty());
        }
        cache
    }

    /// The number of resident nodes.
    pub fn len(&self) -> (r: usize)
        requires
            self.wf(),
        ensures
            r == self@.len(),
    {
        index_len(&self.index)
    }

    /// Whether a node of the given name is resident. The order of use stays
    /// as it is.
    pub fn contains(&self, name: &NodeRef) -> (r: bool)
        requires
            self.wf(),
        ensures
            r == resident(self@, name@),
    {
        proof {
            self.lemma_entries();
        }
        index_peek(&self.index, name).is_some()
    }

    /// The resident node of the given name, if there is one. The order of
    /// use stays as it is.
    pub fn get(&self, name: &NodeRef) -> (r: Option<&Node<K, V>>)
        requires
            self.wf(),
        ensures
            match r {
                Some(node) => resident(self@, name@) && node@ == self@[rank_of(self@, name@)]
                    && node.wf(),
                None => !resident(self@, name@),
            },
    {
        proof {
            self.lemma_entries();
        }
        match index_peek(&self.index, name) {
            Some(slot) => {
                proof {
                    let i = entry_of(lru_entries(self.index), name@);
                    assert(lru_entries(self.index)[i].1 == slot);
                    assert(self@[i] == self.slots@[slot as int]@);
                }
                Some(&self.slots[slot])
            },
            None => None,
        }
    }

    /// Marks the node of the given name as just used and says whether there
    /// is such a node.
    pub fn touch(&mut self, name: &NodeRef) -> (r: bool)
        requires
            old(self).wf(),
        ensures
            final(self).wf(),
            r == resident(old(self)@, name@),
            final(self)@ == promoted(old(self)@, name@),
    {
        proof {
            self.lemma_entries();
        }
        let ghost before = lru_entries(self.index);
        let found = index_touch(&mut self.index, name);
        proof {
            let after = lru_entries(self.index);
            if found is Some {
                let i = entry_of(before, name@);
                assert(rank_of(old(self)@, name@) == i);
                assert forall|k: int| 0 <= k < after.len() implies #[trigger] after[k] == before[if k
                    == 0 {
                    i
                } else if k <= i {
                    k - 1
                } else {
                    k
                }] by {}
                assert(self@ =~= promoted(old(self)@, name@));
                assert(self.inv());
                assert(cache_wf(self@));
            } else {
                assert(self@ =~= old(self)@);
            }
        }
        found.is_some()
    }

    /// Takes a node in as the most recently used one. Where the cache is
    /// full, the least recently used node leaves and is returned; it is not
    /// written anywhere.
    #[verifier::rlimit(50)]
    pub fn insert(&mut self, node: Node<K, V>) -> (evicted: Option<Node<K, V>>)
        requires
            old(self).wf(),
            node.wf(),
            node@.name != root_name(),
            !resident(old(self)@, node@.name),
        ensures
            final(self).wf(),
            final(self)@ == entered(old(self)@, node@),
            match evicted {
                Some(e) => old(self)@.len() == CACHE_LIMIT && e@ == old(self)@.last() && e.wf(),
                None => old(self)@.len() < CACHE_LIMIT,
            },
    {
        proof {
            self.lemma_entries();
        }
        let ghost before = lru_entries(self.index);
        let ghost slots_before = self.slots@;
        let name = node.name().clone();
        if self.slots.len() < CACHE_LIMIT {
            let slot = self.slots.len();
            self.slots.push(node);
            index_push(&mut self.index, name, slot);
            proof {
                let after = lru_entries(self.index);
                assert forall|k: int| 0 < k < after.len() implies #[trigger] after[k] == before[k
                    - 1] by {}
                assert forall|k: int| 0 <= k < after.len() implies (#[trigger] after[k]).1
                    < self.slots@.len() by {
                    if k > 0 {
                        assert(before[k - 1].1 < slots_before.len());
                    }
                }
                assert forall|i: int, j: int|
                    0 <= i < after.len() && 0 <= j < after.len() && i != j implies (
                #[trigger] after[i]).1 != (#[trigger] after[j]).1 by {
                    if i > 0 {
                        assert(before[i - 1].1 < slots_before.len());
                    }
                    if j > 0 {
                        assert(before[j - 1].1 < slots_before.len());
                    }
                }
                assert forall|k: int| 0 <= k < after.len() implies self.slots@[(
                #[trigger] after[k]).1 as int]@.name == after[k].0 by {
                    if k > 0 {
                        assert(before[k - 1].1 < slots_before.len());
                    }
                }
                assert(self@ =~= entered(old(self)@, node@)) by {
                    assert forall|k: int| 0 < k < self@.len() implies #[trigger] self@[k] == old(
                        self,
                    )@[k - 1] by {
                        assert(before[k - 1].1 < slots_before.len());
                    }
                }
                lemma_entered_wf(old(self)@, node@);
            }
            None
        } else {
            let popped = index_pop_lru(&mut self.index);
            match popped {
                Some((_, slot)) => {
                    proof {
                        assert(before.last().1 == slot);
                        assert(before[before.len() - 1].1 < slots_before.len());
                    }
                    let ghost middle = lru_entries(self.index);
                    let mut out = node;
                    core::mem::swap(&mut self.slots[slot], &mut out);
                    proof {
                        assert(!names(middle, name@)) by {
                            if names(middle, name@) {
                                let i = entry_of(middle, name@);
                                assert(before[i].0 == name@);
                            }
                        }
                    }
                    index_push(&mut self.index, name, slot);
                    proof {
                        let after = lru_entries(self.index);
                        let last = before.len() - 1;
                        assert forall|k: int| 0 < k < after.len() implies #[trigger] after[k]
                            == before[k - 1] by {}
                        assert forall|k: int| 0 <= k < after.len() implies (#[trigger] after[k]).1
                            < self.slots@.len() by {
                            if k > 0 {
                                assert(before[k - 1].1 < slots_before.len());
                            }
                        }
                        assert forall|i: int, j: int|
                            0 <= i < after.len() && 0 <= j < after.len() && i != j implies (
                        #[trigger] after[i]).1 != (#[trigger] after[j]).1 by {
                            if i > 0 && j > 0 {
                                assert(before[i - 1].1 != before[j - 1].1);
                            } else if i > 0 {
                                assert(before[i - 1].1 != before[last].1);
                            } else {
                                assert(before[j - 1].1 != before[last].1);
                            }
                        }
                        assert forall|k: int| 0 <= k < after.len() implies self.slots@[(
                        #[trigger] after[k]).1 as int]@.name == after[k].0 by {
                            if k > 0 {
                                assert(before[k - 1].1 != before[last].1);
                                assert(before[k - 1].1 < slots_before.len());
                            }
                        }
                        assert(self@ =~= entered(old(self)@, node@)) by {
                            assert forall|k: int| 0 < k < self@.len() implies #[trigger] self@[k]
                                == old(self)@[k - 1] by {
                                assert(before[k - 1].1 != before[last].1);
                                assert(before[k - 1].1 < slots_before.len());
                            }
                        }
                        assert(out@ == old(self)@.last());
                        lemma_entered_wf(old(self)@, node@);
                    }
                    Some(out)
                },
                None => {
                    proof {
                        assert(false);
                    }
                    None
                },
            }
        }
    }
}

impl<K: Ord, V> NodeCache<K, V> {
    /// The slot of the resident node of the given name.
    fn slot_of(&self, name: &NodeRef) -> (r: Option<usize>)
        requires
            self.wf(),
        ensures
            match r {
                Some(slot) => {
                    &&& resident(self@, name@)
                    &&& slot < self.slots@.len()
                    &&& lru_entries(self.index)[rank_of(self@, name@)].1 == slot
                    &&& self.slots@[slot as int]@ == self@[rank_of(self@, name@)]
                },
                None => !resident(self@, name@),
            },
    {
        proof {
            self.lemma_entries();
        }
        let found = index_peek(&self.index, name);
        proof {
            if found is Some {
                let i = entry_of(lru_entries(self.index), name@);
                assert(lru_entries(self.index)[i].1 < self.slots@.len());
            }
        }
        found
    }

    /// What changing the node in one slot does to the view: the node at the
    /// rank of that slot changes, the others stay.
    proof fn lemma_slot_changed(&self, before: &Self, rank: int)
        requires
            before.wf(),
            0 <= rank < before@.len(),
            self.index == before.index,
            self.slots@.len() == before.slots@.len(),
            forall|s: int|
                0 <= s < self.slots@.len() && s != lru_entries(before.index)[rank].1
                    ==> self.slots@[s] == before.slots@[s],
            self.slots@[lru_entries(before.index)[rank].1 as int]@.name == before@[rank].name,
            self.slots@[lru_entries(before.index)[rank].1 as int]@.data.wf(),
        ensures
            self.wf(),
            self@ == with_data(
                before@,
                rank,
                self.slots@[lru_entries(before.index)[rank].1 as int]@.data,
            ),
    {
        let entries = lru_entries(before.index);
        let slot = entries[rank].1;
        assert(slot < before.slots@.len());
        let target = with_data(before@, rank, self.slots@[slot as int]@.data);
        assert forall|k: int| 0 <= k < self@.len() implies #[trigger] self@[k] == target[k] by {
            assert(entries[k].1 < before.slots@.len());
            if k != rank {
                assert(entries[k].1 != entries[rank].1);
            }
        }
        assert(self@ =~= target);
        assert forall|k: int| 0 <= k < entries.len() implies self.slots@[(
        #[trigger] entries[k]).1 as int]@.name == entries[k].0 by {
            assert(entries[k].1 < before.slots@.len());
            if k != rank {
                assert(entries[k].1 != entries[rank].1);
            } else {
                assert(before.slots@[entries[k].1 as int]@ == before@[k]);
            }
        }
        assert forall|k: int| 0 <= k < self@.len() implies (#[trigger] self@[k]).name
            == before@[k].name by {}
        assert forall|i: int, j: int|
            0 <= i < self@.len() && 0 <= j < self@.len() && i != j implies (#[trigger] self@[i]).name
            != (#[trigger] self@[j]).name by {
            assert(before@[i].name != before@[j].name);
        }
        assert forall|i: int| 0 <= i < self@.len() implies (#[trigger] self@[i]).name
            != root_name() by {
            assert(before@[i].name != root_name());
        }
        assert forall|i: int| 0 <= i < self@.len() implies (#[trigger] self@[i]).data.wf() by {
            if i != rank {
                assert(before@[i].data.wf());
            }
        }
    }

    /// Stores `value` under `key` in the resident node of the given name, as
    /// [`crate::node::NodeData::insert`] does, and returns the value that the
    /// key had. The order of use stays as it is.
    pub fn put(&mut self, name: &NodeRef, key: K, value: V) -> (previous: Option<V>)
        requires
            total_order::<K>(),
            old(self).wf(),
            resident(old(self)@, name@),
            ({
                let node = old(self)@[rank_of(old(self)@, name@)].data;
                node.has(key) || (node.is_leaf() && !node.is_full())
            }),
        ensures
            final(self).wf(),
            ({
                let i = rank_of(old(self)@, name@);
                &&& previous == old(self)@[i].data.get(key)
                &&& final(self)@ == with_data(old(self)@, i, old(self)@[i].data.put(key, value))
            }),
    {
        let ghost before = *self;
        let ghost rank = rank_of(self@, name@);
        match self.slot_of(name) {
            Some(slot) => {
                proof {
                    assert(self@[rank].data.wf());
                }
                let previous = self.slots[slot].insert(key, value);
                proof {
                    self.lemma_slot_changed(&before, rank);
                }
                previous
            },
            None => None,
        }
    }

    /// Lets the resident node of the given name take in the median of a
    /// split child, as [`crate::node::NodeData::absorb`] does. The order of
    /// use stays as it is.
    pub fn absorb(&mut self, name: &NodeRef, key: K, value: V, right: NodeRef)
        requires
            total_order::<K>(),
            old(self).wf(),
            resident(old(self)@, name@),
            ({
                let node = old(self)@[rank_of(old(self)@, name@)].data;
                !node.is_leaf() && !node.is_full() && !node.has(key)
            }),
        ensures
            final(self).wf(),
            ({
                let i = rank_of(old(self)@, name@);
                final(self)@ == with_data(
                    old(self)@,
                    i,
                    old(self)@[i].data.absorb(key, value, right@),
                )
            }),
    {
        let ghost before = *self;
        let ghost rank = rank_of(self@, name@);
        match self.slot_of(name) {
            Some(slot) => {
                proof {
                    assert(self@[rank].data.wf());
                }
                self.slots[slot].absorb(key, value, right);
                proof {
                    self.lemma_slot_changed(&before, rank);
                }
            },
            None => {},
        }
    }

    /// Splits the full resident node of the given name at its median. The
    /// lower half stays in the cache under the same name; the upper half is
    /// returned as a new node named `other`, with the median key and value.
    /// The order of use stays as it is.
    pub fn split(&mut self, name: &NodeRef, other: NodeRef) -> (r: (K, V, Node<K, V>))
        requires
            old(self).wf(),
            resident(old(self)@, name@),
            old(self)@[rank_of(old(self)@, name@)].data.is_full(),
        ensures
            final(self).wf(),
            ({
                let i = rank_of(old(self)@, name@);
                let node = old(self)@[i].data;
                &&& r.0 == node.keys[node.median()]
                &&& r.1 == node.values[node.median()]
                &&& r.2@ == (NodeState { name: other@, data: node.upper_half() })
                &&& r.2.wf()
                &&& final(self)@ == with_data(old(self)@, i, node.lower_half())
            }),
    {
        let ghost before = *self;
        let ghost rank = rank_of(self@, name@);
        match self.slot_of(name) {
            Some(slot) => {
                proof {
                    assert(self@[rank].data.wf());
                }
                let r = self.slots[slot].split(other);
                proof {
                    self.lemma_slot_changed(&before, rank);
                }
                r
            },
            None => vstd::pervasive::unreached(),
        }
    }
}

/// Nodes that satisfy [`cache_wf`] still do after a node with a name of its
/// own, other than the root's, came in.
pub proof fn lemma_entered_wf<K: Ord, V>(nodes: Seq<NodeState<K, V>>, node: NodeState<K, V>)
    requires
        cache_wf(nodes),
        node.data.wf(),
        node.name != root_name(),
        !resident(nodes, node.name),
    ensures
        cache_wf(entered(nodes, node)),
        resident(entered(nodes, node), node.name),
        rank_of(entered(nodes, node), node.name) == 0,
{
    let after = entered(nodes, node);
    assert forall|k: int| 0 < k < after.len() implies #[trigger] after[k] == nodes[k - 1] by {}
    assert forall|i: int, j: int|
        0 <= i < after.len() && 0 <= j < after.len() && i != j implies (#[trigger] after[i]).name
        != (#[trigger] after[j]).name by {
        if i > 0 && j > 0 {
            assert(nodes[i - 1].name != nodes[j - 1].name);
        } else if i > 0 {
            assert(nodes[i - 1].name != node.name);
        } else {
            assert(nodes[j - 1].name != node.name);
        }
    }
    assert forall|i: int| 0 <= i < after.len() implies (#[trigger] after[i]).name
        != root_name() by {
        if i > 0 {
            assert(nodes[i - 1].name != root_name());
        }
    }
    assert forall|i: int| 0 <= i < after.len() implies (#[trigger] after[i]).data.wf() by {
        if i > 0 {
            assert(nodes[i - 1].data.wf());
        }
    }
    assert(after[0].name == node.name);
}

/// In a cache no two nodes share a name, so the node at an index is the one
/// that its name finds.
pub proof fn lemma_rank<K: Ord, V>(nodes: Seq<NodeState<K, V>>, i: int)
    requires
        cache_wf(nodes),
        0 <= i < nodes.len(),
    ensures
        resident(nodes, nodes[i].name),
        rank_of(nodes, nodes[i].name) == i,
{
    let j = rank_of(nodes, nodes[i].name);
    if i != j {
        assert(nodes[i].name != nodes[j].name);
    }
}

/// A node that is not the least recently used one of a full cache stays
/// when another comes in, one place further back.
pub proof fn lemma_entered_keeps<K: Ord, V>(
    nodes: Seq<NodeState<K, V>>,
    node: NodeState<K, V>,
    i: int,
)
    requires
        cache_wf(nodes),
        node.data.wf(),
        node.name != root_name(),
        !resident(nodes, node.name),
        0 <= i < nodes.len(),
        i < CACHE_LIMIT - 1,
    ensures
        entered(nodes, node)[i + 1] == nodes[i],
        resident(entered(nodes, node), nodes[i].name),
        rank_of(entered(nodes, node), nodes[i].name) == i + 1,
{
    lemma_entered_wf(nodes, node);
    let after = entered(nodes, node);
    assert(after[i + 1] == nodes[i]);
    lemma_rank(after, i + 1);
}

/// Using a node leaves the cache well-formed, puts that node in front and
/// keeps every other node resident.
pub proof fn lemma_promoted<K: Ord, V>(nodes: Seq<NodeState<K, V>>, name: Seq<char>)
    requires
        cache_wf(nodes),
    ensures
        cache_wf(promoted(nodes, name)),
        promoted(nodes, name).len() == nodes.len(),
        forall|other: Seq<char>|
            #![trigger resident(promoted(nodes, name), other)]
            resident(promoted(nodes, name), other) == resident(nodes, other),
        forall|other: Seq<char>|
            #![trigger rank_of(promoted(nodes, name), other)]
            resident(nodes, other) ==> promoted(nodes, name)[rank_of(
                promoted(nodes, name),
                other,
            )] == nodes[rank_of(nodes, other)],
        resident(nodes, name) ==> rank_of(promoted(nodes, name), name) == 0,
        forall|other: Seq<char>|
            #![trigger rank_of(promoted(nodes, name), other)]
            resident(nodes, name) && resident(nodes, other) && other != name ==> rank_of(
                promoted(nodes, name),
                other,
            ) <= rank_of(nodes, other) + 1,
{
    if resident(nodes, name) {
        let i = rank_of(nodes, name);
        let after = promoted(nodes, name);
        let from = |k: int|
            if k == 0 {
                i
            } else if k <= i {
                k - 1
            } else {
                k
            };
        assert forall|k: int| 0 <= k < after.len() implies #[trigger] after[k] == nodes[from(
            k,
        )] by {}
        assert forall|a: int, b: int|
            0 <= a < after.len() && 0 <= b < after.len() && a != b implies (#[trigger] after[a]).name
            != (#[trigger] after[b]).name by {
            assert(nodes[from(a)].name != nodes[from(b)].name);
        }
        assert forall|a: int| 0 <= a < after.len() implies (#[trigger] after[a]).name
            != root_name() by {
            assert(nodes[from(a)].name != root_name());
        }
        assert forall|a: int| 0 <= a < after.len() implies (#[trigger] after[a]).data.wf() by {
            assert(nodes[from(a)].data.wf());
        }
        assert forall|other: Seq<char>|
            #![trigger resident(after, other)]
            resident(after, other) == resident(nodes, other) by {
            if resident(after, other) {
                let k = rank_of(after, other);
                assert(nodes[from(k)].name == other);
            }
            if resident(nodes, other) {
                let j = rank_of(nodes, other);
                let k = if j == i {
                    0
                } else if j < i {
                    j + 1
                } else {
                    j
                };
                assert(after[k].name == other);
            }
        }
        assert forall|other: Seq<char>|
            #![trigger rank_of(after, other)]
            resident(nodes, other) implies after[rank_of(after, other)] == nodes[rank_of(
            nodes,
            other,
        )] && (other != name ==> rank_of(after, other) <= rank_of(nodes, other) + 1) by {
            let j = rank_of(nodes, other);
            let k = if j == i {
                0
            } else if j < i {
                j + 1
            } else {
                j
            };
            assert(after[k].name == other);
            lemma_rank(after, k);
        }
        assert(after[0].name == name);
        lemma_rank(after, 0);
    }
}

/// Replacing the record of a node by one that satisfies the node invariant
/// leaves the cache well-formed and every name where it was.
pub proof fn lemma_with_data<K: Ord, V>(
    nodes: Seq<NodeState<K, V>>,
    i: int,
    data: crate::node::NodeView<K, V>,
)
    requires
        cache_wf(nodes),
        0 <= i < nodes.len(),
        data.wf(),
    ensures
        cache_wf(with_data(nodes, i, data)),
        forall|other: Seq<char>|
            #![trigger resident(with_data(nodes, i, data), other)]
            resident(with_data(nodes, i, data), other) == resident(nodes, other),
        forall|other: Seq<char>|
            #![trigger rank_of(with_data(nodes, i, data), other)]
            resident(nodes, other) ==> rank_of(with_data(nodes, i, data), other) == rank_of(
                nodes,
                other,
            ),
{
    let after = with_data(nodes, i, data);
    assert forall|k: int| 0 <= k < after.len() implies (#[trigger] after[k]).name
        == nodes[k].name by {}
    assert forall|a: int, b: int|
        0 <= a < after.len() && 0 <= b < after.len() && a != b implies (#[trigger] after[a]).name
        != (#[trigger] after[b]).name by {
        assert(nodes[a].name != nodes[b].name);
    }
    assert forall|a: int| 0 <= a < after.len() implies (#[trigger] after[a]).name
        != root_name() by {
        assert(nodes[a].name != root_name());
    }
    assert forall|a: int| 0 <= a < after.len() implies (#[trigger] after[a]).data.wf() by {
        if a != i {
            assert(nodes[a].data.wf());
        }
    }
    assert forall|other: Seq<char>|
        #![trigger resident(after, other)]
        resident(after, other) == resident(nodes, other) by {
        if resident(after, other) {
            let k = rank_of(after, other);
            assert(nodes[k].name == other);
        }
        if resident(nodes, other) {
            let k = rank_of(nodes, other);
            assert(after[k].name == other);
        }
    }
    assert forall|other: Seq<char>|
        #![trigger rank_of(after, other)]
        resident(nodes, other) implies rank_of(after, other) == rank_of(nodes, other) by {
        let k = rank_of(nodes, other);
        assert(after[k].name == other);
        lemma_rank(after, k);
    }
}

/// A node that is resident after another came in, and is not that other,
/// was resident before and is as it was.
pub proof fn lemma_entered_back<K: Ord, V>(
    nodes: Seq<NodeState<K, V>>,
    node: NodeState<K, V>,
    name: Seq<char>,
)
    requires
        cache_wf(nodes),
        node.data.wf(),
        node.name != root_name(),
        !resident(nodes, node.name),
        resident(entered(nodes, node), name),
        name != node.name,
    ensures
        resident(nodes, name),
        entered(nodes, node)[rank_of(entered(nodes, node), name)] == nodes[rank_of(nodes, name)],
{
    let after = entered(nodes, node);
    let k = rank_of(after, name);
    assert(k > 0);
    assert(after[k] == nodes[k - 1]);
    lemma_rank(nodes, k - 1);
}

/// Replacing the record of one node leaves every other node as it was.
pub proof fn lemma_with_data_other<K: Ord, V>(
    nodes: Seq<NodeState<K, V>>,
    i: int,
    data: crate::node::NodeView<K, V>,
    name: Seq<char>,
)
    requires
        cache_wf(nodes),
        0 <= i < nodes.len(),
        data.wf(),
        resident(nodes, name),
        name != nodes[i].name,
    ensures
        resident(with_data(nodes, i, data), name),
        with_data(nodes, i, data)[rank_of(with_data(nodes, i, data), name)] == nodes[rank_of(
            nodes,
            name,
        )],
{
    lemma_with_data(nodes, i, data);
    let k = rank_of(nodes, name);
    assert(k != i);
}

} // verus!
