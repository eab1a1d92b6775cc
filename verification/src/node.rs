//! The record of one node: ordered keys, their values, and, for an internal
//! node, the references to its children.

use crate::names::{names_of, NodeRef};
use crate::order::{compare, key_lt, lemma_trichotomy, strictly_increasing, total_order, KeyOrder};
use vstd::prelude::*;

verus! {

/// What a node holds, as mathematical sequences.
pub struct NodeView<K, V> {
    /// The keys, in order.
    pub keys: Seq<K>,
    /// `values[i]` belongs to `keys[i]`.
    pub values: Seq<V>,
    /// Absent in a leaf. In an internal node `children[i]` names the subtree
    /// of the keys between `keys[i - 1]` and `keys[i]`.
    pub children: Option<Seq<Seq<char>>>,
    /// The number of keys the node may hold.
    pub capacity: nat,
}

/// Where a search for a key goes on from a node.
pub enum Route<V> {
    /// The node holds the key with this value.
    Found(V),
    /// The node is a leaf and lacks the key.
    Absent,
    /// The node lacks the key, which belongs to the subtree of this child.
    Enter(Seq<char>),
}

/// `i` is the place of `key` among `keys`: every key before `i` is before
/// `key`, and `key` is before every key from `i` on.
pub open spec fn is_place<K: Ord>(keys: Seq<K>, key: K, i: int) -> bool {
    &&& 0 <= i <= keys.len()
    &&& forall|j: int| 0 <= j < i ==> key_lt(#[trigger] keys[j], key)
    &&& forall|j: int| i <= j < keys.len() ==> key_lt(key, #[trigger] keys[j])
}

impl<K: Ord, V> NodeView<K, V> {
    /// The invariant of a node: an odd capacity above three, as many values
    /// as keys, no more keys than the capacity, keys strictly increasing, and
    /// in an internal node one child more than keys.
    pub open spec fn wf(self) -> bool {
        &&& self.capacity % 2 == 1
        &&& self.capacity > 3
        &&& self.capacity <= usize::MAX
        &&& self.keys.len() == self.values.len()
        &&& self.keys.len() <= self.capacity
        &&& strictly_increasing(self.keys)
        &&& self.children matches Some(c) ==> c.len() == self.keys.len() + 1
    }

    /// The node has no children.
    pub open spec fn is_leaf(self) -> bool {
        self.children is None
    }

    /// The node holds as many keys as it may.
    pub open spec fn is_full(self) -> bool {
        self.keys.len() == self.capacity
    }

    /// The node holds `key`.
    pub open spec fn has(self, key: K) -> bool {
        exists|i: int| 0 <= i < self.keys.len() && self.keys[i] == key
    }

    /// The index at which the node holds `key`, where it holds it.
    pub open spec fn index_of(self, key: K) -> int {
        choose|i: int| 0 <= i < self.keys.len() && self.keys[i] == key
    }

    /// The place at which `key` would enter the node, where it is absent.
    pub open spec fn place_of(self, key: K) -> int {
        choose|i: int| is_place(self.keys, key, i)
    }

    /// The value stored under `key`, if any.
    pub open spec fn get(self, key: K) -> Option<V> {
        if self.has(key) {
            Some(self.values[self.index_of(key)])
        } else {
            None
        }
    }

    /// The node after `value` was stored under `key`: the value replaced where
    /// the key is present, key and value entered at the key's place where it
    /// is not.
    pub open spec fn put(self, key: K, value: V) -> Self {
        if self.has(key) {
            NodeView { values: self.values.update(self.index_of(key), value), ..self }
        } else {
            NodeView {
                keys: self.keys.insert(self.place_of(key), key),
                values: self.values.insert(self.place_of(key), value),
                ..self
            }
        }
    }

    /// Where a search for `key` goes on from this node: to the value where
    /// the node holds the key, nowhere where a leaf lacks it, and else into
    /// the child at the key's place.
    pub open spec fn route(self, key: K) -> Route<V> {
        if self.has(key) {
            Route::Found(self.values[self.index_of(key)])
        } else if self.is_leaf() {
            Route::Absent
        } else {
            Route::Enter(self.children->Some_0[self.place_of(key)])
        }
    }

    /// The index of the key that a split of this node sends upward.
    pub open spec fn median(self) -> int {
        self.capacity as int / 2
    }

    /// What stays in a full node when it is split: the keys before the median
    /// with their values, and the children up to the one left of the median.
    pub open spec fn lower_half(self) -> Self {
        NodeView {
            keys: self.keys.subrange(0, self.median()),
            values: self.values.subrange(0, self.median()),
            children: match self.children {
                Some(c) => Some(c.subrange(0, self.median() + 1)),
                None => None,
            },
            capacity: self.capacity,
        }
    }

    /// What moves to the new sibling when a full node is split: the keys
    /// after the median with their values, and the children from the one
    /// right of the median on.
    pub open spec fn upper_half(self) -> Self {
        NodeView {
            keys: self.keys.subrange(self.median() + 1, self.keys.len() as int),
            values: self.values.subrange(self.median() + 1, self.values.len() as int),
            children: match self.children {
                Some(c) => Some(c.subrange(self.median() + 1, c.len() as int)),
                None => None,
            },
            capacity: self.capacity,
        }
    }

    /// The node after it took in the median of a split child: `key` and
    /// `value` enter at the key's place, and `right`, the new sibling, becomes
    /// the child just after them.
    pub open spec fn absorb(self, key: K, value: V, right: Seq<char>) -> Self {
        NodeView {
            keys: self.keys.insert(self.place_of(key), key),
            values: self.values.insert(self.place_of(key), value),
            children: match self.children {
                Some(c) => Some(c.insert(self.place_of(key) + 1, right)),
                None => None,
            },
            capacity: self.capacity,
        }
    }
}

/// The record that the given parts make up.
pub open spec fn parts_view<K, V>(
    keys: Seq<K>,
    values: Seq<V>,
    children: Option<Seq<NodeRef>>,
    capacity: usize,
) -> NodeView<K, V> {
    NodeView {
        keys,
        values,
        children: match children {
            Some(c) => Some(names_of(c)),
            None => None,
        },
        capacity: capacity as nat,
    }
}

/// The in-memory record of one node.
pub struct NodeData<K, V> {
    keys: Vec<K>,
    values: Vec<V>,
    children: Option<Vec<NodeRef>>,
    capacity: usize,
}

impl<K, V> View for NodeData<K, V> {
    type V = NodeView<K, V>;

    closed spec fn view(&self) -> NodeView<K, V> {
        NodeView {
            keys: self.keys@,
            values: self.values@,
            children: match self.children {
                Some(c) => Some(names_of(c@)),
                None => None,
            },
            capacity: self.capacity as nat,
        }
    }
}

/// The signal that a node has no room for a new key.
#[derive(Debug)]
pub struct NeedsSplit;

impl<K: Ord, V> NodeData<K, V> {
    /// The node satisfies the invariant of [`NodeView::wf`].
    pub open spec fn wf(&self) -> bool {
        self@.wf()
    }

    /// An empty leaf that may hold `capacity` keys.
    pub fn new(capacity: usize) -> (node: Self)
        requires
            capacity % 2 == 1,
            capacity > 3,
        ensures
            node.wf(),
            node@ == (NodeView::<K, V> {
                keys: Seq::empty(),
                values: Seq::empty(),
                children: None,
                capacity: capacity as nat,
            }),
    {
        NodeData { keys: Vec::new(), values: Vec::new(), children: None, capacity }
    }

    /// Whether the node is a leaf.
    pub fn is_leaf(&self) -> (r: bool)
        ensures
            r == self@.is_leaf(),
    {
        self.children.is_none()
    }

    /// Whether the node is full, so that it must be split before a new key
    /// can enter.
    pub fn is_full(&self) -> (r: bool)
        ensures
            r == self@.is_full(),
    {
        self.keys.len() == self.capacity
    }

    /// The number of keys the node may hold.
    pub fn capacity(&self) -> (r: usize)
        ensures
            r == self@.capacity,
            r == self.spec_capacity(),
    {
        self.capacity
    }

    /// The number of keys the node holds.
    pub fn len(&self) -> (r: usize)
        ensures
            r == self@.keys.len(),
    {
        self.keys.len()
    }

    /// Looks for `key` by binary search. `Ok(i)` says that the node holds the
    /// key at index `i`; `Err(i)` that it is absent and that `i` is its place.
    pub fn search(&self, key: &K) -> (r: Result<usize, usize>)
        requires
            total_order::<K>(),
            self.wf(),
        ensures
            match r {
                Ok(i) => {
                    &&& self@.has(*key)
                    &&& i == self@.index_of(*key)
                    &&& i < self@.keys.len()
                    &&& self@.keys[i as int] == *key
                },
                Err(i) => {
                    &&& !self@.has(*key)
                    &&& i == self@.place_of(*key)
                    &&& is_place(self@.keys, *key, i as int)
                },
            },
    {
        let mut lo: usize = 0;
        let mut hi: usize = self.keys.len();
        while lo < hi
            invariant
                total_order::<K>(),
                self.wf(),
                0 <= lo <= hi <= self.keys@.len(),
                forall|j: int| 0 <= j < lo ==> key_lt(#[trigger] self.keys@[j], *key),
                forall|j: int| hi <= j < self.keys@.len() ==> key_lt(*key, #[trigger] self.keys@[j]),
            decreases hi - lo,
        {
            let mid: usize = lo + (hi - lo) / 2;
            match compare(&self.keys[mid], key) {
                KeyOrder::Same => {
                    proof {
                        lemma_index_unique(self@, *key, mid as int);
                    }
                    return Ok(mid);
                },
                KeyOrder::Before => {
                    proof {
                        lemma_before_extends(self.keys@, *key, mid as int);
                    }
                    lo = mid + 1;
                },
                KeyOrder::After => {
                    proof {
                        lemma_after_extends(self.keys@, *key, mid as int);
                    }
                    hi = mid;
                },
            }
        }
        proof {
            assert(is_place(self@.keys, *key, lo as int));
            lemma_place_unique(self@, *key, lo as int);
        }
        Err(lo)
    }

    /// The value stored under `key`, if the node holds the key.
    pub fn get(&self, key: &K) -> (r: Option<&V>)
        requires
            total_order::<K>(),
            self.wf(),
        ensures
            match r {
                Some(v) => self@.get(*key) == Some(*v),
                None => self@.get(*key) is None,
            },
    {
        match self.search(key) {
            Ok(idx) => Some(&self.values[idx]),
            Err(_) => None,
        }
    }

    /// Stores `value` under `key` and returns the value that the key had.
    ///
    /// A key that the node already holds keeps its place and gets the new
    /// value. A new key enters at its place; for that the node must be a leaf
    /// with room left.
    pub fn insert(&mut self, key: K, value: V) -> (previous: Option<V>)
        requires
            total_order::<K>(),
            old(self).wf(),
            old(self)@.has(key) || (old(self)@.is_leaf() && !old(self)@.is_full()),
        ensures
            final(self).wf(),
            final(self)@ == old(self)@.put(key, value),
            previous == old(self)@.get(key),
    {
        match self.search(&key) {
            Ok(idx) => {
                let mut previous = value;
                core::mem::swap(&mut previous, &mut self.values[idx]);
                Some(previous)
            },
            Err(idx) => {
                proof {
                    lemma_put_keeps_order(self.keys@, key, idx as int);
                }
                self.keys.insert(idx, key);
                self.values.insert(idx, value);
                None
            },
        }
    }

    /// Stores `value` under `key` unless that would take a key more than the
    /// node may hold; then nothing changes and the answer is `NeedsSplit`.
    pub fn insert_if_space(&mut self, key: K, value: V) -> (r: Result<(), NeedsSplit>)
        requires
            total_order::<K>(),
            old(self).wf(),
            old(self)@.has(key) || old(self)@.is_leaf(),
        ensures
            final(self).wf(),
            r is Err <==> !old(self)@.has(key) && old(self)@.is_full(),
            r is Err ==> final(self)@ == old(self)@,
            r is Ok ==> final(self)@ == old(self)@.put(key, value),
    {
        match self.search(&key) {
            Ok(idx) => {
                let mut previous = value;
                core::mem::swap(&mut previous, &mut self.values[idx]);
                Ok(())
            },
            Err(idx) => {
                if self.is_full() {
                    Err(NeedsSplit)
                } else {
                    proof {
                        lemma_put_keeps_order(self.keys@, key, idx as int);
                    }
                    self.keys.insert(idx, key);
                    self.values.insert(idx, value);
                    Ok(())
                }
            },
        }
    }

    /// Splits a full node at its median. The keys after the median move to a
    /// new sibling of the same capacity, with their values and the children
    /// right of the median; the median key and its value leave the node and
    /// are returned with the sibling.
    pub fn split(&mut self) -> (r: (K, V, Self))
        requires
            old(self).wf(),
            old(self)@.is_full(),
        ensures
            r.0 == old(self)@.keys[old(self)@.median()],
            r.1 == old(self)@.values[old(self)@.median()],
            final(self)@ == old(self)@.lower_half(),
            r.2@ == old(self)@.upper_half(),
            final(self).wf(),
            r.2.wf(),
            final(self)@.keys.len() == (old(self)@.capacity - 1) / 2,
            r.2@.keys.len() == old(self)@.capacity / 2,
    {
        let split_idx: usize = self.capacity / 2 + 1;
        let keys = self.keys.split_off(split_idx);
        let values = self.values.split_off(split_idx);
        let children = match &mut self.children {
            Some(c) => Some(c.split_off(split_idx)),
            None => None,
        };
        let other = NodeData { keys, values, children, capacity: self.capacity };
        let key = self.keys.pop().unwrap();
        let value = self.values.pop().unwrap();
        proof {
            let before = old(self)@;
            let m = before.median();
            assert(self@.keys =~= before.lower_half().keys);
            assert(self@.values =~= before.lower_half().values);
            assert(other@.keys =~= before.upper_half().keys);
            assert(other@.values =~= before.upper_half().values);
            match before.children {
                Some(c) => {
                    assert(self@.children->Some_0 =~= c.subrange(0, m + 1));
                    assert(other@.children->Some_0 =~= c.subrange(m + 1, c.len() as int));
                },
                None => {},
            }
        }
        (key, value, other)
    }

    /// Takes in the median of a child that was split: `key` and `value` enter
    /// at the key's place, and `right`, the name of the child's new sibling,
    /// becomes the child just after them.
    pub fn absorb(&mut self, key: K, value: V, right: NodeRef)
        requires
            total_order::<K>(),
            old(self).wf(),
            !old(self)@.is_leaf(),
            !old(self)@.is_full(),
            !old(self)@.has(key),
        ensures
            final(self).wf(),
            final(self)@ == old(self)@.absorb(key, value, right@),
    {
        match self.search(&key) {
            Ok(_) => {},
            Err(idx) => {
                proof {
                    lemma_put_keeps_order(self.keys@, key, idx as int);
                }
                let ghost names = self@.children->Some_0;
                self.keys.insert(idx, key);
                self.values.insert(idx, value);
                match &mut self.children {
                    Some(c) => {
                        c.insert(idx + 1, right);
                    },
                    None => {},
                }
                proof {
                    assert(self@.children->Some_0 =~= names.insert(idx + 1, right@));
                }
            },
        }
    }

    /// Makes a leaf an internal node with the given children, one more than
    /// the node has keys.
    pub fn adopt(&mut self, children: Vec<NodeRef>)
        requires
            old(self).wf(),
            old(self)@.is_leaf(),
            children@.len() == old(self)@.keys.len() + 1,
        ensures
            final(self).wf(),
            final(self)@ == (NodeView { children: Some(names_of(children@)), ..old(self)@ }),
    {
        self.children = Some(children);
    }

    /// Builds a node from the parts of a stored record, for a tree whose
    /// nodes hold up to `capacity` keys. The answer is `None` exactly when the
    /// parts break the node invariant.
    pub fn from_parts(
        keys: Vec<K>,
        values: Vec<V>,
        children: Option<Vec<NodeRef>>,
        capacity: usize,
    ) -> (r: Option<Self>)
        requires
            total_order::<K>(),
        ensures
            match r {
                Some(node) => {
                    &&& node@ == parts_view(keys@, values@, seq_of(children), capacity)
                    &&& node.wf()
                },
                None => !parts_view(keys@, values@, seq_of(children), capacity).wf(),
            },
    {
        if capacity % 2 != 1 || capacity <= 3 {
            return None;
        }
        if keys.len() != values.len() || keys.len() > capacity {
            return None;
        }
        let fits = match &children {
            Some(c) => c.len() > 0 && c.len() - 1 == keys.len(),
            None => true,
        };
        if !fits {
            return None;
        }
        if !in_order(&keys) {
            return None;
        }
        Some(NodeData { keys, values, children, capacity })
    }

    /// Takes the node apart into what a stored record holds. Building a
    /// node from these parts and the same capacity, with
    /// [`NodeData::from_parts`], gives the node back.
    pub fn into_parts(self) -> (r: (Vec<K>, Vec<V>, Option<Vec<NodeRef>>))
        ensures
            r.0@ == self@.keys,
            r.1@ == self@.values,
            match r.2 {
                Some(c) => self@.children == Some(names_of(c@)),
                None => self@.children is None,
            },
            parts_view(r.0@, r.1@, seq_of(r.2), self.spec_capacity()) == self@,
    {
        (self.keys, self.values, self.children)
    }

    /// The number of keys the node may hold, as the node stores it.
    pub closed spec fn spec_capacity(&self) -> usize {
        self.capacity
    }

    /// The keys, in order.
    pub fn keys(&self) -> (r: &Vec<K>)
        ensures
            r@ == self@.keys,
    {
        &self.keys
    }

    /// The values, each at the index of its key.
    pub fn values(&self) -> (r: &Vec<V>)
        ensures
            r@ == self@.values,
    {
        &self.values
    }

    /// The names of the children, in an internal node.
    pub fn children(&self) -> (r: Option<&Vec<NodeRef>>)
        ensures
            match r {
                Some(c) => self@.children == Some(names_of(c@)),
                None => self@.children is None,
            },
    {
        match &self.children {
            Some(c) => Some(c),
            None => None,
        }
    }

    /// The name of the child at index `i` of an internal node.
    pub fn child(&self, i: usize) -> (r: &NodeRef)
        requires
            self.wf(),
            !self@.is_leaf(),
            i <= self@.keys.len(),
        ensures
            r@ == self@.children->Some_0[i as int],
    {
        match &self.children {
            Some(c) => &c[i],
            None => vstd::pervasive::unreached(),
        }
    }
}

/// The names that an optional vector of references holds.
pub open spec fn seq_of(children: Option<Vec<NodeRef>>) -> Option<Seq<NodeRef>> {
    match children {
        Some(c) => Some(c@),
        None => None,
    }
}

/// Whether the keys are strictly increasing.
fn in_order<K: Ord>(keys: &Vec<K>) -> (r: bool)
    requires
        total_order::<K>(),
    ensures
        r == strictly_increasing(keys@),
{
    if keys.len() < 2 {
        return true;
    }
    let mut i: usize = 1;
    while i < keys.len()
        invariant
            total_order::<K>(),
            1 <= i <= keys@.len(),
            strictly_increasing(keys@.subrange(0, i as int)),
        decreases keys@.len() - i,
    {
        match compare(&keys[i - 1], &keys[i]) {
            KeyOrder::Before => {},
            _ => {
                proof {
                    lemma_trichotomy(keys@[i - 1], keys@[i as int]);
                }
                return false;
            },
        }
        proof {
            let shorter = keys@.subrange(0, i as int);
            let longer = keys@.subrange(0, i + 1);
            assert forall|a: int, b: int| 0 <= a < b < longer.len() implies key_lt(
                #[trigger] longer[a],
                #[trigger] longer[b],
            ) by {
                if b < i {
                    assert(key_lt(shorter[a], shorter[b]));
                } else if a < i - 1 {
                    assert(key_lt(shorter[a], shorter[i - 1]));
                }
            }
        }
        i = i + 1;
    }
    proof {
        assert(keys@.subrange(0, i as int) =~= keys@);
    }
    true
}

/// Strictly increasing keys stay so when a key enters at its place.
proof fn lemma_put_keeps_order<K: Ord>(keys: Seq<K>, key: K, i: int)
    requires
        strictly_increasing(keys),
        is_place(keys, key, i),
    ensures
        strictly_increasing(keys.insert(i, key)),
{
    let after = keys.insert(i, key);
    assert forall|a: int, b: int| 0 <= a < b < after.len() implies key_lt(
        #[trigger] after[a],
        #[trigger] after[b],
    ) by {
        if b < i {
            assert(after[a] == keys[a] && after[b] == keys[b]);
        } else if b == i {
            assert(after[a] == keys[a]);
        } else if a < i {
            assert(after[a] == keys[a] && after[b] == keys[b - 1]);
        } else if a == i {
            assert(after[b] == keys[b - 1]);
        } else {
            assert(after[a] == keys[a - 1] && after[b] == keys[b - 1]);
        }
    }
}

/// In strictly increasing keys, every key up to one that is before `key` is
/// before `key`.
proof fn lemma_before_extends<K: Ord>(keys: Seq<K>, key: K, mid: int)
    requires
        total_order::<K>(),
        strictly_increasing(keys),
        0 <= mid < keys.len(),
        key_lt(keys[mid], key),
    ensures
        forall|j: int| 0 <= j <= mid ==> key_lt(#[trigger] keys[j], key),
{
    assert forall|j: int| 0 <= j <= mid implies key_lt(#[trigger] keys[j], key) by {
        if j < mid {
            assert(key_lt(keys[j], keys[mid]));
        }
    }
}

/// In strictly increasing keys, `key` is before every key from one on that it
/// is before.
proof fn lemma_after_extends<K: Ord>(keys: Seq<K>, key: K, mid: int)
    requires
        total_order::<K>(),
        strictly_increasing(keys),
        0 <= mid < keys.len(),
        key_lt(key, keys[mid]),
    ensures
        forall|j: int| mid <= j < keys.len() ==> key_lt(key, #[trigger] keys[j]),
{
    assert forall|j: int| mid <= j < keys.len() implies key_lt(key, #[trigger] keys[j]) by {
        if mid < j {
            assert(key_lt(keys[mid], keys[j]));
        }
    }
}

/// A node holds a key at one index only.
pub proof fn lemma_index_unique<K: Ord, V>(node: NodeView<K, V>, key: K, i: int)
    requires
        total_order::<K>(),
        node.wf(),
        0 <= i < node.keys.len(),
        node.keys[i] == key,
    ensures
        node.has(key),
        node.index_of(key) == i,
        forall|j: int| !is_place(node.keys, key, j),
{
    let k = node.index_of(key);
    if k < i {
        assert(key_lt(node.keys[k], node.keys[i]));
        lemma_trichotomy(node.keys[k], node.keys[i]);
    } else if i < k {
        assert(key_lt(node.keys[i], node.keys[k]));
        lemma_trichotomy(node.keys[i], node.keys[k]);
    }
    assert forall|j: int| !is_place(node.keys, key, j) by {
        if is_place(node.keys, key, j) {
            lemma_trichotomy(node.keys[i], key);
            if i < j {
                assert(key_lt(node.keys[i], key));
            } else {
                assert(key_lt(key, node.keys[i]));
            }
        }
    }
}

/// A key that a node lacks has one place in it.
pub proof fn lemma_place_unique<K: Ord, V>(node: NodeView<K, V>, key: K, i: int)
    requires
        total_order::<K>(),
        node.wf(),
        is_place(node.keys, key, i),
    ensures
        !node.has(key),
        node.place_of(key) == i,
{
    if node.has(key) {
        lemma_index_unique(node, key, node.index_of(key));
    }
    let p = node.place_of(key);
    assert(is_place(node.keys, key, p));
    if p < i {
        assert(key_lt(node.keys[p], key));
        assert(key_lt(key, node.keys[p]));
        lemma_trichotomy(node.keys[p], key);
    } else if i < p {
        assert(key_lt(node.keys[i], key));
        assert(key_lt(key, node.keys[i]));
        lemma_trichotomy(node.keys[i], key);
    }
}

/// A node as the tree knows it: its name and its record.
pub struct NodeState<K, V> {
    /// The name of the node's file.
    pub name: Seq<char>,
    /// What the node holds.
    pub data: NodeView<K, V>,
}

/// A record bound to the name of its backing file: the unit that is stored,
/// loaded and cached.
pub struct Node<K, V> {
    name: NodeRef,
    data: NodeData<K, V>,
}

impl<K, V> View for Node<K, V> {
    type V = NodeState<K, V>;

    closed spec fn view(&self) -> NodeState<K, V> {
        NodeState { name: self.name@, data: self.data@ }
    }
}

impl<K: Ord, V> Node<K, V> {
    /// The node's record satisfies the node invariant.
    pub open spec fn wf(&self) -> bool {
        self@.data.wf()
    }

    /// A node of the given name with an empty leaf record.
    pub fn new(name: NodeRef, capacity: usize) -> (node: Self)
        requires
            capacity % 2 == 1,
            capacity > 3,
        ensures
            node.wf(),
            node@.name == name@,
            node@.data == (NodeView::<K, V> {
                keys: Seq::empty(),
                values: Seq::empty(),
                children: None,
                capacity: capacity as nat,
            }),
    {
        Node { name, data: NodeData::new(capacity) }
    }

    /// A node of the given name with the given record.
    pub fn new_with_data(name: NodeRef, data: NodeData<K, V>) -> (node: Self)
        ensures
            node@ == (NodeState { name: name@, data: data@ }),
    {
        Node { name, data }
    }

    /// The node's name.
    pub fn name(&self) -> (r: &NodeRef)
        ensures
            r@ == self@.name,
    {
        &self.name
    }

    /// The node's record.
    pub fn record(&self) -> (r: &NodeData<K, V>)
        ensures
            r@ == self@.data,
    {
        &self.data
    }

    /// The node's record, given up by the node.
    pub fn data(self) -> (r: NodeData<K, V>)
        ensures
            r@ == self@.data,
    {
        self.data
    }

    /// Whether the node is full.
    pub fn is_full(&self) -> (r: bool)
        ensures
            r == self@.data.is_full(),
    {
        self.data.is_full()
    }

    /// The number of keys the node may hold.
    pub fn capacity(&self) -> (r: usize)
        ensures
            r == self@.data.capacity,
    {
        self.data.capacity()
    }

    /// Stores `value` under `key` in the node's record, as
    /// [`NodeData::insert`] does.
    pub fn insert(&mut self, key: K, value: V) -> (previous: Option<V>)
        requires
            total_order::<K>(),
            old(self).wf(),
            old(self)@.data.has(key) || (old(self)@.data.is_leaf() && !old(self)@.data.is_full()),
        ensures
            final(self).wf(),
            final(self)@.name == old(self)@.name,
            final(self)@.data == old(self)@.data.put(key, value),
            previous == old(self)@.data.get(key),
    {
        self.data.insert(key, value)
    }

    /// Takes in the median of a split child, as [`NodeData::absorb`] does.
    pub fn absorb(&mut self, key: K, value: V, right: NodeRef)
        requires
            total_order::<K>(),
            old(self).wf(),
            !old(self)@.data.is_leaf(),
            !old(self)@.data.is_full(),
            !old(self)@.data.has(key),
        ensures
            final(self).wf(),
            final(self)@.name == old(self)@.name,
            final(self)@.data == old(self)@.data.absorb(key, value, right@),
    {
        self.data.absorb(key, value, right)
    }

    /// Makes the leaf an internal node, as [`NodeData::adopt`] does.
    pub fn adopt(&mut self, children: Vec<NodeRef>)
        requires
            old(self).wf(),
            old(self)@.data.is_leaf(),
            children@.len() == old(self)@.data.keys.len() + 1,
        ensures
            final(self).wf(),
            final(self)@.name == old(self)@.name,
            final(self)@.data == (NodeView {
                children: Some(names_of(children@)),
                ..old(self)@.data
            }),
    {
        self.data.adopt(children)
    }

    /// Splits the full node at its median. The upper half becomes the record
    /// of a new node named `other`; the median key and value are returned
    /// with it.
    pub fn split(&mut self, other: NodeRef) -> (r: (K, V, Self))
        requires
            old(self).wf(),
            old(self)@.data.is_full(),
        ensures
            r.0 == old(self)@.data.keys[old(self)@.data.median()],
            r.1 == old(self)@.data.values[old(self)@.data.median()],
            final(self)@ == (NodeState {
                name: old(self)@.name,
                data: old(self)@.data.lower_half(),
            }),
            r.2@ == (NodeState { name: other@, data: old(self)@.data.upper_half() }),
            final(self).wf(),
            r.2.wf(),
    {
        let (key, value, data) = self.data.split();
        (key, value, Node::new_with_data(other, data))
    }

    /// Gives the node a new name and returns the old one. The record stays
    /// as it is.
    pub fn rename(&mut self, new_name: NodeRef) -> (old_name: NodeRef)
        ensures
            final(self)@ == (NodeState { name: new_name@, data: old(self)@.data }),
            old_name@ == old(self)@.name,
    {
        let mut name = new_name;
        core::mem::swap(&mut self.name, &mut name);
        name
    }
}

/// The keys of a node are pairwise distinct.
pub proof fn lemma_keys_distinct<K: Ord, V>(node: NodeView<K, V>)
    requires
        total_order::<K>(),
        node.wf(),
    ensures
        forall|i: int, j: int|
            0 <= i < node.keys.len() && 0 <= j < node.keys.len() && i != j ==> node.keys[i]
                != node.keys[j],
{
    assert forall|i: int, j: int|
        0 <= i < node.keys.len() && 0 <= j < node.keys.len() && i != j implies node.keys[i]
        != node.keys[j] by {
        if i < j {
            assert(key_lt(node.keys[i], node.keys[j]));
        } else {
            assert(key_lt(node.keys[j], node.keys[i]));
        }
        lemma_trichotomy(node.keys[i], node.keys[j]);
    }
}

/// Storing a value keeps the node invariant and changes what the node holds
/// under the given key only: the key then has the new value, and every
/// other key has what it had.
pub proof fn lemma_put<K: Ord, V>(node: NodeView<K, V>, key: K, value: V)
    requires
        total_order::<K>(),
        node.wf(),
        node.has(key) || (node.is_leaf() && !node.is_full()),
    ensures
        node.put(key, value).wf(),
        node.put(key, value).get(key) == Some(value),
        forall|other: K| other != key ==> node.put(key, value).get(other) == node.get(other),
        node.put(key, value).keys.len() == node.keys.len() + if node.has(key) {
            0int
        } else {
            1int
        },
{
    let after = node.put(key, value);
    if node.has(key) {
        let i = node.index_of(key);
        lemma_index_unique(after, key, i);
        lemma_keys_distinct(node);
        assert forall|other: K| other != key implies after.get(other) == node.get(other) by {
            if node.has(other) {
                let j = node.index_of(other);
                assert(after.keys[j] == other);
            }
        }
    } else {
        assert(exists|i: int| is_place(node.keys, key, i)) by {
            lemma_has_place(node.keys, key);
        }
        let p = node.place_of(key);
        lemma_put_keeps_order(node.keys, key, p);
        assert(after.keys[p] == key);
        lemma_index_unique(after, key, p);
        assert forall|other: K| other != key implies after.get(other) == node.get(other) by {
            if node.has(other) {
                let j = node.index_of(other);
                let j2 = if j < p {
                    j
                } else {
                    j + 1
                };
                assert(after.keys[j2] == other);
                lemma_index_unique(after, other, j2);
            } else if after.has(other) {
                let j2 = after.index_of(other);
                let j = if j2 < p {
                    j2
                } else {
                    j2 - 1
                };
                assert(node.keys[j] == other);
            }
        }
    }
}

/// Taking in a median keeps the node invariant: the key stands at its
/// place with its value, the new child stands right of it, and the node has
/// one key more.
pub proof fn lemma_absorb<K: Ord, V>(node: NodeView<K, V>, key: K, value: V, right: Seq<char>)
    requires
        total_order::<K>(),
        node.wf(),
        !node.is_leaf(),
        !node.is_full(),
        !node.has(key),
    ensures
        is_place(node.keys, key, node.place_of(key)),
        node.absorb(key, value, right).wf(),
        !node.absorb(key, value, right).is_leaf(),
        node.absorb(key, value, right).keys.len() == node.keys.len() + 1,
        node.absorb(key, value, right).has(key),
        node.absorb(key, value, right).index_of(key) == node.place_of(key),
        node.absorb(key, value, right).get(key) == Some(value),
        node.absorb(key, value, right).children->Some_0[node.place_of(key) + 1] == right,
{
    assert(exists|i: int| is_place(node.keys, key, i)) by {
        lemma_has_place(node.keys, key);
    }
    let p = node.place_of(key);
    lemma_put_keeps_order(node.keys, key, p);
    let after = node.absorb(key, value, right);
    assert(after.keys[p] == key);
    lemma_index_unique(after, key, p);
}

/// Among strictly increasing keys every absent key has a place.
pub proof fn lemma_has_place<K: Ord>(keys: Seq<K>, key: K)
    requires
        total_order::<K>(),
        strictly_increasing(keys),
        forall|i: int| 0 <= i < keys.len() ==> keys[i] != key,
    ensures
        exists|i: int| is_place(keys, key, i),
    decreases keys.len(),
{
    if keys.len() == 0 {
        assert(is_place(keys, key, 0));
    } else {
        let front = keys.drop_last();
        assert forall|a: int, b: int| 0 <= a < b < front.len() implies key_lt(
            #[trigger] front[a],
            #[trigger] front[b],
        ) by {
            assert(key_lt(keys[a], keys[b]));
        }
        assert forall|i: int| 0 <= i < front.len() implies front[i] != key by {
            assert(keys[i] != key);
        }
        lemma_has_place(front, key);
        let p = choose|i: int| is_place(front, key, i);
        let last = keys.len() - 1;
        lemma_trichotomy(keys[last], key);
        assert(keys[last] != key);
        if key_lt(keys[last], key) {
            lemma_before_extends(keys, key, last);
            assert(is_place(keys, key, keys.len() as int));
        } else {
            assert forall|j: int| 0 <= j < p implies key_lt(#[trigger] keys[j], key) by {
                assert(key_lt(front[j], key));
            }
            assert forall|j: int| p <= j < keys.len() implies key_lt(key, #[trigger] keys[j]) by {
                if j < last {
                    assert(key_lt(key, front[j]));
                }
            }
            assert(is_place(keys, key, p));
        }
    }
}

/// The last value stored under a key is the one the node holds. A key that
/// the node lacks has no value before the first store; after it the key has
/// the first value; storing twice leaves the node as storing the second
/// value alone would.
pub proof fn lemma_last_write_wins<K: Ord, V>(node: NodeView<K, V>, key: K, first: V, second: V)
    requires
        total_order::<K>(),
        node.wf(),
        node.has(key) || (node.is_leaf() && !node.is_full()),
    ensures
        !node.has(key) ==> node.get(key) is None,
        node.put(key, first).get(key) == Some(first),
        node.put(key, first).put(key, second) == node.put(key, second),
        node.put(key, first).put(key, second).get(key) == Some(second),
{
    lemma_put(node, key, first);
    lemma_put(node, key, second);
    let once = node.put(key, first);
    let twice = once.put(key, second);
    assert(once.has(key));
    if node.has(key) {
        let i = node.index_of(key);
        lemma_index_unique(once, key, i);
        assert(twice.values =~= node.put(key, second).values);
    } else {
        assert(exists|i: int| is_place(node.keys, key, i)) by {
            lemma_has_place(node.keys, key);
        }
        let p = node.place_of(key);
        assert(once.keys[p] == key);
        lemma_index_unique(once, key, p);
        assert(twice.values =~= node.put(key, second).values);
    }
}

/// A split sends one key upward and leaves the others in two halves of
/// equal size: with capacity `c`, the halves hold `(c - 1) / 2` and `c / 2`
/// keys, `c - 1` in all. Nothing is lost and the order is kept: the keys of
/// the lower half, the median and the keys of the upper half are the keys of
/// the node, in that order, and likewise the values and the children.
pub proof fn lemma_split<K: Ord, V>(node: NodeView<K, V>)
    requires
        node.wf(),
        node.is_full(),
    ensures
        node.lower_half().wf(),
        node.upper_half().wf(),
        node.lower_half().keys.len() == (node.capacity - 1) / 2,
        node.upper_half().keys.len() == node.capacity / 2,
        node.lower_half().keys.len() + node.upper_half().keys.len() == node.capacity - 1,
        !node.lower_half().is_full(),
        !node.upper_half().is_full(),
        node.keys == node.lower_half().keys.push(node.keys[node.median()])
            + node.upper_half().keys,
        node.values == node.lower_half().values.push(node.values[node.median()])
            + node.upper_half().values,
        node.children matches Some(c) ==> c == node.lower_half().children->Some_0
            + node.upper_half().children->Some_0,
        forall|i: int|
            0 <= i < node.lower_half().keys.len() ==> key_lt(
                #[trigger] node.lower_half().keys[i],
                node.keys[node.median()],
            ),
        forall|i: int|
            0 <= i < node.upper_half().keys.len() ==> key_lt(
                node.keys[node.median()],
                #[trigger] node.upper_half().keys[i],
            ),
{
    let m = node.median();
    let lower = node.lower_half();
    let upper = node.upper_half();
    assert(node.keys =~= lower.keys.push(node.keys[m]) + upper.keys);
    assert(node.values =~= lower.values.push(node.values[m]) + upper.values);
    match node.children {
        Some(c) => {
            assert(c =~= lower.children->Some_0 + upper.children->Some_0);
        },
        None => {},
    }
    assert forall|i: int| 0 <= i < lower.keys.len() implies key_lt(
        #[trigger] lower.keys[i],
        node.keys[m],
    ) by {
        assert(key_lt(node.keys[i], node.keys[m]));
    }
    assert forall|i: int| 0 <= i < upper.keys.len() implies key_lt(
        node.keys[m],
        #[trigger] upper.keys[i],
    ) by {
        assert(key_lt(node.keys[m], node.keys[m + 1 + i]));
    }
}

/// Storing a value under a key misleads no search for another key: the
/// node sends it where it sent it before.
pub proof fn lemma_put_routes<K: Ord, V>(node: NodeView<K, V>, key: K, value: V, other: K)
    requires
        total_order::<K>(),
        node.wf(),
        node.has(key) || (node.is_leaf() && !node.is_full()),
        other != key,
    ensures
        node.put(key, value).route(other) == node.route(other),
        node.put(key, value).children == node.children,
{
    let after = node.put(key, value);
    lemma_put(node, key, value);
    assert(after.get(other) == node.get(other));
    if node.has(key) {
        assert(after.keys == node.keys);
        if node.has(other) {
            let i = node.index_of(other);
            assert(after.keys[i] == other);
            lemma_index_unique(after, other, i);
            lemma_index_unique(node, key, node.index_of(key));
        } else {
            assert(!after.has(other));
            if !node.is_leaf() {
                assert(exists|i: int| is_place(node.keys, other, i)) by {
                    lemma_has_place(node.keys, other);
                }
                lemma_place_unique(after, other, node.place_of(other));
            }
        }
    }
}

/// A split loses no key and misleads no search. The median is found in the
/// node as it was; a key before the median is routed by the lower half as
/// the node routed it, and a key after the median by the upper half.
pub proof fn lemma_halves_route<K: Ord, V>(node: NodeView<K, V>, key: K)
    requires
        total_order::<K>(),
        node.wf(),
        node.is_full(),
    ensures
        node.route(node.keys[node.median()]) == Route::Found(node.values[node.median()]),
        key_lt(key, node.keys[node.median()]) ==> node.lower_half().route(key) == node.route(key),
        key_lt(node.keys[node.median()], key) ==> node.upper_half().route(key) == node.route(key),
{
    let m = node.median();
    let up = node.keys[m];
    let lower = node.lower_half();
    let upper = node.upper_half();
    lemma_split(node);
    lemma_index_unique(node, up, m);
    lemma_trichotomy(key, up);
    if key_lt(key, up) {
        if node.has(key) {
            let i = node.index_of(key);
            lemma_trichotomy(node.keys[i], up);
            if i >= m {
                if i > m {
                    assert(key_lt(node.keys[m], node.keys[i]));
                }
            }
            assert(lower.keys[i] == key);
            lemma_index_unique(lower, key, i);
        } else {
            if lower.has(key) {
                let i = lower.index_of(key);
                assert(node.keys[i] == key);
            }
            assert(exists|i: int| is_place(node.keys, key, i)) by {
                lemma_has_place(node.keys, key);
            }
            let p = node.place_of(key);
            if p > m {
                assert(key_lt(node.keys[m], key));
            }
            assert(is_place(lower.keys, key, p)) by {
                assert forall|j: int| 0 <= j < p implies key_lt(#[trigger] lower.keys[j], key) by {
                    assert(key_lt(node.keys[j], key));
                }
                assert forall|j: int| p <= j < lower.keys.len() implies key_lt(
                    key,
                    #[trigger] lower.keys[j],
                ) by {
                    assert(key_lt(key, node.keys[j]));
                }
            }
            lemma_place_unique(lower, key, p);
        }
    }
    if key_lt(up, key) {
        if node.has(key) {
            let i = node.index_of(key);
            lemma_trichotomy(node.keys[i], up);
            if i < m {
                assert(key_lt(node.keys[i], node.keys[m]));
            }
            assert(upper.keys[i - m - 1] == key);
            lemma_index_unique(upper, key, i - m - 1);
        } else {
            if upper.has(key) {
                let i = upper.index_of(key);
                assert(node.keys[i + m + 1] == key);
            }
            assert(exists|i: int| is_place(node.keys, key, i)) by {
                lemma_has_place(node.keys, key);
            }
            let p = node.place_of(key);
            if p <= m {
                assert(key_lt(key, node.keys[m]));
            }
            let q = p - m - 1;
            assert(is_place(upper.keys, key, q)) by {
                assert forall|j: int| 0 <= j < q implies key_lt(#[trigger] upper.keys[j], key) by {
                    assert(key_lt(node.keys[j + m + 1], key));
                }
                assert forall|j: int| q <= j < upper.keys.len() implies key_lt(
                    key,
                    #[trigger] upper.keys[j],
                ) by {
                    assert(key_lt(key, node.keys[j + m + 1]));
                }
            }
            lemma_place_unique(upper, key, q);
        }
    }
}

/// Taking in the median of a split child misleads no search. The median is
/// found in the node. Every other key that the node held is found as
/// before. A key that the node lacks is sent where it was sent before,
/// except for the keys that were sent to the split child and stand after
/// the median: these are sent to the new sibling.
pub proof fn lemma_absorb_routes<K: Ord, V>(
    node: NodeView<K, V>,
    up: K,
    value: V,
    right: Seq<char>,
    key: K,
)
    requires
        total_order::<K>(),
        node.wf(),
        !node.is_leaf(),
        !node.is_full(),
        !node.has(up),
    ensures
        node.absorb(up, value, right).route(up) == Route::Found(value),
        key != up && (node.has(key) || node.place_of(key) != node.place_of(up) || key_lt(key, up))
            ==> node.absorb(up, value, right).route(key) == node.route(key),
        !node.has(key) && node.place_of(key) == node.place_of(up) && key_lt(up, key)
            ==> node.absorb(up, value, right).route(key) == Route::<V>::Enter(right),
{
    let after = node.absorb(up, value, right);
    lemma_absorb(node, up, value, right);
    let j = node.place_of(up);
    assert(is_place(node.keys, up, j));
    if key != up {
        lemma_trichotomy(key, up);
        if node.has(key) {
            let i = node.index_of(key);
            let i2 = if i < j {
                i
            } else {
                i + 1
            };
            assert(after.keys[i2] == key);
            lemma_index_unique(after, key, i2);
        } else {
            if after.has(key) {
                let i2 = after.index_of(key);
                let i = if i2 < j {
                    i2
                } else {
                    i2 - 1
                };
                assert(node.keys[i] == key);
            }
            assert(exists|i: int| is_place(node.keys, key, i)) by {
                lemma_has_place(node.keys, key);
            }
            let i = node.place_of(key);
            assert(is_place(node.keys, key, i));
            // the place of the key among the keys with the median
            let i2 = if i < j || (i == j && key_lt(key, up)) {
                i
            } else {
                i + 1
            };
            if i < j {
                assert(key_lt(key, node.keys[i]));
                assert(key_lt(node.keys[i], up));
            }
            if i > j {
                assert(key_lt(node.keys[j], key));
                assert(key_lt(up, node.keys[j]));
            }
            assert(is_place(after.keys, key, i2)) by {
                assert forall|k: int| 0 <= k < i2 implies key_lt(#[trigger] after.keys[k], key) by {
                    if k < j {
                        assert(after.keys[k] == node.keys[k]);
                    } else if k == j {
                    } else {
                        assert(after.keys[k] == node.keys[k - 1]);
                    }
                }
                assert forall|k: int| i2 <= k < after.keys.len() implies key_lt(
                    key,
                    #[trigger] after.keys[k],
                ) by {
                    if k < j {
                        assert(after.keys[k] == node.keys[k]);
                    } else if k == j {
                    } else {
                        assert(after.keys[k] == node.keys[k - 1]);
                    }
                }
            }
            lemma_place_unique(after, key, i2);
        }
    }
}

/// Where a key that a full node lacks has its place in the halves of the
/// node. A key before the median has in the lower half the place that it
/// has in the node, which is not after the median; a key after the median
/// has in the upper half its place in the node less what stays below, and
/// its place in the node is after the median.
pub proof fn lemma_halves_places<K: Ord, V>(node: NodeView<K, V>, key: K)
    requires
        total_order::<K>(),
        node.wf(),
        node.is_full(),
        !node.has(key),
    ensures
        is_place(node.keys, key, node.place_of(key)),
        key != node.keys[node.median()],
        key_lt(key, node.keys[node.median()]) <==> node.place_of(key) <= node.median(),
        key_lt(key, node.keys[node.median()]) ==> !node.lower_half().has(key)
            && node.lower_half().place_of(key) == node.place_of(key),
        key_lt(node.keys[node.median()], key) ==> !node.upper_half().has(key)
            && node.upper_half().place_of(key) == node.place_of(key) - node.median() - 1,
{
    let m = node.median();
    let up = node.keys[m];
    let lower = node.lower_half();
    let upper = node.upper_half();
    lemma_split(node);
    lemma_trichotomy(key, up);
    assert(exists|i: int| is_place(node.keys, key, i)) by {
        lemma_has_place(node.keys, key);
    }
    let p = node.place_of(key);
    assert(node.keys[m] == up);
    if p <= m {
        assert(key_lt(key, node.keys[m])) by {
            assert(key_lt(key, node.keys[p]));
            if p < m {
                assert(key_lt(node.keys[p], node.keys[m]));
            }
        }
    } else {
        assert(key_lt(node.keys[m], key)) by {
            assert(key_lt(node.keys[p - 1], key));
            if m < p - 1 {
                assert(key_lt(node.keys[m], node.keys[p - 1]));
            }
        }
    }
    if key_lt(key, up) {
        if lower.has(key) {
            let i = lower.index_of(key);
            assert(node.keys[i] == key);
        }
        assert(is_place(lower.keys, key, p)) by {
            assert forall|j: int| 0 <= j < p implies key_lt(#[trigger] lower.keys[j], key) by {
                assert(key_lt(node.keys[j], key));
            }
            assert forall|j: int| p <= j < lower.keys.len() implies key_lt(
                key,
                #[trigger] lower.keys[j],
            ) by {
                assert(key_lt(key, node.keys[j]));
            }
        }
        lemma_place_unique(lower, key, p);
    } else {
        if upper.has(key) {
            let i = upper.index_of(key);
            assert(node.keys[i + m + 1] == key);
        }
        let q = p - m - 1;
        assert(is_place(upper.keys, key, q)) by {
            assert forall|j: int| 0 <= j < q implies key_lt(#[trigger] upper.keys[j], key) by {
                assert(key_lt(node.keys[j + m + 1], key));
            }
            assert forall|j: int| q <= j < upper.keys.len() implies key_lt(
                key,
                #[trigger] upper.keys[j],
            ) by {
                assert(key_lt(key, node.keys[j + m + 1]));
            }
        }
        lemma_place_unique(upper, key, q);
    }
}

/// Where a key that a node lacks has its place after the node took in a
/// median. The place stays where it stood before the place of the median,
/// or at that place with the key before the median; otherwise it moves on
/// by one.
pub proof fn lemma_absorb_places<K: Ord, V>(
    node: NodeView<K, V>,
    up: K,
    value: V,
    right: Seq<char>,
    key: K,
)
    requires
        total_order::<K>(),
        node.wf(),
        !node.is_leaf(),
        !node.is_full(),
        !node.has(up),
        !node.has(key),
        key != up,
    ensures
        !node.absorb(up, value, right).has(key),
        node.absorb(up, value, right).place_of(key) == if node.place_of(key) < node.place_of(up)
            || (node.place_of(key) == node.place_of(up) && key_lt(key, up)) {
            node.place_of(key)
        } else {
            node.place_of(key) + 1
        },
{
    let after = node.absorb(up, value, right);
    lemma_absorb(node, up, value, right);
    let j = node.place_of(up);
    assert(is_place(node.keys, up, j));
    lemma_trichotomy(key, up);
    if after.has(key) {
        let i2 = after.index_of(key);
        let i = if i2 < j {
            i2
        } else {
            i2 - 1
        };
        assert(node.keys[i] == key);
    }
    assert(exists|i: int| is_place(node.keys, key, i)) by {
        lemma_has_place(node.keys, key);
    }
    let i = node.place_of(key);
    assert(is_place(node.keys, key, i));
    let i2 = if i < j || (i == j && key_lt(key, up)) {
        i
    } else {
        i + 1
    };
    if i < j {
        assert(key_lt(key, node.keys[i]));
        assert(key_lt(node.keys[i], up));
    }
    if i > j {
        assert(key_lt(node.keys[j], key));
        assert(key_lt(up, node.keys[j]));
    }
    assert(is_place(after.keys, key, i2)) by {
        assert forall|k: int| 0 <= k < i2 implies key_lt(#[trigger] after.keys[k], key) by {
            if k < j {
                assert(after.keys[k] == node.keys[k]);
            } else if k == j {
            } else {
                assert(after.keys[k] == node.keys[k - 1]);
            }
        }
        assert forall|k: int| i2 <= k < after.keys.len() implies key_lt(
            key,
            #[trigger] after.keys[k],
        ) by {
            if k < j {
                assert(after.keys[k] == node.keys[k]);
            } else if k == j {
            } else {
                assert(after.keys[k] == node.keys[k - 1]);
            }
        }
    }
    lemma_place_unique(after, key, i2);
}

} // verus!
