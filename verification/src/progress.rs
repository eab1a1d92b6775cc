//! When an insertion is completed.
//!
//! An insertion can be given up: where a stored node is not what a node of
//! the tree can be, and where a name for a new node is taken. The laws of
//! this module say when that does not happen. They speak of a path of the
//! inserted key that is ordered as the paths of a B-tree are: every key of a
//! node of the path lies, in every node above it on the path, in the gap
//! that the inserted key belongs to. Along such a path, with nodes of the
//! tree's capacity and with enough new names, an insertion is completed,
//! and the path that it leaves is ordered in the same way.

use crate::cache::{lemma_promoted, resident};
use crate::dialogue::{
    coherent, insertion, leads, lemma_insertion, lemma_split_written, lemma_start_ordered, lemma_step_coherent,
    lemma_step_ordered, lemma_stored, lemma_supplied_coherent, lemma_walk_start, lemma_walk_step,
    lemma_two_rounds, lemma_written_names, named, new_names, only_new, ordered, run, set_out,
    walked, written, Store,
};
use crate::frame::{
    child_at, lemma_enter_is_child, lemma_only_after, lemma_other_step, lemma_start_shape,
    lemma_step_shape, lemma_unique_path, passed, slot, tree_shaped,
};
use crate::names::root_name;
use crate::node::{
    is_place, lemma_absorb, lemma_absorb_places, lemma_halves_places, lemma_halves_route,
    lemma_has_place, lemma_index_unique, lemma_keys_distinct, lemma_place_unique, lemma_put,
    lemma_split, NodeView, Route,
};
use crate::order::{key_lt, lemma_trichotomy, total_order};
use crate::tree::{
    lemma_not_root, lemma_resident_ordered, lemma_root_split, lemma_start, lemma_step,
    lemma_step_split, write_name, NextView, TreeView, WriteView,
};
use vstd::prelude::*;

verus! {

/// The key `y` lies in the gap of the node that `key` belongs to: the node
/// lacks it, and its place in the node is the place of `key`.
pub open spec fn in_gap<K: Ord, V>(above: NodeView<K, V>, key: K, y: K) -> bool {
    !above.has(y) && above.place_of(y) == above.place_of(key)
}

/// The path is ordered for the key: every key of a node of the path lies,
/// in every node before it on the path, in the gap that the key belongs to.
pub open spec fn gapped<K: Ord, V>(store: Store<K, V>, path: Seq<Seq<char>>, key: K) -> bool {
    forall|a: int, b: int, i: int|
        0 <= a < b < path.len() && 0 <= i < store[path[b]].keys.len() ==> #[trigger] in_gap(
            store[path[a]],
            key,
            store[path[b]].keys[i],
        )
}

/// Every node of the store has the given capacity.
pub open spec fn uniform<K, V>(store: Store<K, V>, capacity: nat) -> bool {
    forall|name: Seq<char>| store.dom().contains(name) ==> (#[trigger] store[name]).capacity
        == capacity
}

/// Whether a key lies in the gap of another depends on the keys of the
/// node alone.
pub proof fn lemma_gap_keys<K: Ord, V>(a: NodeView<K, V>, b: NodeView<K, V>, key: K, y: K)
    requires
        total_order::<K>(),
        a.wf(),
        b.wf(),
        a.keys == b.keys,
        !a.has(key),
    ensures
        !b.has(key),
        in_gap(a, key, y) == in_gap(b, key, y),
        a.place_of(key) == b.place_of(key),
{
    if b.has(key) {
        let i = b.index_of(key);
        assert(a.keys[i] == key);
    }
    assert(exists|i: int| is_place(a.keys, key, i)) by {
        lemma_has_place(a.keys, key);
    }
    lemma_place_unique(b, key, a.place_of(key));
    if a.has(y) {
        let i = a.index_of(y);
        assert(b.keys[i] == y);
    } else {
        if b.has(y) {
            let i = b.index_of(y);
            assert(a.keys[i] == y);
        }
        assert(exists|i: int| is_place(a.keys, y, i)) by {
            lemma_has_place(a.keys, y);
        }
        lemma_place_unique(b, y, a.place_of(y));
    }
}

/// Two keys that a full node lacks and that have the same place in it
/// stand on the same side of its median, and have the same place in the
/// half on that side.
pub proof fn lemma_same_side<K: Ord, V>(node: NodeView<K, V>, key: K, y: K)
    requires
        total_order::<K>(),
        node.wf(),
        node.is_full(),
        !node.has(key),
        in_gap(node, key, y),
    ensures
        y != node.keys[node.median()],
        key != node.keys[node.median()],
        key_lt(y, node.keys[node.median()]) <==> key_lt(key, node.keys[node.median()]),
        key_lt(key, node.keys[node.median()]) ==> in_gap(node.lower_half(), key, y),
        key_lt(node.keys[node.median()], key) ==> in_gap(node.upper_half(), key, y),
{
    lemma_halves_places(node, key);
    lemma_halves_places(node, y);
    lemma_trichotomy(key, node.keys[node.median()]);
    lemma_trichotomy(y, node.keys[node.median()]);
}

/// A key that lay in the gap of a key stays there when the node takes in a
/// median from that gap, if it stands on the side of the median where the
/// key stands.
pub proof fn lemma_gap_grown<K: Ord, V>(
    node: NodeView<K, V>,
    up: K,
    value: V,
    right: Seq<char>,
    key: K,
    y: K,
)
    requires
        total_order::<K>(),
        node.wf(),
        !node.is_leaf(),
        !node.is_full(),
        !node.has(key),
        key != up,
        y != up,
        in_gap(node, key, up),
        in_gap(node, key, y),
        key_lt(y, up) <==> key_lt(key, up),
    ensures
        in_gap(node.absorb(up, value, right), key, y),
{
    lemma_absorb_places(node, up, value, right, key);
    lemma_absorb_places(node, up, value, right, y);
}

/// The keys of a node that took in a median are the keys that it had and
/// the median.
pub proof fn lemma_grown_keys<K: Ord, V>(
    node: NodeView<K, V>,
    up: K,
    value: V,
    right: Seq<char>,
    i: int,
)
    requires
        total_order::<K>(),
        node.wf(),
        !node.is_leaf(),
        !node.is_full(),
        !node.has(up),
        0 <= i < node.absorb(up, value, right).keys.len(),
    ensures
        node.absorb(up, value, right).keys[i] == up || node.has(
            node.absorb(up, value, right).keys[i],
        ),
{
    lemma_absorb(node, up, value, right);
    let at = node.place_of(up);
    if i < at {
        assert(node.keys[i] == node.absorb(up, value, right).keys[i]);
    } else if i > at {
        assert(node.keys[i - 1] == node.absorb(up, value, right).keys[i]);
    }
}

/// The keys of a node after a value was stored are the keys that it had and
/// the key of the value.
pub proof fn lemma_put_keys<K: Ord, V>(node: NodeView<K, V>, key: K, value: V, i: int)
    requires
        total_order::<K>(),
        node.wf(),
        node.has(key) || (node.is_leaf() && !node.is_full()),
        0 <= i < node.put(key, value).keys.len(),
    ensures
        node.put(key, value).keys[i] == key || node.has(node.put(key, value).keys[i]),
{
    lemma_put(node, key, value);
    if node.has(key) {
        assert(node.keys[i] == node.put(key, value).keys[i]);
    } else {
        assert(exists|p: int| is_place(node.keys, key, p)) by {
            lemma_has_place(node.keys, key);
        }
        let at = node.place_of(key);
        if i < at {
            assert(node.keys[i] == node.put(key, value).keys[i]);
        } else if i > at {
            assert(node.keys[i - 1] == node.put(key, value).keys[i]);
        }
    }
}

/// The path stays ordered when the pair is stored in its last node.
pub proof fn lemma_gapped_stored<K: Ord, V>(
    store: Store<K, V>,
    store2: Store<K, V>,
    path: Seq<Seq<char>>,
    key: K,
    value: V,
    status: Option<V>,
)
    requires
        total_order::<K>(),
        ordered(store),
        gapped(store, path, key),
        leads(store, path, key, status),
        store[path.last()].has(key) || (store[path.last()].is_leaf() && !store[path.last()].is_full()),
        store2[path.last()] == store[path.last()].put(key, value),
        forall|i: int| 0 <= i < path.len() - 1 ==> store2[#[trigger] path[i]] == store[path[i]],
    ensures
        gapped(store2, path, key),
{
    let last = path.len() - 1;
    let end = store[path[last]];
    assert(store.dom().contains(path[last]));
    assert forall|a: int, b: int, i: int|
        0 <= a < b < path.len() && 0 <= i < store2[path[b]].keys.len() implies #[trigger] in_gap(
        store2[path[a]],
        key,
        store2[path[b]].keys[i],
    ) by {
        assert(store2[path[a]] == store[path[a]]);
        if b < last {
            assert(store2[path[b]] == store[path[b]]);
            assert(in_gap(store[path[a]], key, store[path[b]].keys[i]));
        } else {
            let y = store2[path[b]].keys[i];
            lemma_put_keys(end, key, value, i);
            if y == key {
                assert(store.dom().contains(path[a]));
                assert(store[path[a]].route(key) == Route::<V>::Enter(path[a + 1]));
            } else {
                let k = end.index_of(y);
                assert(in_gap(store[path[a]], key, store[path[b]].keys[k]));
            }
        }
    }
}

/// The path up to the node above stays ordered when that node takes in the
/// median of the next node of the path.
pub proof fn lemma_gapped_taken<K: Ord, V>(
    store: Store<K, V>,
    store2: Store<K, V>,
    path: Seq<Seq<char>>,
    j: int,
    key: K,
    up: K,
)
    requires
        total_order::<K>(),
        gapped(store, path, key),
        0 <= j,
        j + 1 < path.len(),
        forall|i: int| 0 <= i < j ==> store2[#[trigger] path[i]] == store[path[i]],
        store[path[j + 1]].has(up),
        forall|i: int|
            0 <= i < store2[path[j]].keys.len() ==> (#[trigger] store2[path[j]].keys[i]) == up
                || store[path[j]].has(store2[path[j]].keys[i]),
    ensures
        gapped(store2, path.take(j + 1), key),
{
    let path2 = path.take(j + 1);
    let m = store[path[j + 1]].index_of(up);
    assert forall|a: int, b: int, i: int|
        0 <= a < b < path2.len() && 0 <= i < store2[path2[b]].keys.len() implies #[trigger] in_gap(
        store2[path2[a]],
        key,
        store2[path2[b]].keys[i],
    ) by {
        assert(store2[path[a]] == store[path[a]]);
        if b < j {
            assert(store2[path[b]] == store[path[b]]);
            assert(in_gap(store[path[a]], key, store[path[b]].keys[i]));
        } else {
            let y = store2[path[j]].keys[i];
            if y == up {
                assert(in_gap(store[path[a]], key, store[path[j + 1]].keys[m]));
            } else {
                let k = store[path[j]].index_of(y);
                assert(in_gap(store[path[a]], key, store[path[j]].keys[k]));
            }
        }
    }
}

/// The path stays ordered when the node at index `j + 1` is split and the
/// node before it takes in the median: through the lower half where the key
/// stands before the median, through the new sibling with the upper half
/// where it stands after it.
#[verifier::rlimit(100)]
pub proof fn lemma_gapped_split<K: Ord, V>(
    store: Store<K, V>,
    store2: Store<K, V>,
    path: Seq<Seq<char>>,
    j: int,
    key: K,
    status: Option<V>,
    value: V,
    fresh: Seq<char>,
)
    requires
        total_order::<K>(),
        ordered(store),
        gapped(store, path, key),
        leads(store, path, key, status),
        0 <= j,
        j + 1 < path.len(),
        !store.dom().contains(fresh),
        store[path[j + 1]].is_full(),
        !store[path[j]].is_leaf(),
        !store[path[j]].is_full(),
        key != store[path[j + 1]].keys[store[path[j + 1]].median()],
        store2[path[j]].wf(),
        store2[path[j]].keys == store[path[j]].absorb(
            store[path[j + 1]].keys[store[path[j + 1]].median()],
            value,
            fresh,
        ).keys,
        store2[path[j + 1]] == store[path[j + 1]].lower_half(),
        store2[fresh] == store[path[j + 1]].upper_half(),
        forall|i: int|
            0 <= i < path.len() && i != j && i != j + 1 ==> store2[#[trigger] path[i]]
                == store[path[i]],
    ensures
        gapped(
            store2,
            if key_lt(store[path[j + 1]].keys[store[path[j + 1]].median()], key) {
                path.update(j + 1, fresh)
            } else {
                path
            },
            key,
        ),
{
    let node = store[path[j]];
    let full = store[path[j + 1]];
    let m = full.median();
    let up = full.keys[m];
    let turned = key_lt(up, key);
    let path2 = if turned {
        path.update(j + 1, fresh)
    } else {
        path
    };
    let grown = node.absorb(up, value, fresh);
    let half = if turned {
        full.upper_half()
    } else {
        full.lower_half()
    };
    assert(store.dom().contains(path[j]) && store.dom().contains(path[j + 1]));
    assert(node.wf() && full.wf());
    lemma_split(full);
    lemma_trichotomy(key, up);
    lemma_keys_distinct(full);
    assert(in_gap(node, key, full.keys[m]));
    assert(store[path[j]].route(key) == Route::<V>::Enter(path[j + 1]));
    assert(!node.has(key));
    lemma_absorb(node, up, value, fresh);
    assert(store2[path2[j + 1]] == half);
    assert(store2[path2[j]].keys == grown.keys);
    lemma_absorb_places(node, up, value, fresh, key);
    // every key of the half is a key of the full node on the side of the key
    assert forall|i: int| 0 <= i < half.keys.len() implies exists|k: int|
        0 <= k < full.keys.len() && k != m && full.keys[k] == #[trigger] half.keys[i] && (key_lt(
            full.keys[k],
            up,
        ) <==> !turned) by {
        let k = if turned {
            i + m + 1
        } else {
            i
        };
        assert(full.keys[k] == half.keys[i]);
        lemma_trichotomy(full.keys[k], up);
        if turned {
            assert(key_lt(full.keys[m], full.keys[k]));
        } else {
            assert(key_lt(full.keys[k], full.keys[m]));
        }
    }
    assert forall|a: int, b: int, i: int|
        0 <= a < b < path2.len() && 0 <= i < store2[path2[b]].keys.len() implies #[trigger] in_gap(
        store2[path2[a]],
        key,
        store2[path2[b]].keys[i],
    ) by {
        let y = store2[path2[b]].keys[i];
        if b < j {
            assert(store2[path2[a]] == store[path[a]]);
            assert(store2[path2[b]] == store[path[b]]);
            assert(in_gap(store[path[a]], key, store[path[b]].keys[i]));
        } else if b == j {
            assert(store2[path2[a]] == store[path[a]]);
            lemma_grown_keys(node, up, value, fresh, i);
            if y == up {
                assert(in_gap(store[path[a]], key, store[path[j + 1]].keys[m]));
            } else {
                let k = node.index_of(y);
                assert(in_gap(store[path[a]], key, store[path[j]].keys[k]));
            }
        } else if b == j + 1 {
            let k = choose|k: int|
                0 <= k < full.keys.len() && k != m && full.keys[k] == half.keys[i] && (key_lt(
                    full.keys[k],
                    up,
                ) <==> !turned);
            assert(y == full.keys[k]);
            assert(y != up);
            if a < j {
                assert(store2[path2[a]] == store[path[a]]);
                assert(in_gap(store[path[a]], key, store[path[j + 1]].keys[k]));
            } else {
                assert(in_gap(store[path[j]], key, store[path[j + 1]].keys[k]));
                lemma_gap_grown(node, up, value, fresh, key, y);
                lemma_gap_keys(grown, store2[path2[j]], key, y);
            }
        } else {
            assert(store2[path2[b]] == store[path[b]]);
            assert(store[path[j + 1]].route(key) == Route::<V>::Enter(path[j + 2]));
            assert(!full.has(key));
            if a < j {
                assert(store2[path2[a]] == store[path[a]]);
                assert(in_gap(store[path[a]], key, store[path[b]].keys[i]));
            } else if a == j {
                assert(in_gap(store[path[j]], key, store[path[b]].keys[i]));
                assert(in_gap(store[path[j + 1]], key, store[path[b]].keys[i]));
                lemma_same_side(full, key, y);
                lemma_gap_grown(node, up, value, fresh, key, y);
                lemma_gap_keys(grown, store2[path2[j]], key, y);
            } else if a == j + 1 {
                assert(in_gap(store[path[j + 1]], key, store[path[b]].keys[i]));
                lemma_same_side(full, key, y);
            } else {
                assert(store2[path2[a]] == store[path[a]]);
                assert(in_gap(store[path[a]], key, store[path[b]].keys[i]));
            }
        }
    }
}

/// In a node with a single key, two other keys on the same side of that
/// key lie in the same gap.
pub proof fn lemma_top_gap<K: Ord, V>(top: NodeView<K, V>, up: K, key: K, y: K)
    requires
        total_order::<K>(),
        top.wf(),
        top.keys == seq![up],
        key != up,
        y != up,
        key_lt(y, up) <==> key_lt(key, up),
    ensures
        in_gap(top, key, y),
{
    lemma_trichotomy(key, up);
    lemma_trichotomy(y, up);
    assert(top.keys[0] == up);
    if key_lt(key, up) {
        assert(is_place(top.keys, key, 0));
        assert(is_place(top.keys, y, 0));
        lemma_place_unique(top, key, 0);
        lemma_place_unique(top, y, 0);
    } else {
        assert(is_place(top.keys, key, 1));
        assert(is_place(top.keys, y, 1));
        lemma_place_unique(top, key, 1);
        lemma_place_unique(top, y, 1);
    }
}

/// The path stays ordered when the root is split: through the new node
/// with the half that the key belongs to.
#[verifier::rlimit(100)]
pub proof fn lemma_gapped_root<K: Ord, V>(
    store: Store<K, V>,
    store2: Store<K, V>,
    path: Seq<Seq<char>>,
    key: K,
    status: Option<V>,
    half: Seq<char>,
)
    requires
        total_order::<K>(),
        ordered(store),
        gapped(store, path, key),
        leads(store, path, key, status),
        !store.dom().contains(half),
        store[path[0]].is_full(),
        key != store[path[0]].keys[store[path[0]].median()],
        store2[path[0]].wf(),
        store2[path[0]].keys == seq![store[path[0]].keys[store[path[0]].median()]],
        store2[half] == if key_lt(key, store[path[0]].keys[store[path[0]].median()]) {
            store[path[0]].lower_half()
        } else {
            store[path[0]].upper_half()
        },
        forall|i: int| 1 <= i < path.len() ==> store2[#[trigger] path[i]] == store[path[i]],
    ensures
        gapped(store2, path.insert(1, half), key),
{
    let full = store[path[0]];
    let m = full.median();
    let up = full.keys[m];
    let top = store2[path[0]];
    let lower = key_lt(key, up);
    let part = store2[half];
    let path2 = path.insert(1, half);
    assert(store.dom().contains(path[0]));
    assert(full.wf());
    lemma_split(full);
    lemma_trichotomy(key, up);
    lemma_keys_distinct(full);
    assert(store2[path2[0]] == top);
    assert(store2[path2[1]] == part);
    assert forall|i: int| 0 <= i < part.keys.len() implies (#[trigger] part.keys[i]) != up && (
    key_lt(part.keys[i], up) <==> lower) by {
        let k = if lower {
            i
        } else {
            i + m + 1
        };
        assert(full.keys[k] == part.keys[i]);
        lemma_trichotomy(full.keys[k], up);
        if lower {
            assert(key_lt(full.keys[k], full.keys[m]));
        } else {
            assert(key_lt(full.keys[m], full.keys[k]));
        }
    }
    if path.len() > 1 {
        assert(store[path[0]].route(key) == Route::<V>::Enter(path[1]));
        assert(!full.has(key));
    }
    assert forall|a: int, b: int, i: int|
        0 <= a < b < path2.len() && 0 <= i < store2[path2[b]].keys.len() implies #[trigger] in_gap(
        store2[path2[a]],
        key,
        store2[path2[b]].keys[i],
    ) by {
        let y = store2[path2[b]].keys[i];
        if b == 1 {
            assert(part.keys[i] != up);
            lemma_top_gap(top, up, key, y);
        } else {
            assert(path2[b] == path[b - 1]);
            assert(store2[path2[b]] == store[path[b - 1]]);
            if a == 0 {
                assert(in_gap(store[path[0]], key, store[path[b - 1]].keys[i]));
                lemma_same_side(full, key, y);
                lemma_top_gap(top, up, key, y);
            } else if a == 1 {
                assert(in_gap(store[path[0]], key, store[path[b - 1]].keys[i]));
                lemma_same_side(full, key, y);
            } else {
                assert(path2[a] == path[a - 1]);
                assert(store2[path2[a]] == store[path[a - 1]]);
                assert(in_gap(store[path[a - 1]], key, store[path[b - 1]].keys[i]));
            }
        }
    }
}

/// Writing nodes of the same capacity keeps the store one of nodes of that
/// capacity.
pub proof fn lemma_written_uniform<K: Ord, V>(
    store: Store<K, V>,
    tree: TreeView<K, V>,
    writes: Seq<WriteView>,
    capacity: nat,
)
    requires
        uniform(store, capacity),
        forall|i: int|
            0 <= i < writes.len() ==> tree.record(write_name(#[trigger] writes[i])).capacity
                == capacity,
    ensures
        uniform(written(store, tree, writes), capacity),
{
    let after = written(store, tree, writes);
    assert forall|name: Seq<char>| after.dom().contains(name) implies (
    #[trigger] after[name]).capacity == capacity by {
        if named(writes, name) {
            let i = choose|i: int| 0 <= i < writes.len() && write_name(#[trigger] writes[i]) == name;
            assert(tree.record(write_name(writes[i])).capacity == capacity);
        } else {
            assert(store[name].capacity == capacity);
        }
    }
}

/// A step of a walk along an ordered path is not given up, and leaves the
/// path ordered.
///
/// The walk stands on the node at index `j` of a path from the root that
/// is ordered for its key, in a store of well-formed nodes of the tree's
/// capacity that is what the tree believes it to be, and the fresh name is
/// new to the store. Then the step completes the insertion, lets the walk
/// go on, or asks for a node that the store holds as a node of the tree's
/// capacity; and the store after the step is again one of well-formed nodes
/// of that capacity, along whose path for the key the nodes are ordered.
#[verifier::rlimit(100)]
pub proof fn lemma_sound_step<K: Ord, V>(
    tree: TreeView<K, V>,
    store: Store<K, V>,
    path: Seq<Seq<char>>,
    j: int,
    status: Option<V>,
    fresh: Seq<char>,
)
    requires
        total_order::<K>(),
        tree.wf(),
        tree.pending is Some,
        coherent(tree, store),
        ordered(store),
        uniform(store, tree.capacity),
        leads(store, path, tree.pending->Some_0.key, status),
        gapped(store, path, tree.pending->Some_0.key),
        0 <= j < path.len(),
        tree.here() == path[j],
        path[0] == root_name(),
        !store.dom().contains(fresh),
    ensures
        ({
            let s = tree.step(fresh);
            let store2 = written(store, s.tree, s.writes);
            &&& s.next is Done || s.next is Continue || s.next is Load
            &&& s.tree.capacity == tree.capacity
            &&& ordered(store2)
            &&& uniform(store2, tree.capacity)
            &&& gapped(store2, walked(tree, path, j, fresh), tree.pending->Some_0.key)
            &&& walked(tree, path, j, fresh).len() <= path.len()
            &&& s.next matches NextView::Load(name) ==> {
                &&& !tree.holds(name)
                &&& store.dom().contains(name)
                &&& store[name].wf()
                &&& store[name].capacity == tree.capacity
            }
            &&& s.next is Continue ==> j + 1 < path.len() && (s.writes.len() == 0
                ==> s.tree.holds(path[j + 1]))
        }),
{
    let p = tree.pending->Some_0;
    let key = p.key;
    let here = tree.here();
    let node = tree.record(here);
    let c = tree.child();
    let full = tree.record(c);
    let s = tree.step(fresh);
    let store2 = written(store, s.tree, s.writes);
    let last = path.len() - 1;
    let _ = lemma_walk_step(tree, store, path, j, status, fresh);
    lemma_step(tree, fresh);
    lemma_step_ordered(tree, store, fresh);
    lemma_step_coherent(tree, store, fresh);
    lemma_not_root(tree.cached, here);
    assert(tree.holds(here));
    assert(store[here] == node);
    lemma_resident_ordered(tree, here);
    if j < last {
        assert(store[path[j]].route(key) == Route::<V>::Enter(path[j + 1]));
        assert(store.dom().contains(path[j + 1]));
        assert(path[0] != path[j + 1]);
    }
    if node.has(key) || node.is_leaf() {
        assert(s.writes[0] == WriteView::Save(here));
        assert(named(s.writes, here));
        assert(store2[here] == s.tree.record(here));
        lemma_put(node, key, p.value);
        lemma_stored(tree);
        assert(path.take(j + 1) =~= path);
        assert forall|i: int| 0 <= i < path.len() - 1 implies store2[#[trigger] path[i]]
            == store[path[i]] by {
            assert(path[i] != path[j]);
            assert(store.dom().contains(path[i]));
            assert(!named(s.writes, path[i]));
        }
        lemma_gapped_stored(store, store2, path, key, p.value, status);
        assert forall|i: int| 0 <= i < s.writes.len() implies s.tree.record(
            write_name(#[trigger] s.writes[i]),
        ).capacity == tree.capacity by {}
        lemma_written_uniform(store, s.tree, s.writes, tree.capacity);
    } else if c == root_name() {
    } else if !resident(tree.cached, c) {
        assert(store2 =~= store);
    } else if !full.is_full() {
        assert(store2 =~= store);
        lemma_promoted(tree.cached, c);
    } else {
        assert(tree.holds(c));
        assert(store[c] == full);
        lemma_resident_ordered(tree, c);
        let m = full.median();
        let up = full.keys[m];
        let up_value = full.values[m];
        lemma_split(full);
        assert(in_gap(store[path[j]], key, store[path[j + 1]].keys[m]));
        assert(!tree.misplaced());
        assert(tree.is_free(fresh)) by {
            assert(store.dom().contains(root_name()));
            if resident(tree.cached, fresh) {
                assert(tree.holds(fresh));
            }
        }
        lemma_step_split(tree, fresh);
        lemma_split_written(tree, store, fresh);
        lemma_absorb(node, up, up_value, fresh);
        let grown = node.absorb(up, up_value, fresh);
        assert forall|i: int| 0 <= i < s.writes.len() implies s.tree.record(
            write_name(#[trigger] s.writes[i]),
        ).capacity == tree.capacity by {
            if i == 0 {
            } else if i == 1 {
            } else {
                if key == up {
                    lemma_index_unique(grown, key, node.place_of(up));
                }
            }
        }
        lemma_written_uniform(store, s.tree, s.writes, tree.capacity);
        assert forall|i: int|
            0 <= i < path.len() && i != j && i != j + 1 implies store2[#[trigger] path[i]]
            == store[path[i]] by {
            if i < j {
                assert(path[i] != path[j]);
                assert(path[i] != path[j + 1]);
            } else {
                assert(path[j] != path[i]);
                assert(path[j + 1] != path[i]);
            }
            assert(store.dom().contains(path[i]));
        }
        if key == up {
            lemma_index_unique(grown, key, node.place_of(up));
            assert(grown.put(key, p.value).keys == grown.keys);
            assert(full.keys[m] == up);
            assert forall|i: int| 0 <= i < store2[path[j]].keys.len() implies (
            #[trigger] store2[path[j]].keys[i]) == up || store[path[j]].has(
                store2[path[j]].keys[i],
            ) by {
                lemma_grown_keys(node, up, up_value, fresh, i);
            }
            lemma_gapped_taken(store, store2, path, j, key, up);
        } else {
            lemma_gapped_split(store, store2, path, j, key, status, up_value, fresh);
        }
    }
}

/// The number of names that a walk needs at most from the node at index
/// `j` of its path: two for every node that is left, less one where the next
/// node is resident or there is none.
pub open spec fn needed<K: Ord, V>(tree: TreeView<K, V>, path: Seq<Seq<char>>, j: int) -> int {
    2 * (path.len() - j) - if j + 1 < path.len() && !tree.holds(path[j + 1]) {
        0int
    } else {
        1int
    }
}

/// A walk along an ordered path is completed.
///
/// The walk stands on the node at index `j` of a path from the root that
/// is ordered for its key, along which a search for the key ends as
/// `status` says. The store is one of well-formed nodes of the tree's
/// capacity and is what the tree believes it to be, and the names are new
/// to it and as many as the walk needs. Then the run of the steps is
/// completed. It reports `status`; the store is again one of well-formed
/// nodes of that capacity and is what the tree believes it to be; and along
/// the returned path from the root, which is ordered for the key and no
/// longer than `path`, a search for the key finds the new value.
pub proof fn lemma_run_completes<K: Ord, V>(
    tree: TreeView<K, V>,
    store: Store<K, V>,
    path: Seq<Seq<char>>,
    j: int,
    status: Option<V>,
    names: Seq<Seq<char>>,
) -> (path2: Seq<Seq<char>>)
    requires
        total_order::<K>(),
        tree.wf(),
        tree.pending is Some,
        coherent(tree, store),
        ordered(store),
        uniform(store, tree.capacity),
        leads(store, path, tree.pending->Some_0.key, status),
        gapped(store, path, tree.pending->Some_0.key),
        0 <= j < path.len(),
        tree.here() == path[j],
        path[0] == root_name(),
        new_names(store, names),
        names.len() >= needed(tree, path, j),
    ensures
        run(tree, store, names) is Some,
        run(tree, store, names)->Some_0.previous == status,
        run(tree, store, names)->Some_0.tree.wf(),
        run(tree, store, names)->Some_0.tree.pending is None,
        run(tree, store, names)->Some_0.tree.capacity == tree.capacity,
        coherent(run(tree, store, names)->Some_0.tree, run(tree, store, names)->Some_0.store),
        ordered(run(tree, store, names)->Some_0.store),
        uniform(run(tree, store, names)->Some_0.store, tree.capacity),
        leads(
            run(tree, store, names)->Some_0.store,
            path2,
            tree.pending->Some_0.key,
            Some(tree.pending->Some_0.value),
        ),
        gapped(run(tree, store, names)->Some_0.store, path2, tree.pending->Some_0.key),
        path2[0] == root_name(),
        path2.len() <= path.len(),
    decreases names.len(),
{
    let fresh = names[0];
    let rest = names.skip(1);
    let s = tree.step(fresh);
    let store2 = written(store, s.tree, s.writes);
    let path1 = lemma_walk_step(tree, store, path, j, status, fresh);
    lemma_sound_step(tree, store, path, j, status, fresh);
    lemma_written_names(tree, store, fresh);
    assert(new_names(store2, rest)) by {
        assert forall|i: int| 0 <= i < rest.len() implies !store2.dom().contains(
            #[trigger] rest[i],
        ) by {
            assert(rest[i] == names[i + 1]);
            assert(names[0] != names[i + 1]);
        }
        assert forall|a: int, b: int| 0 <= a < b < rest.len() implies #[trigger] rest[a]
            != #[trigger] rest[b] by {
            assert(names[a + 1] != names[b + 1]);
        }
    }
    match s.next {
        NextView::Done(previous) => path1,
        NextView::Continue => {
            lemma_run_completes(s.tree, store2, path1, j + 1, status, rest)
        },
        NextView::Load(name) => {
            lemma_supplied_coherent(tree, store, name);
            let tree2 = tree.supplied(name, store[name]);
            assert(tree2.holds(path[j + 1]));
            assert(tree2.here() == tree.here());
            assert(tree2.capacity == tree.capacity);
            lemma_run_completes(tree2, store, path, j, status, rest)
        },
        _ => path,
    }
}

/// The start of an insertion leaves an ordered path ordered, be it the
/// path of the inserted key or of another, in a store of well-formed nodes
/// of the tree's capacity.
#[verifier::rlimit(100)]
pub proof fn lemma_sound_start<K: Ord, V>(
    tree: TreeView<K, V>,
    store: Store<K, V>,
    path: Seq<Seq<char>>,
    sought: K,
    key: K,
    value: V,
    status: Option<V>,
    left: Seq<char>,
    right: Seq<char>,
)
    requires
        total_order::<K>(),
        tree.wf(),
        coherent(tree, store),
        ordered(store),
        uniform(store, tree.capacity),
        leads(store, path, sought, status),
        gapped(store, path, sought),
        path[0] == root_name(),
        !store.dom().contains(left),
        !store.dom().contains(right),
        left != right,
    ensures
        ({
            let s = tree.start(key, value, left, right);
            let store2 = written(store, s.tree, s.writes);
            &&& s.tree.capacity == tree.capacity
            &&& ordered(store2)
            &&& uniform(store2, tree.capacity)
            &&& gapped(store2, set_out(tree, path, sought, left, right), sought)
            &&& set_out(tree, path, sought, left, right).len() <= path.len() + 1
        }),
{
    let s = tree.start(key, value, left, right);
    let store2 = written(store, s.tree, s.writes);
    let _ = lemma_walk_start(tree, store, path, sought, key, value, status, left, right);
    lemma_start_ordered(tree, store, key, value, left, right);
    lemma_start(tree, key, value, left, right);
    assert(tree.holds(root_name()));
    assert(store[root_name()] == tree.root);
    assert(tree.is_free(left) && tree.is_free(right)) by {
        if resident(tree.cached, left) {
            assert(tree.holds(left));
        }
        if resident(tree.cached, right) {
            assert(tree.holds(right));
        }
    }
    if !tree.root.is_full() {
        assert(store2 =~= store);
    } else {
        let up = tree.root.keys[tree.root.median()];
        lemma_root_split(tree.idle(), left, right);
        lemma_split(tree.root);
        assert(write_name(s.writes[0]) == left);
        assert(write_name(s.writes[1]) == right);
        assert(write_name(s.writes[2]) == root_name());
        assert(named(s.writes, left) && named(s.writes, right) && named(s.writes, root_name()));
        assert forall|name: Seq<char>| named(s.writes, name) implies name == left || name == right
            || name == root_name() by {
            let i = choose|i: int| 0 <= i < s.writes.len() && write_name(#[trigger] s.writes[i]) == name;
            if i == 0 {
            } else if i == 1 {
            } else {
            }
        }
        assert forall|i: int| 0 <= i < s.writes.len() implies s.tree.record(
            write_name(#[trigger] s.writes[i]),
        ).capacity == tree.capacity by {
            if i == 0 {
            } else if i == 1 {
            } else {
            }
        }
        lemma_written_uniform(store, s.tree, s.writes, tree.capacity);
        if sought == up {
            lemma_halves_route_found(tree.root);
            if path.len() > 1 {
                assert(store[path[0]].route(sought) == Route::<V>::Enter(path[1]));
            }
        } else {
            lemma_trichotomy(sought, up);
            let half = if key_lt(sought, up) {
                left
            } else {
                right
            };
            assert(store2[root_name()] == s.tree.root);
            assert(store2[path[0]].keys =~= seq![up]);
            assert forall|i: int| 1 <= i < path.len() implies store2[#[trigger] path[i]]
                == store[path[i]] by {
                assert(path[0] != path[i]);
                assert(store.dom().contains(path[i]));
                assert(!named(s.writes, path[i]));
            }
            lemma_gapped_root(store, store2, path, sought, status, half);
        }
    }
}

/// The median of a full node is found in the node.
proof fn lemma_halves_route_found<K: Ord, V>(node: NodeView<K, V>)
    requires
        total_order::<K>(),
        node.wf(),
        node.is_full(),
    ensures
        node.route(node.keys[node.median()]) == Route::Found(node.values[node.median()]),
{
    lemma_halves_route(node, node.keys[node.median()]);
}

/// An insertion along an ordered path is completed, reports what a search
/// for the key found, and leaves the new value where a search from the root
/// finds it.
///
/// The store is one of well-formed nodes of the tree's capacity and is what
/// the tree believes it to be. A search for the key from the root ends
/// along `path`, which is ordered for the key, as `status` says. The names
/// are new to the store, and there are two for every node of the path and
/// two more. Then the insertion is completed and reports `status`. The
/// store is again one of well-formed nodes of that capacity and is what the
/// tree believes it to be, and along the returned path from the root, which
/// is ordered for the key and at most one node longer than `path`, a search
/// for the key finds the new value.
pub proof fn lemma_insertion_completes<K: Ord, V>(
    tree: TreeView<K, V>,
    store: Store<K, V>,
    path: Seq<Seq<char>>,
    key: K,
    value: V,
    status: Option<V>,
    left: Seq<char>,
    right: Seq<char>,
    names: Seq<Seq<char>>,
) -> (path2: Seq<Seq<char>>)
    requires
        total_order::<K>(),
        tree.wf(),
        coherent(tree, store),
        ordered(store),
        uniform(store, tree.capacity),
        leads(store, path, key, status),
        gapped(store, path, key),
        path[0] == root_name(),
        new_names(store, seq![left, right] + names),
        names.len() >= 2 * path.len() + 2,
    ensures
        insertion(tree, store, key, value, left, right, names) is Some,
        insertion(tree, store, key, value, left, right, names)->Some_0.previous == status,
        insertion(tree, store, key, value, left, right, names)->Some_0.tree.wf(),
        insertion(tree, store, key, value, left, right, names)->Some_0.tree.pending is None,
        insertion(tree, store, key, value, left, right, names)->Some_0.tree.capacity
            == tree.capacity,
        coherent(
            insertion(tree, store, key, value, left, right, names)->Some_0.tree,
            insertion(tree, store, key, value, left, right, names)->Some_0.store,
        ),
        ordered(insertion(tree, store, key, value, left, right, names)->Some_0.store),
        uniform(
            insertion(tree, store, key, value, left, right, names)->Some_0.store,
            tree.capacity,
        ),
        leads(
            insertion(tree, store, key, value, left, right, names)->Some_0.store,
            path2,
            key,
            Some(value),
        ),
        gapped(insertion(tree, store, key, value, left, right, names)->Some_0.store, path2, key),
        path2[0] == root_name(),
        path2.len() <= path.len() + 1,
        only_new(
            store,
            insertion(tree, store, key, value, left, right, names)->Some_0.store,
            seq![left, right] + names,
        ),
{
    let all = seq![left, right] + names;
    assert(all[0] == left && all[1] == right);
    let s = tree.start(key, value, left, right);
    let store2 = written(store, s.tree, s.writes);
    let path1 = lemma_walk_start(tree, store, path, key, key, value, status, left, right);
    lemma_sound_start(tree, store, path, key, key, value, status, left, right);
    assert(new_names(store2, names)) by {
        assert forall|i: int| 0 <= i < names.len() implies !store2.dom().contains(
            #[trigger] names[i],
        ) by {
            assert(names[i] == all[i + 2]);
            assert(all[0] != all[i + 2]);
            assert(all[1] != all[i + 2]);
            assert(!store.dom().contains(all[i + 2]));
        }
        assert forall|a: int, b: int| 0 <= a < b < names.len() implies #[trigger] names[a]
            != #[trigger] names[b] by {
            assert(all[a + 2] != all[b + 2]);
        }
    }
    let path2 = lemma_run_completes(s.tree, store2, path1, 0, status, names);
    let _ = lemma_insertion(tree, store, path, key, value, status, left, right, names);
    path2
}

/// The last value written under a key is the one that the tree holds, and
/// both writes are completed.
///
/// A key that a search from the root does not find, along a path that is
/// ordered for it, is inserted twice, with a first and a second value. The
/// store is one of well-formed nodes of the tree's capacity and is what the
/// tree believes it to be; the names are new to the store and differ from
/// each other, and for either insertion there are two for every node of the
/// path and four more. Then both insertions are completed; the first reports no
/// value, the second reports the first value, and a search from the root
/// then finds the second value.
pub proof fn lemma_insert_twice_completes<K: Ord, V>(
    tree: TreeView<K, V>,
    store: Store<K, V>,
    path: Seq<Seq<char>>,
    key: K,
    first: V,
    second: V,
    left1: Seq<char>,
    right1: Seq<char>,
    names1: Seq<Seq<char>>,
    left2: Seq<char>,
    right2: Seq<char>,
    names2: Seq<Seq<char>>,
) -> (path2: Seq<Seq<char>>)
    requires
        total_order::<K>(),
        tree.wf(),
        coherent(tree, store),
        ordered(store),
        uniform(store, tree.capacity),
        leads(store, path, key, None),
        gapped(store, path, key),
        path[0] == root_name(),
        new_names(store, seq![left1, right1] + names1 + (seq![left2, right2] + names2)),
        names1.len() >= 2 * path.len() + 4,
        names2.len() >= 2 * path.len() + 4,
    ensures
        insertion(tree, store, key, first, left1, right1, names1) is Some,
        insertion(tree, store, key, first, left1, right1, names1)->Some_0.previous is None,
        insertion(
            insertion(tree, store, key, first, left1, right1, names1)->Some_0.tree,
            insertion(tree, store, key, first, left1, right1, names1)->Some_0.store,
            key,
            second,
            left2,
            right2,
            names2,
        ) is Some,
        insertion(
            insertion(tree, store, key, first, left1, right1, names1)->Some_0.tree,
            insertion(tree, store, key, first, left1, right1, names1)->Some_0.store,
            key,
            second,
            left2,
            right2,
            names2,
        )->Some_0.previous == Some(first),
        leads(
            insertion(
                insertion(tree, store, key, first, left1, right1, names1)->Some_0.tree,
                insertion(tree, store, key, first, left1, right1, names1)->Some_0.store,
                key,
                second,
                left2,
                right2,
                names2,
            )->Some_0.store,
            path2,
            key,
            Some(second),
        ),
        path2[0] == root_name(),
{
    let once = insertion(tree, store, key, first, left1, right1, names1)->Some_0;
    lemma_two_rounds(store, once.store, seq![left1, right1] + names1, seq![left2, right2] + names2);
    let path1 = lemma_insertion_completes(
        tree,
        store,
        path,
        key,
        first,
        None,
        left1,
        right1,
        names1,
    );
    lemma_two_rounds(store, once.store, seq![left1, right1] + names1, seq![left2, right2] + names2);
    lemma_insertion_completes(
        once.tree,
        once.store,
        path1,
        key,
        second,
        Some(first),
        left2,
        right2,
        names2,
    )
}

/// A path stays ordered where its nodes are stored as they were.
pub proof fn lemma_gapped_same<K: Ord, V>(
    store: Store<K, V>,
    store2: Store<K, V>,
    path: Seq<Seq<char>>,
    key: K,
)
    requires
        gapped(store, path, key),
        forall|i: int| 0 <= i < path.len() ==> store2[#[trigger] path[i]] == store[path[i]],
    ensures
        gapped(store2, path, key),
{
    assert forall|a: int, b: int, i: int|
        0 <= a < b < path.len() && 0 <= i < store2[path[b]].keys.len() implies #[trigger] in_gap(
        store2[path[a]],
        key,
        store2[path[b]].keys[i],
    ) by {
        assert(store2[path[a]] == store[path[a]]);
        assert(store2[path[b]] == store[path[b]]);
        assert(in_gap(store[path[a]], key, store[path[b]].keys[i]));
    }
}

/// A path stays ordered when one of its nodes gains a key, where that key
/// lies in the gap of every node before it, and what lies below the node
/// still lies in the gap of the node.
pub proof fn lemma_gapped_gained<K: Ord, V>(
    store: Store<K, V>,
    store2: Store<K, V>,
    path: Seq<Seq<char>>,
    a: int,
    key: K,
    gained: K,
)
    requires
        total_order::<K>(),
        gapped(store, path, key),
        0 <= a < path.len(),
        forall|i: int|
            0 <= i < path.len() && i != a ==> store2[#[trigger] path[i]] == store[path[i]],
        forall|i: int|
            0 <= i < store2[path[a]].keys.len() ==> (#[trigger] store2[path[a]].keys[i]) == gained
                || store[path[a]].has(store2[path[a]].keys[i]),
        forall|i: int| 0 <= i < a ==> #[trigger] in_gap(store[path[i]], key, gained),
        forall|b: int, i: int|
            a < b < path.len() && 0 <= i < store[path[b]].keys.len() ==> #[trigger] in_gap(
                store2[path[a]],
                key,
                store[path[b]].keys[i],
            ),
    ensures
        gapped(store2, path, key),
{
    assert forall|x: int, b: int, i: int|
        0 <= x < b < path.len() && 0 <= i < store2[path[b]].keys.len() implies #[trigger] in_gap(
        store2[path[x]],
        key,
        store2[path[b]].keys[i],
    ) by {
        let y = store2[path[b]].keys[i];
        if b == a {
            assert(store2[path[x]] == store[path[x]]);
            if y == gained {
                assert(in_gap(store[path[x]], key, gained));
            } else {
                let k = store[path[a]].index_of(y);
                assert(in_gap(store[path[x]], key, store[path[a]].keys[k]));
            }
        } else if x == a {
            assert(store2[path[b]] == store[path[b]]);
            assert(in_gap(store2[path[a]], key, store[path[b]].keys[i]));
        } else {
            assert(store2[path[x]] == store[path[x]]);
            assert(store2[path[b]] == store[path[b]]);
            assert(in_gap(store[path[x]], key, store[path[b]].keys[i]));
        }
    }
}

/// A step of a walk leaves the path of another key ordered.
///
/// The walk stands on the node at index `j` of the path of its key; both
/// that path and the path of another key lead from the root through a
/// store that is a tree of well-formed nodes, and both are ordered, each
/// for its key. Then the path of the other key after the step is ordered
/// for that key.
#[verifier::rlimit(100)]
pub proof fn lemma_other_sound_step<K: Ord, V>(
    tree: TreeView<K, V>,
    store: Store<K, V>,
    path: Seq<Seq<char>>,
    j: int,
    status: Option<V>,
    other_path: Seq<Seq<char>>,
    other: K,
    other_status: Option<V>,
    fresh: Seq<char>,
)
    requires
        total_order::<K>(),
        tree.wf(),
        tree.pending is Some,
        tree.pending->Some_0.key != other,
        coherent(tree, store),
        tree_shaped(store),
        ordered(store),
        leads(store, path, tree.pending->Some_0.key, status),
        gapped(store, path, tree.pending->Some_0.key),
        0 <= j < path.len(),
        tree.here() == path[j],
        path[0] == root_name(),
        leads(store, other_path, other, other_status),
        gapped(store, other_path, other),
        other_path[0] == root_name(),
        !store.dom().contains(fresh),
    ensures
        gapped(
            written(store, tree.step(fresh).tree, tree.step(fresh).writes),
            passed(tree, other_path, other, fresh),
            other,
        ),
{
    let p = tree.pending->Some_0;
    let key = p.key;
    let here = tree.here();
    let node = tree.record(here);
    let c = tree.child();
    let full = tree.record(c);
    let s = tree.step(fresh);
    let store2 = written(store, s.tree, s.writes);
    let px = other_path;
    let last = px.len() - 1;
    lemma_step(tree, fresh);
    lemma_step_coherent(tree, store, fresh);
    lemma_not_root(tree.cached, here);
    assert(tree.holds(here));
    assert(store[here] == node);
    lemma_resident_ordered(tree, here);
    let on = exists|a: int| 0 <= a < px.len() && px[a] == here;
    let a = choose|a: int| 0 <= a < px.len() && px[a] == here;
    if on {
        lemma_unique_path(store, px, other, other_status, a, path, key, status, j);
        if a < last {
            assert(store[px[a]].route(other) == Route::<V>::Enter(px[a + 1]));
        }
    }
    if node.has(key) || node.is_leaf() {
        assert(s.writes[0] == WriteView::Save(here));
        assert(named(s.writes, here));
        lemma_stored(tree);
        lemma_put(node, key, p.value);
        assert forall|i: int| 0 <= i < px.len() && px[i] != here implies store2[#[trigger] px[i]]
            == store[px[i]] by {
            assert(store.dom().contains(px[i]));
            assert(!named(s.writes, px[i]));
        }
        if on {
            assert forall|i: int| 0 <= i < px.len() && i != a implies store2[#[trigger] px[i]]
                == store[px[i]] by {
                if i < a {
                    assert(px[i] != px[a]);
                } else {
                    assert(px[a] != px[i]);
                }
            }
            assert forall|i: int| 0 <= i < store2[px[a]].keys.len() implies (
            #[trigger] store2[px[a]].keys[i]) == key || store[px[a]].has(store2[px[a]].keys[i]) by {
                lemma_put_keys(node, key, p.value, i);
            }
            assert forall|i: int| 0 <= i < a implies #[trigger] in_gap(store[px[i]], other, key) by {
                assert(px[i] == path[i]);
                assert(store[path[i]].route(key) == Route::<V>::Enter(path[i + 1]));
                assert(store.dom().contains(px[i]) && store[px[i]].wf());
                lemma_enter_is_child(store[path[i]], key, path[i + 1]);
            }
            assert forall|b: int, i: int|
                a < b < px.len() && 0 <= i < store[px[b]].keys.len() implies #[trigger] in_gap(
                store2[px[a]],
                other,
                store[px[b]].keys[i],
            ) by {
                assert(in_gap(store[px[a]], other, store[px[b]].keys[i]));
                lemma_index_unique(node, key, node.index_of(key));
                lemma_gap_keys(node, node.put(key, p.value), other, store[px[b]].keys[i]);
            }
            lemma_gapped_gained(store, store2, px, a, other, key);
        } else {
            lemma_gapped_same(store, store2, px, other);
        }
    } else if c == root_name() || !resident(tree.cached, c) || !full.is_full() || tree.misplaced()
        || !tree.is_free(fresh) {
        assert(store2 =~= store);
    } else {
        assert(tree.holds(c));
        assert(store[c] == full);
        lemma_resident_ordered(tree, c);
        lemma_step_split(tree, fresh);
        lemma_split_written(tree, store, fresh);
        let m = full.median();
        let up = full.keys[m];
        let up_value = full.values[m];
        lemma_split(full);
        lemma_absorb(node, up, up_value, fresh);
        let grown = node.absorb(up, up_value, fresh);
        lemma_has_place(node.keys, key);
        let at = node.place_of(key);
        assert(is_place(node.keys, key, at));
        assert(slot(store, here, at));
        assert(child_at(store, here, at) == c);
        assert(store[path[j]].route(key) == Route::<V>::Enter(path[j + 1])) by {
            if j == path.len() - 1 {
            }
        }
        if key == up {
            lemma_index_unique(grown, key, node.place_of(up));
            assert(grown.put(key, p.value).keys == grown.keys);
            lemma_put(grown, key, p.value);
        }
        assert(store2[here].keys == grown.keys);
        assert(store2[here].wf());
        // the split child stands on the other path only right after the node above
        assert forall|b: int| 0 <= b < px.len() && #[trigger] px[b] == c implies b >= 1 && px[b - 1]
            == here && node.place_of(other) == at by {
            lemma_only_after(store, px, other, other_status, here, at, b);
        }
        assert forall|i: int|
            0 <= i < px.len() && px[i] != here && px[i] != c implies store2[#[trigger] px[i]]
            == store[px[i]] by {
            assert(store.dom().contains(px[i]));
        }
        if !on {
            assert forall|i: int| 0 <= i < px.len() implies store2[#[trigger] px[i]]
                == store[px[i]] by {
                if px[i] == c {
                    assert(px[i - 1] == here);
                }
            }
            lemma_gapped_same(store, store2, px, other);
        } else if a == last || node.place_of(other) != at {
            assert forall|i: int| 0 <= i < px.len() && i != a implies store2[#[trigger] px[i]]
                == store[px[i]] by {
                if i < a {
                    assert(px[i] != px[a]);
                } else {
                    assert(px[a] != px[i]);
                }
                if px[i] == c {
                    assert(px[i - 1] == here);
                    if i - 1 < a {
                        assert(px[i - 1] != px[a]);
                    } else if a < i - 1 {
                        assert(px[a] != px[i - 1]);
                    }
                }
            }
            assert forall|i: int| 0 <= i < store2[px[a]].keys.len() implies (
            #[trigger] store2[px[a]].keys[i]) == up || store[px[a]].has(store2[px[a]].keys[i]) by {
                lemma_grown_keys(node, up, up_value, fresh, i);
            }
            assert forall|i: int| 0 <= i < a implies #[trigger] in_gap(store[px[i]], other, up) by {
                assert(px[i] == path[i]);
                assert(in_gap(store[path[i]], key, store[path[j + 1]].keys[m]));
            }
            assert forall|b: int, i: int|
                a < b < px.len() && 0 <= i < store[px[b]].keys.len() implies #[trigger] in_gap(
                store2[px[a]],
                other,
                store[px[b]].keys[i],
            ) by {
                let y = store[px[b]].keys[i];
                assert(in_gap(store[px[a]], other, store[px[b]].keys[i]));
                assert(in_gap(store[path[j]], key, store[path[j + 1]].keys[m]));
                lemma_enter_is_child(node, other, px[a + 1]);
                lemma_absorb_places(node, up, up_value, fresh, other);
                lemma_absorb_places(node, up, up_value, fresh, y);
                lemma_gap_keys(grown, store2[px[a]], other, y);
            }
            lemma_gapped_gained(store, store2, px, a, other, up);
        } else {
            lemma_enter_is_child(node, other, px[a + 1]);
            assert(slot(store, here, node.place_of(other)));
            assert(px[a + 1] == c);
            assert forall|i: int|
                0 <= i < px.len() && i != a && i != a + 1 implies store2[#[trigger] px[i]]
                == store[px[i]] by {
                if i < a {
                    assert(px[i] != px[a]);
                } else {
                    assert(px[a] != px[i]);
                }
                if px[i] == c {
                    assert(px[i - 1] == here);
                    if i - 1 < a {
                        assert(px[i - 1] != px[a]);
                    } else if a < i - 1 {
                        assert(px[a] != px[i - 1]);
                    }
                }
            }
            if other == up {
                assert(full.keys[m] == up);
                assert forall|i: int| 0 <= i < store2[px[a]].keys.len() implies (
                #[trigger] store2[px[a]].keys[i]) == up || store[px[a]].has(
                    store2[px[a]].keys[i],
                ) by {
                    lemma_grown_keys(node, up, up_value, fresh, i);
                }
                lemma_gapped_taken(store, store2, px, a, other, up);
            } else {
                lemma_gapped_split(store, store2, px, a, other, other_status, up_value, fresh);
            }
        }
    }
}

/// A walk leaves the path of another key as it found it. The walk is as
/// in [`lemma_run_completes`]; another key has a path from the root that is
/// ordered for it, along which a search for it ends as `other_status` says,
/// and the store is a tree. Then along the returned path from the root,
/// which is ordered for the other key, a search for that key ends in the
/// same way in the store that the run leaves.
pub proof fn lemma_run_other_sound<K: Ord, V>(
    tree: TreeView<K, V>,
    store: Store<K, V>,
    path: Seq<Seq<char>>,
    j: int,
    status: Option<V>,
    other_path: Seq<Seq<char>>,
    other: K,
    other_status: Option<V>,
    names: Seq<Seq<char>>,
) -> (path2: Seq<Seq<char>>)
    requires
        total_order::<K>(),
        tree.wf(),
        tree.pending is Some,
        tree.pending->Some_0.key != other,
        coherent(tree, store),
        ordered(store),
        uniform(store, tree.capacity),
        tree_shaped(store),
        leads(store, path, tree.pending->Some_0.key, status),
        gapped(store, path, tree.pending->Some_0.key),
        0 <= j < path.len(),
        tree.here() == path[j],
        path[0] == root_name(),
        leads(store, other_path, other, other_status),
        gapped(store, other_path, other),
        other_path[0] == root_name(),
        new_names(store, names),
        names.len() >= needed(tree, path, j),
    ensures
        run(tree, store, names) is Some,
        leads(run(tree, store, names)->Some_0.store, path2, other, other_status),
        gapped(run(tree, store, names)->Some_0.store, path2, other),
        path2[0] == root_name(),
    decreases names.len(),
{
    let fresh = names[0];
    let rest = names.skip(1);
    let s = tree.step(fresh);
    let store2 = written(store, s.tree, s.writes);
    let path1 = lemma_walk_step(tree, store, path, j, status, fresh);
    lemma_sound_step(tree, store, path, j, status, fresh);
    let other1 = lemma_other_step(tree, store, other_path, other, other_status, fresh);
    lemma_other_sound_step(
        tree,
        store,
        path,
        j,
        status,
        other_path,
        other,
        other_status,
        fresh,
    );
    lemma_step_shape(tree, store, fresh);
    lemma_written_names(tree, store, fresh);
    assert(new_names(store2, rest)) by {
        assert forall|i: int| 0 <= i < rest.len() implies !store2.dom().contains(
            #[trigger] rest[i],
        ) by {
            assert(rest[i] == names[i + 1]);
            assert(names[0] != names[i + 1]);
        }
        assert forall|a: int, b: int| 0 <= a < b < rest.len() implies #[trigger] rest[a]
            != #[trigger] rest[b] by {
            assert(names[a + 1] != names[b + 1]);
        }
    }
    match s.next {
        NextView::Done(previous) => other1,
        NextView::Continue => {
            lemma_run_other_sound(
                s.tree,
                store2,
                path1,
                j + 1,
                status,
                other1,
                other,
                other_status,
                rest,
            )
        },
        NextView::Load(name) => {
            lemma_supplied_coherent(tree, store, name);
            let tree2 = tree.supplied(name, store[name]);
            assert(tree2.holds(path[j + 1]));
            assert(tree2.here() == tree.here());
            assert(tree2.capacity == tree.capacity);
            assert(store2 =~= store);
            lemma_run_other_sound(
                tree2,
                store,
                path,
                j,
                status,
                other_path,
                other,
                other_status,
                rest,
            )
        },
        _ => other_path,
    }
}

/// An insertion leaves the path of another key as it found it. The
/// insertion is as in [`lemma_insertion_completes`]; another key has a path
/// from the root that is ordered for it, along which a search for it ends
/// as `other_status` says, and the store is a tree. Then along the returned
/// path from the root, which is ordered for the other key, a search for
/// that key ends in the same way in the store that the insertion leaves.
pub proof fn lemma_insertion_other_sound<K: Ord, V>(
    tree: TreeView<K, V>,
    store: Store<K, V>,
    path: Seq<Seq<char>>,
    key: K,
    value: V,
    status: Option<V>,
    other_path: Seq<Seq<char>>,
    other: K,
    other_status: Option<V>,
    left: Seq<char>,
    right: Seq<char>,
    names: Seq<Seq<char>>,
) -> (path2: Seq<Seq<char>>)
    requires
        total_order::<K>(),
        tree.wf(),
        key != other,
        coherent(tree, store),
        ordered(store),
        uniform(store, tree.capacity),
        tree_shaped(store),
        leads(store, path, key, status),
        gapped(store, path, key),
        path[0] == root_name(),
        leads(store, other_path, other, other_status),
        gapped(store, other_path, other),
        other_path[0] == root_name(),
        new_names(store, seq![left, right] + names),
        names.len() >= 2 * path.len() + 2,
    ensures
        insertion(tree, store, key, value, left, right, names) is Some,
        leads(
            insertion(tree, store, key, value, left, right, names)->Some_0.store,
            path2,
            other,
            other_status,
        ),
        gapped(insertion(tree, store, key, value, left, right, names)->Some_0.store, path2, other),
        path2[0] == root_name(),
{
    let all = seq![left, right] + names;
    assert(all[0] == left && all[1] == right);
    let s = tree.start(key, value, left, right);
    let store2 = written(store, s.tree, s.writes);
    let path1 = lemma_walk_start(tree, store, path, key, key, value, status, left, right);
    lemma_sound_start(tree, store, path, key, key, value, status, left, right);
    let other1 = lemma_walk_start(
        tree,
        store,
        other_path,
        other,
        key,
        value,
        other_status,
        left,
        right,
    );
    lemma_sound_start(tree, store, other_path, other, key, value, other_status, left, right);
    lemma_start_shape(tree, store, key, value, left, right);
    assert(new_names(store2, names)) by {
        assert forall|i: int| 0 <= i < names.len() implies !store2.dom().contains(
            #[trigger] names[i],
        ) by {
            assert(names[i] == all[i + 2]);
            assert(all[0] != all[i + 2]);
            assert(all[1] != all[i + 2]);
            assert(!store.dom().contains(all[i + 2]));
        }
        assert forall|a: int, b: int| 0 <= a < b < names.len() implies #[trigger] names[a]
            != #[trigger] names[b] by {
            assert(all[a + 2] != all[b + 2]);
        }
    }
    lemma_run_other_sound(s.tree, store2, path1, 0, status, other1, other, other_status, names)
}

/// A search from the root has one end: two paths of a key from the root
/// are the same, and end in the same way.
pub proof fn lemma_one_end<K: Ord, V>(
    store: Store<K, V>,
    key: K,
    pa: Seq<Seq<char>>,
    s1: Option<V>,
    pb: Seq<Seq<char>>,
    s2: Option<V>,
)
    requires
        leads(store, pa, key, s1),
        leads(store, pb, key, s2),
        pa[0] == pb[0],
    ensures
        pa == pb,
        s1 == s2,
{
    lemma_same_start(store, key, pa, s1, pb, s2, if pa.len() <= pb.len() {
        pa.len() - 1
    } else {
        pb.len() - 1
    });
    let n = if pa.len() <= pb.len() {
        pa.len() - 1
    } else {
        pb.len() - 1
    };
    if pa.len() < pb.len() {
        assert(store[pb[n]].route(key) == Route::<V>::Enter(pb[n + 1]));
    } else if pb.len() < pa.len() {
        assert(store[pa[n]].route(key) == Route::<V>::Enter(pa[n + 1]));
    }
    assert(pa =~= pb);
}

/// Two paths of a key from the same node are the same as far as both go.
proof fn lemma_same_start<K: Ord, V>(
    store: Store<K, V>,
    key: K,
    pa: Seq<Seq<char>>,
    s1: Option<V>,
    pb: Seq<Seq<char>>,
    s2: Option<V>,
    n: int,
)
    requires
        leads(store, pa, key, s1),
        leads(store, pb, key, s2),
        pa[0] == pb[0],
        0 <= n < pa.len(),
        n < pb.len(),
    ensures
        forall|i: int| 0 <= i <= n ==> #[trigger] pa[i] == pb[i],
    decreases n,
{
    if n > 0 {
        lemma_same_start(store, key, pa, s1, pb, s2, n - 1);
        assert(pa[n - 1] == pb[n - 1]);
        assert(store[pa[n - 1]].route(key) == Route::<V>::Enter(pa[n]));
        assert(store[pb[n - 1]].route(key) == Route::<V>::Enter(pb[n]));
    }
}

} // verus!
