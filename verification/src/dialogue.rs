//! What the dialogue between the tree and its host achieves.
//!
//! The tree holds the root and a bounded number of other nodes; the rest is
//! with the host. This module models the host as a store of node records by
//! name and an insertion as the run of steps against it: the host carries
//! out the writes of every step and supplies the node that is asked for.
//! The laws here say what follows where the host behaves like that: the
//! store stays what the tree believes it to be, and an insertion that is
//! completed returns what the store held under the key and leaves the new
//! value where a search from the root finds it.

use crate::cache::{rank_of, resident};
use crate::names::root_name;
use crate::node::{
    is_place, lemma_absorb, lemma_absorb_routes, lemma_halves_route, lemma_index_unique,
    lemma_place_unique, lemma_put, lemma_split, NodeView, Route,
};
use crate::order::{key_lt, lemma_trichotomy, total_order};
use crate::tree::{
    lemma_not_root, lemma_resident_ordered, lemma_root_split, lemma_start, lemma_start_unwritten,
    lemma_step, lemma_step_split, lemma_step_unwritten, lemma_supplied, lemma_supplied_others,
    write_name, LookView, NextView, TreeView, WriteView,
};
use vstd::prelude::*;

verus! {

/// The node records that the host keeps, by name.
pub type Store<K, V> = Map<Seq<char>, NodeView<K, V>>;

/// Some write speaks of the name.
pub open spec fn named(writes: Seq<WriteView>, name: Seq<char>) -> bool {
    exists|i: int| 0 <= i < writes.len() && write_name(#[trigger] writes[i]) == name
}

/// The store after the host carried out the writes of a step: every node
/// that a write speaks of is stored as it stands in the tree.
pub open spec fn written<K: Ord, V>(
    store: Store<K, V>,
    tree: TreeView<K, V>,
    writes: Seq<WriteView>,
) -> Store<K, V> {
    Map::new(
        |name: Seq<char>| store.dom().contains(name) || named(writes, name),
        |name: Seq<char>|
            if named(writes, name) {
                tree.record(name)
            } else {
                store[name]
            },
    )
}

/// The store holds every resident node as it stands in the tree.
pub open spec fn coherent<K: Ord, V>(tree: TreeView<K, V>, store: Store<K, V>) -> bool {
    forall|name: Seq<char>| #[trigger]
        tree.holds(name) ==> store.dom().contains(name) && store[name] == tree.record(name)
}

/// A search for `key` along `path` ends as `status` says: the nodes of the
/// path are stored and differ from each other, each sends the search to the
/// next, and the last one holds the key with the value of `status` or is a
/// leaf that lacks it.
pub open spec fn leads<K: Ord, V>(
    store: Store<K, V>,
    path: Seq<Seq<char>>,
    key: K,
    status: Option<V>,
) -> bool {
    &&& path.len() > 0
    &&& forall|i: int| 0 <= i < path.len() ==> store.dom().contains(#[trigger] path[i])
    &&& forall|i: int, j: int| 0 <= i < j < path.len() ==> #[trigger] path[i] != #[trigger] path[j]
    &&& forall|i: int|
        0 <= i < path.len() - 1 ==> store[#[trigger] path[i]].route(key) == Route::<V>::Enter(
            path[i + 1],
        )
    &&& store[path.last()].route(key) == match status {
        Some(value) => Route::Found(value),
        None => Route::Absent,
    }
}

/// Once the host has carried out the writes of a step, the store holds
/// every resident node as it stands, as it did before the step.
pub proof fn lemma_step_coherent<K: Ord, V>(
    tree: TreeView<K, V>,
    store: Store<K, V>,
    fresh: Seq<char>,
)
    requires
        total_order::<K>(),
        tree.wf(),
        tree.pending is Some,
        coherent(tree, store),
    ensures
        coherent(tree.step(fresh).tree, written(store, tree.step(fresh).tree, tree.step(fresh).writes)),
        forall|name: Seq<char>|
            !named(tree.step(fresh).writes, name) && store.dom().contains(name) ==> written(
                store,
                tree.step(fresh).tree,
                tree.step(fresh).writes,
            )[name] == store[name],
{
    let s = tree.step(fresh);
    let after = written(store, s.tree, s.writes);
    assert forall|name: Seq<char>| #[trigger] s.tree.holds(name) implies after.dom().contains(name)
        && after[name] == s.tree.record(name) by {
        if !named(s.writes, name) {
            assert forall|i: int| 0 <= i < s.writes.len() implies write_name(
                #[trigger] s.writes[i],
            ) != name by {}
            lemma_step_unwritten(tree, fresh, name);
            assert(tree.holds(name));
        }
    }
}

/// Taking in a node as the store holds it keeps the store what the tree
/// believes it to be.
pub proof fn lemma_supplied_coherent<K: Ord, V>(
    tree: TreeView<K, V>,
    store: Store<K, V>,
    name: Seq<char>,
)
    requires
        total_order::<K>(),
        tree.wf(),
        coherent(tree, store),
        store.dom().contains(name),
        store[name].wf(),
    ensures
        tree.supplied(name, store[name]).wf(),
        coherent(tree.supplied(name, store[name]), store),
        tree.supplied(name, store[name]).holds(name),
        tree.supplied(name, store[name]).pending == tree.pending,
{
    let after = tree.supplied(name, store[name]);
    lemma_supplied(tree, name, store[name]);
    assert forall|other: Seq<char>| #[trigger] after.holds(other) implies store.dom().contains(other)
        && store[other] == after.record(other) by {
        if other != name {
            lemma_supplied_others(tree, name, store[name], other);
            assert(tree.holds(other));
        } else if tree.holds(name) {
        }
    }
}

/// Every node of the store satisfies the node invariant; in particular its
/// keys are strictly increasing.
pub open spec fn ordered<K: Ord, V>(store: Store<K, V>) -> bool {
    forall|name: Seq<char>| store.dom().contains(name) ==> (#[trigger] store[name]).wf()
}

/// Whatever a step has the host write satisfies the node invariant: a store
/// of nodes with strictly increasing keys stays one.
pub proof fn lemma_step_ordered<K: Ord, V>(tree: TreeView<K, V>, store: Store<K, V>, fresh: Seq<char>)
    requires
        total_order::<K>(),
        tree.wf(),
        tree.pending is Some,
        ordered(store),
    ensures
        ordered(written(store, tree.step(fresh).tree, tree.step(fresh).writes)),
{
    let s = tree.step(fresh);
    let after = written(store, s.tree, s.writes);
    lemma_step(tree, fresh);
    assert forall|name: Seq<char>| after.dom().contains(name) implies (#[trigger] after[name]).wf() by {
        if named(s.writes, name) {
            let i = choose|i: int| 0 <= i < s.writes.len() && write_name(#[trigger] s.writes[i]) == name;
            assert(s.tree.record(write_name(s.writes[i])).wf());
        } else {
            assert(store[name].wf());
        }
    }
}

/// Whatever the start of an insertion has the host write satisfies the node
/// invariant: a store of nodes with strictly increasing keys stays one.
pub proof fn lemma_start_ordered<K: Ord, V>(
    tree: TreeView<K, V>,
    store: Store<K, V>,
    key: K,
    value: V,
    left: Seq<char>,
    right: Seq<char>,
)
    requires
        total_order::<K>(),
        tree.wf(),
        ordered(store),
    ensures
        ordered(
            written(
                store,
                tree.start(key, value, left, right).tree,
                tree.start(key, value, left, right).writes,
            ),
        ),
{
    let s = tree.start(key, value, left, right);
    let after = written(store, s.tree, s.writes);
    lemma_start(tree, key, value, left, right);
    assert forall|name: Seq<char>| after.dom().contains(name) implies (#[trigger] after[name]).wf() by {
        if named(s.writes, name) {
            let i = choose|i: int| 0 <= i < s.writes.len() && write_name(#[trigger] s.writes[i]) == name;
            assert(s.tree.holds(write_name(s.writes[i])));
            lemma_resident_ordered(s.tree, name);
        } else {
            assert(store[name].wf());
        }
    }
}

/// The names of the store after a step are those of the store before it
/// and, where the step made a node, the fresh name.
pub proof fn lemma_written_names<K: Ord, V>(
    tree: TreeView<K, V>,
    store: Store<K, V>,
    fresh: Seq<char>,
)
    requires
        total_order::<K>(),
        tree.wf(),
        tree.pending is Some,
        coherent(tree, store),
    ensures
        forall|name: Seq<char>| #[trigger]
            written(store, tree.step(fresh).tree, tree.step(fresh).writes).dom().contains(name) ==> (
            store.dom().contains(name) || name == fresh),
        forall|name: Seq<char>|
            store.dom().contains(name) ==> #[trigger] written(
                store,
                tree.step(fresh).tree,
                tree.step(fresh).writes,
            ).dom().contains(name),
{
    let s = tree.step(fresh);
    let after = written(store, s.tree, s.writes);
    let p = tree.pending->Some_0;
    let node = tree.record(tree.here());
    let c = tree.child();
    lemma_not_root(tree.cached, tree.here());
    assert(tree.holds(tree.here()));
    if node.has(p.key) || node.is_leaf() {
        assert forall|name: Seq<char>| #[trigger] after.dom().contains(name) implies (
        store.dom().contains(name) || name == fresh) by {
            if named(s.writes, name) {
                assert(name == tree.here());
            }
        }
    } else if c == root_name() || !resident(tree.cached, c) || !tree.record(c).is_full()
        || tree.misplaced() || !tree.is_free(fresh) {
        assert forall|name: Seq<char>| #[trigger] after.dom().contains(name) implies (
        store.dom().contains(name) || name == fresh) by {
            if named(s.writes, name) {
            }
        }
    } else {
        lemma_step_split(tree, fresh);
        lemma_named3(s.writes, fresh, c, tree.here());
        assert(tree.holds(c));
    }
}

/// The path of a key after a step of the walk that stands on the node at
/// index `j` of the path. The path ends at that node where the step has
/// stored the pair there; it leads through the new sibling where the step
/// has split the child and the key stands after the median; otherwise it
/// is the path as it was.
pub open spec fn walked<K: Ord, V>(
    tree: TreeView<K, V>,
    path: Seq<Seq<char>>,
    j: int,
    fresh: Seq<char>,
) -> Seq<Seq<char>> {
    let p = tree.pending->Some_0;
    let node = tree.record(tree.here());
    let c = tree.child();
    let full = tree.record(c);
    let up = full.keys[full.median()];
    if node.has(p.key) || node.is_leaf() {
        path.take(j + 1)
    } else if c == root_name() || !resident(tree.cached, c) || !full.is_full() || tree.misplaced()
        || !tree.is_free(fresh) {
        path
    } else if p.key == up {
        path.take(j + 1)
    } else if key_lt(up, p.key) {
        path.update(j + 1, fresh)
    } else {
        path
    }
}

/// The path of a key after the start of an insertion. Where the root was
/// split, the path leads through the new node that took over the half with
/// the key, or ends at the root where the key is the median; otherwise it
/// is the path as it was.
pub open spec fn set_out<K: Ord, V>(
    tree: TreeView<K, V>,
    path: Seq<Seq<char>>,
    sought: K,
    left: Seq<char>,
    right: Seq<char>,
) -> Seq<Seq<char>> {
    let up = tree.root.keys[tree.root.median()];
    if !tree.root.is_full() || sought == up {
        path
    } else if key_lt(sought, up) {
        path.insert(1, left)
    } else {
        path.insert(1, right)
    }
}

/// A path up to a node that now holds the key is a path that finds the
/// key, where the nodes before that node are stored as they were.
pub proof fn lemma_leads_cut<K: Ord, V>(
    store: Store<K, V>,
    store2: Store<K, V>,
    path: Seq<Seq<char>>,
    j: int,
    key: K,
    status: Option<V>,
    value: V,
)
    requires
        leads(store, path, key, status),
        0 <= j < path.len(),
        forall|i: int|
            0 <= i < j ==> store2.dom().contains(#[trigger] path[i]) && store2[path[i]]
                == store[path[i]],
        store2.dom().contains(path[j]),
        store2[path[j]].route(key) == Route::Found(value),
    ensures
        leads(store2, path.take(j + 1), key, Some(value)),
        path.take(j + 1)[0] == path[0],
{
    let path2 = path.take(j + 1);
    assert forall|i: int| 0 <= i < path2.len() - 1 implies store2[#[trigger] path2[i]].route(key)
        == Route::<V>::Enter(path2[i + 1]) by {
        assert(store2[path[i]] == store[path[i]]);
        assert(store[path[i]].route(key) == Route::<V>::Enter(path[i + 1]));
    }
    assert forall|i: int| 0 <= i < path2.len() implies store2.dom().contains(
        #[trigger] path2[i],
    ) by {
        if i < j {
            assert(store2.dom().contains(path[i]));
        }
    }
    assert forall|a: int, b: int| 0 <= a < b < path2.len() implies #[trigger] path2[a]
        != #[trigger] path2[b] by {
        assert(path[a] != path[b]);
    }
}

/// A path through a child that was split is still a path to where the
/// search ended, through the child or through its new sibling, where the
/// other nodes are stored as they were.
pub proof fn lemma_leads_split<K: Ord, V>(
    store: Store<K, V>,
    store2: Store<K, V>,
    path: Seq<Seq<char>>,
    j: int,
    key: K,
    status: Option<V>,
    fresh: Seq<char>,
    turned: bool,
)
    requires
        leads(store, path, key, status),
        0 <= j,
        j + 1 < path.len(),
        !store.dom().contains(fresh),
        store2.dom().contains(fresh),
        store2.dom().contains(path[j]),
        store2.dom().contains(path[j + 1]),
        forall|i: int|
            0 <= i < path.len() && i != j && i != j + 1 ==> store2.dom().contains(
                #[trigger] path[i],
            ) && store2[path[i]] == store[path[i]],
        turned ==> store2[path[j]].route(key) == Route::<V>::Enter(fresh) && store2[fresh].route(
            key,
        ) == store[path[j + 1]].route(key),
        !turned ==> store2[path[j]].route(key) == Route::<V>::Enter(path[j + 1]) && store2[path[j
            + 1]].route(key) == store[path[j + 1]].route(key),
    ensures
        leads(
            store2,
            if turned {
                path.update(j + 1, fresh)
            } else {
                path
            },
            key,
            status,
        ),
{
    let path2 = if turned {
        path.update(j + 1, fresh)
    } else {
        path
    };
    let last = path.len() - 1;
    assert forall|i: int| 0 <= i < path2.len() implies store2.dom().contains(
        #[trigger] path2[i],
    ) by {
        if i != j && i != j + 1 {
            assert(store2.dom().contains(path[i]));
        }
    }
    assert forall|a: int, b: int| 0 <= a < b < path2.len() implies #[trigger] path2[a]
        != #[trigger] path2[b] by {
        assert(path[a] != path[b]);
        assert(store.dom().contains(path[a]));
        assert(store.dom().contains(path[b]));
    }
    assert forall|i: int| 0 <= i < path2.len() - 1 implies store2[#[trigger] path2[i]].route(key)
        == Route::<V>::Enter(path2[i + 1]) by {
        if i == j {
        } else if i == j + 1 {
            assert(store[path[j + 1]].route(key) == Route::<V>::Enter(path[j + 2]));
            assert(store2[path[j + 2]] == store[path[j + 2]]);
        } else {
            assert(store[path[i]].route(key) == Route::<V>::Enter(path[i + 1]));
            assert(store2[path[i]] == store[path[i]]);
        }
    }
    if last != j + 1 {
        assert(store2[path[last]] == store[path[last]]);
    }
}

/// What the store holds after the split of a full child: the child with its
/// lower half, the new sibling with the upper half, the node above with the
/// median taken in, and every other node as before.
#[verifier::rlimit(50)]
pub proof fn lemma_split_written<K: Ord, V>(
    tree: TreeView<K, V>,
    store: Store<K, V>,
    fresh: Seq<char>,
)
    requires
        total_order::<K>(),
        tree.wf(),
        tree.pending is Some,
        coherent(tree, store),
        !tree.record(tree.here()).is_leaf(),
        !tree.record(tree.here()).has(tree.pending->Some_0.key),
        tree.child() != root_name(),
        resident(tree.cached, tree.child()),
        tree.record(tree.child()).is_full(),
        !tree.misplaced(),
        tree.is_free(fresh),
    ensures
        ({
            let s = tree.step_split(fresh);
            let store2 = written(store, s.tree, s.writes);
            let full = tree.record(tree.child());
            let grown = tree.record(tree.here()).absorb(
                full.keys[full.median()],
                full.values[full.median()],
                fresh,
            );
            let p = tree.pending->Some_0;
            &&& store2.dom().contains(fresh)
            &&& store2.dom().contains(tree.child())
            &&& store2.dom().contains(tree.here())
            &&& store2[fresh] == full.upper_half()
            &&& store2[tree.child()] == full.lower_half()
            &&& store2[tree.here()] == if p.key == full.keys[full.median()] {
                grown.put(p.key, p.value)
            } else {
                grown
            }
            &&& forall|name: Seq<char>|
                store.dom().contains(name) && name != fresh && name != tree.child() && name
                    != tree.here() ==> #[trigger] store2.dom().contains(name) && store2[name]
                    == store[name]
        }),
{
    let s = tree.step_split(fresh);
    lemma_step_split(tree, fresh);
    lemma_named3(s.writes, fresh, tree.child(), tree.here());
}

/// The names that the three writes of a split speak of.
proof fn lemma_named3(writes: Seq<WriteView>, a: Seq<char>, b: Seq<char>, c: Seq<char>)
    requires
        writes.len() == 3,
        write_name(writes[0]) == a,
        write_name(writes[1]) == b,
        write_name(writes[2]) == c,
    ensures
        forall|name: Seq<char>|
            #[trigger] named(writes, name) <==> name == a || name == b || name == c,
{
    assert(write_name(writes[0]) == a);
    assert(write_name(writes[1]) == b);
    assert(write_name(writes[2]) == c);
    assert forall|name: Seq<char>| #[trigger] named(writes, name) implies name == a || name == b
        || name == c by {
        let i = choose|i: int| 0 <= i < writes.len() && write_name(#[trigger] writes[i]) == name;
        if i == 0 {
        } else if i == 1 {
        } else {
        }
    }
}

/// One step of a walk along the path of its key. The walk stands on the
/// node at index `j` of a path along which a search for the key ends as
/// `status` says. Unless the step gives the insertion up, the store still
/// is what the tree believes it to be, and:
///
/// - a step that completes the insertion reports `status`, and a search
///   along the returned path now finds the new value;
/// - a step after which the walk goes on has moved the walk to the next
///   node of the returned path, along which a search still ends as `status`
///   says;
/// - a step that asks for a node asks for the next node of the path and
///   changes nothing.
#[verifier::rlimit(50)]
pub proof fn lemma_walk_step<K: Ord, V>(
    tree: TreeView<K, V>,
    store: Store<K, V>,
    path: Seq<Seq<char>>,
    j: int,
    status: Option<V>,
    fresh: Seq<char>,
) -> (path2: Seq<Seq<char>>)
    requires
        total_order::<K>(),
        tree.wf(),
        tree.pending is Some,
        coherent(tree, store),
        leads(store, path, tree.pending->Some_0.key, status),
        0 <= j < path.len(),
        tree.here() == path[j],
        !store.dom().contains(fresh),
    ensures
        tree.step(fresh).tree.wf(),
        coherent(tree.step(fresh).tree, written(store, tree.step(fresh).tree, tree.step(fresh).writes)),
        path2[0] == path[0],
        path2 == walked(tree, path, j, fresh),
        match tree.step(fresh).next {
            NextView::Done(previous) => {
                &&& previous == status
                &&& tree.step(fresh).tree.pending is None
                &&& leads(
                    written(store, tree.step(fresh).tree, tree.step(fresh).writes),
                    path2,
                    tree.pending->Some_0.key,
                    Some(tree.pending->Some_0.value),
                )
            },
            NextView::Continue => {
                &&& leads(
                    written(store, tree.step(fresh).tree, tree.step(fresh).writes),
                    path2,
                    tree.pending->Some_0.key,
                    status,
                )
                &&& j + 1 < path2.len()
                &&& tree.step(fresh).tree.pending is Some
                &&& tree.step(fresh).tree.pending->Some_0.key == tree.pending->Some_0.key
                &&& tree.step(fresh).tree.pending->Some_0.value == tree.pending->Some_0.value
                &&& tree.step(fresh).tree.here() == path2[j + 1]
            },
            NextView::Load(name) => {
                &&& j + 1 < path.len()
                &&& name == path[j + 1]
                &&& tree.step(fresh).tree == tree
                &&& written(store, tree.step(fresh).tree, tree.step(fresh).writes) == store
                &&& path2 == path
            },
            _ => true,
        },
{
    let p = tree.pending->Some_0;
    let key = p.key;
    let here = tree.here();
    let node = tree.record(here);
    let c = tree.child();
    let full = tree.record(c);
    let s = tree.step(fresh);
    let store2 = written(store, s.tree, s.writes);
    let last = path.len() - 1;
    lemma_step(tree, fresh);
    lemma_step_coherent(tree, store, fresh);
    lemma_not_root(tree.cached, here);
    assert(tree.holds(here));
    assert(store[here] == node);
    lemma_resident_ordered(tree, here);
    if j < last {
        assert(store[path[j]].route(key) == Route::<V>::Enter(path[j + 1]));
    }
    if node.has(key) || node.is_leaf() {
        lemma_put(node, key, p.value);
        lemma_stored(tree);
        assert(s.writes[0] == WriteView::Save(here));
        assert(named(s.writes, here));
        lemma_index_unique(
            node.put(key, p.value),
            key,
            node.put(key, p.value).index_of(key),
        );
        assert forall|i: int| 0 <= i < j implies store2.dom().contains(#[trigger] path[i])
            && store2[path[i]] == store[path[i]] by {
            assert(path[i] != path[j]);
            assert(store.dom().contains(path[i]));
            assert(!named(s.writes, path[i]));
        }
        lemma_leads_cut(store, store2, path, j, key, status, p.value);
        path.take(j + 1)
    } else if c == root_name() || !resident(tree.cached, c) {
        assert(store2 =~= store);
        path
    } else if !full.is_full() {
        assert(store2 =~= store);
        path
    } else if tree.misplaced() || !tree.is_free(fresh) {
        path
    } else {
        assert(c == path[j + 1]);
        assert(tree.holds(c));
        assert(store[c] == full);
        lemma_resident_ordered(tree, c);
        lemma_step_split(tree, fresh);
        lemma_split_written(tree, store, fresh);
        let up = full.keys[full.median()];
        let up_value = full.values[full.median()];
        lemma_split(full);
        lemma_absorb(node, up, up_value, fresh);
        lemma_absorb_routes(node, up, up_value, fresh, key);
        lemma_halves_route(full, key);
        lemma_trichotomy(key, up);
        let grown = node.absorb(up, up_value, fresh);
        assert forall|i: int|
            0 <= i < path.len() && i != j && i != j + 1 implies store2.dom().contains(
            #[trigger] path[i],
        ) && store2[path[i]] == store[path[i]] by {
            if i < j {
                assert(path[i] != path[j]);
                assert(path[i] != path[j + 1]);
            } else {
                assert(path[j] != path[i]);
                assert(path[j + 1] != path[i]);
            }
            assert(store.dom().contains(path[i]));
        }
        if key == up {
            lemma_index_unique(grown, key, node.place_of(up));
            lemma_put(grown, key, p.value);
            lemma_index_unique(
                grown.put(key, p.value),
                key,
                grown.put(key, p.value).index_of(key),
            );
            if j + 1 < last {
                assert(store[path[j + 1]].route(key) == Route::<V>::Enter(path[j + 2]));
            }
            lemma_leads_cut(store, store2, path, j, key, status, p.value);
            path.take(j + 1)
        } else {
            lemma_leads_split(store, store2, path, j, key, status, fresh, key_lt(up, key));
            if key_lt(up, key) {
                path.update(j + 1, fresh)
            } else {
                path
            }
        }
    }
}

/// Once the host has carried out the writes of the start of an insertion,
/// under names that are new to the store, the insertion is started, the
/// store holds every resident node as it stands, and it has no names but
/// those that it had and the two new ones.
pub proof fn lemma_start_coherent<K: Ord, V>(
    tree: TreeView<K, V>,
    store: Store<K, V>,
    key: K,
    value: V,
    left: Seq<char>,
    right: Seq<char>,
)
    requires
        total_order::<K>(),
        tree.wf(),
        coherent(tree, store),
        !store.dom().contains(left),
        !store.dom().contains(right),
        left != right,
    ensures
        ({
            let s = tree.start(key, value, left, right);
            let store2 = written(store, s.tree, s.writes);
            &&& s.next == NextView::<V>::Continue
            &&& s.tree.wf()
            &&& s.tree.pending == Some(crate::tree::PendingView { key, value, at: None })
            &&& coherent(s.tree, store2)
            &&& forall|name: Seq<char>| #[trigger]
                store2.dom().contains(name) ==> store.dom().contains(name) || name == left || name
                    == right
        }),
{
    let s = tree.start(key, value, left, right);
    let store2 = written(store, s.tree, s.writes);
    lemma_start(tree, key, value, left, right);
    assert(tree.holds(root_name()));
    assert(store.dom().contains(root_name()));
    assert(tree.is_free(left) && tree.is_free(right)) by {
        if resident(tree.cached, left) {
            assert(tree.holds(left));
        }
        if resident(tree.cached, right) {
            assert(tree.holds(right));
        }
    }
    assert forall|name: Seq<char>| #[trigger] s.tree.holds(name) implies store2.dom().contains(name)
        && store2[name] == s.tree.record(name) by {
        if !named(s.writes, name) {
            assert forall|i: int| 0 <= i < s.writes.len() implies write_name(
                #[trigger] s.writes[i],
            ) != name by {}
            lemma_start_unwritten(tree, key, value, left, right, name);
            assert(tree.holds(name));
        }
    }
    if tree.root.is_full() {
        lemma_root_split(tree.idle(), left, right);
        assert(s.writes =~= seq![
            WriteView::Create(left),
            WriteView::Create(right),
            WriteView::Save(root_name()),
        ]);
        lemma_named3(s.writes, left, right, root_name());
    } else {
        assert(store2 =~= store);
    }
}

/// A path whose first node was split is still a path to where the search
/// ended, through the new node that took over the half with the key.
pub proof fn lemma_leads_insert<K: Ord, V>(
    store: Store<K, V>,
    store2: Store<K, V>,
    path: Seq<Seq<char>>,
    key: K,
    status: Option<V>,
    half: Seq<char>,
)
    requires
        leads(store, path, key, status),
        !store.dom().contains(half),
        store2.dom().contains(half),
        store2.dom().contains(path[0]),
        store2[path[0]].route(key) == Route::<V>::Enter(half),
        store2[half].route(key) == store[path[0]].route(key),
        forall|i: int|
            1 <= i < path.len() ==> store2.dom().contains(#[trigger] path[i]) && store2[path[i]]
                == store[path[i]],
    ensures
        leads(store2, path.insert(1, half), key, status),
        path.insert(1, half)[0] == path[0],
{
    let path2 = path.insert(1, half);
    assert forall|i: int| 0 <= i < path2.len() implies store2.dom().contains(
        #[trigger] path2[i],
    ) by {
        if i >= 2 {
            assert(path2[i] == path[i - 1]);
            assert(store2.dom().contains(path[i - 1]));
        }
    }
    assert forall|a: int, b: int| 0 <= a < b < path2.len() implies #[trigger] path2[a]
        != #[trigger] path2[b] by {
        let a0 = if a == 0 {
            0
        } else {
            a - 1
        };
        let b0 = b - 1;
        assert(store.dom().contains(path[a0]));
        assert(store.dom().contains(path[b0]));
        if a != 1 && b != 1 {
            assert(path[a0] != path[b0]);
        }
    }
    assert forall|i: int| 0 <= i < path2.len() - 1 implies store2[#[trigger] path2[i]].route(key)
        == Route::<V>::Enter(path2[i + 1]) by {
        if i == 0 {
        } else if i == 1 {
            assert(store[path[0]].route(key) == Route::<V>::Enter(path[1]));
        } else {
            assert(path2[i] == path[i - 1]);
            assert(store[path[i - 1]].route(key) == Route::<V>::Enter(path[i]));
            assert(store2[path[i - 1]] == store[path[i - 1]]);
        }
    }
    if path.len() > 1 {
        assert(path2.last() == path.last());
        assert(store2[path[path.len() - 1]] == store[path[path.len() - 1]]);
    }
}

/// The start of an insertion against a store that the names for new nodes
/// are new to. The insertion is started, the store still is what the tree
/// believes it to be, and a search for a key, the inserted one or another,
/// ends along the returned path, which starts at the root, as it ended
/// before.
#[verifier::rlimit(50)]
pub proof fn lemma_walk_start<K: Ord, V>(
    tree: TreeView<K, V>,
    store: Store<K, V>,
    path: Seq<Seq<char>>,
    sought: K,
    key: K,
    value: V,
    status: Option<V>,
    left: Seq<char>,
    right: Seq<char>,
) -> (path2: Seq<Seq<char>>)
    requires
        total_order::<K>(),
        tree.wf(),
        coherent(tree, store),
        leads(store, path, sought, status),
        path[0] == root_name(),
        !store.dom().contains(left),
        !store.dom().contains(right),
        left != right,
    ensures
        ({
            let s = tree.start(key, value, left, right);
            let store2 = written(store, s.tree, s.writes);
            &&& s.next == NextView::<V>::Continue
            &&& s.tree.wf()
            &&& s.tree.pending == Some(crate::tree::PendingView { key, value, at: None })
            &&& coherent(s.tree, store2)
            &&& leads(store2, path2, sought, status)
            &&& path2[0] == root_name()
            &&& path2 == set_out(tree, path, sought, left, right)
            &&& forall|name: Seq<char>| #[trigger]
                store2.dom().contains(name) ==> store.dom().contains(name) || name == left || name
                    == right
        }),
{
    let s = tree.start(key, value, left, right);
    let store2 = written(store, s.tree, s.writes);
    lemma_start(tree, key, value, left, right);
    assert(tree.holds(root_name()));
    assert(store.dom().contains(root_name()));
    assert(tree.is_free(left) && tree.is_free(right)) by {
        if resident(tree.cached, left) {
            assert(tree.holds(left));
        }
        if resident(tree.cached, right) {
            assert(tree.holds(right));
        }
    }
    assert forall|name: Seq<char>| #[trigger] s.tree.holds(name) implies store2.dom().contains(name)
        && store2[name] == s.tree.record(name) by {
        if !named(s.writes, name) {
            assert forall|i: int| 0 <= i < s.writes.len() implies write_name(
                #[trigger] s.writes[i],
            ) != name by {}
            lemma_start_unwritten(tree, key, value, left, right, name);
            assert(tree.holds(name));
        }
    }
    if !tree.root.is_full() {
        assert(store2 =~= store);
        path
    } else {
        let up = tree.root.keys[tree.root.median()];
        let up_value = tree.root.values[tree.root.median()];
        lemma_root_split(tree.idle(), left, right);
        assert(s.writes =~= seq![
            WriteView::Create(left),
            WriteView::Create(right),
            WriteView::Save(root_name()),
        ]);
        lemma_named3(s.writes, left, right, root_name());
        lemma_halves_route(tree.root, sought);
        lemma_split(tree.root);
        lemma_trichotomy(sought, up);
        let top = s.tree.root;
        assert(store[path[0]] == tree.root);
        assert(store2[root_name()] == top);
        assert(store2[left] == tree.root.lower_half());
        assert(store2[right] == tree.root.upper_half());
        assert forall|i: int| 1 <= i < path.len() implies store2.dom().contains(#[trigger] path[i])
            && store2[path[i]] == store[path[i]] by {
            assert(path[0] != path[i]);
            assert(store.dom().contains(path[i]));
        }
        if sought == up {
            assert(top.keys[0] == sought);
            lemma_index_unique(top, sought, 0);
            if path.len() > 1 {
                assert(store[path[0]].route(sought) == Route::<V>::Enter(path[1]));
            }
            lemma_leads_cut(store, store2, path, 0, sought, status, up_value);
            assert(path.take(1) =~= path);
            path
        } else if key_lt(sought, up) {
            assert(is_place(top.keys, sought, 0));
            lemma_place_unique(top, sought, 0);
            lemma_leads_insert(store, store2, path, sought, status, left);
            path.insert(1, left)
        } else {
            assert(is_place(top.keys, sought, 1));
            lemma_place_unique(top, sought, 1);
            lemma_leads_insert(store, store2, path, sought, status, right);
            path.insert(1, right)
        }
    }
}

/// The name is one of the names.
pub open spec fn among(names: Seq<Seq<char>>, name: Seq<char>) -> bool {
    exists|i: int| 0 <= i < names.len() && #[trigger] names[i] == name
}

/// The later store has no names but those of the earlier one and the given
/// ones.
pub open spec fn only_new<K, V>(
    store: Store<K, V>,
    later: Store<K, V>,
    names: Seq<Seq<char>>,
) -> bool {
    forall|name: Seq<char>| #[trigger]
        later.dom().contains(name) ==> store.dom().contains(name) || among(names, name)
}

/// How a completed insertion ends.
pub struct Ended<K, V> {
    /// The state of the tree.
    pub tree: TreeView<K, V>,
    /// What the host holds.
    pub store: Store<K, V>,
    /// The value that the insertion reported for the key.
    pub previous: Option<V>,
}

/// The names are new to the store and differ from each other.
pub open spec fn new_names<K, V>(store: Store<K, V>, names: Seq<Seq<char>>) -> bool {
    &&& forall|i: int| 0 <= i < names.len() ==> !store.dom().contains(#[trigger] names[i])
    &&& forall|i: int, j: int| 0 <= i < j < names.len() ==> #[trigger] names[i] != #[trigger] names[j]
}

/// The steps of an insertion in progress against a store, with `names` as
/// the fresh names, one for each step. The host carries out the writes of
/// every step and supplies the node that is asked for, as the store holds
/// it. The result is `None` where the insertion is given up, where the
/// store lacks the node that is asked for or holds what is no node of the
/// tree's capacity, and where the names run out before the insertion is
/// complete.
pub open spec fn run<K: Ord, V>(
    tree: TreeView<K, V>,
    store: Store<K, V>,
    names: Seq<Seq<char>>,
) -> Option<Ended<K, V>>
    decreases names.len(),
{
    if names.len() == 0 {
        None
    } else {
        let s = tree.step(names[0]);
        let store2 = written(store, s.tree, s.writes);
        match s.next {
            NextView::Done(previous) => Some(Ended { tree: s.tree, store: store2, previous }),
            NextView::Continue => run(s.tree, store2, names.skip(1)),
            NextView::Load(name) => if store2.dom().contains(name) && store2[name].wf()
                && store2[name].capacity == s.tree.capacity {
                run(s.tree.supplied(name, store2[name]), store2, names.skip(1))
            } else {
                None
            },
            _ => None,
        }
    }
}

/// An insertion against a store, from its start to its end, with `left` and
/// `right` as the names for a split of the root and `names` as the names
/// for the steps.
pub open spec fn insertion<K: Ord, V>(
    tree: TreeView<K, V>,
    store: Store<K, V>,
    key: K,
    value: V,
    left: Seq<char>,
    right: Seq<char>,
    names: Seq<Seq<char>>,
) -> Option<Ended<K, V>> {
    let s = tree.start(key, value, left, right);
    if s.next == NextView::<V>::Continue {
        run(s.tree, written(store, s.tree, s.writes), names)
    } else {
        None
    }
}

/// A walk that is completed reports what a search for the key found, and
/// leaves the new value where a search finds it.
///
/// The walk stands on the node at index `j` of a path along which a search
/// for the key ends as `status` says, and the store is what the tree
/// believes it to be. Where the run of the steps is completed, the value
/// that it reports is `status`; the store still is what the tree believes
/// it to be; and along the returned path, which starts where `path`
/// starts, a search for the key finds the new value.
pub proof fn lemma_run<K: Ord, V>(
    tree: TreeView<K, V>,
    store: Store<K, V>,
    path: Seq<Seq<char>>,
    j: int,
    status: Option<V>,
    names: Seq<Seq<char>>,
) -> (path2: Seq<Seq<char>>)
    requires
        total_order::<K>(),
        tree.wf(),
        tree.pending is Some,
        coherent(tree, store),
        leads(store, path, tree.pending->Some_0.key, status),
        0 <= j < path.len(),
        tree.here() == path[j],
        new_names(store, names),
        ordered(store),
        run(tree, store, names) is Some,
    ensures
        ordered(run(tree, store, names)->Some_0.store),
        run(tree, store, names)->Some_0.previous == status,
        run(tree, store, names)->Some_0.tree.wf(),
        run(tree, store, names)->Some_0.tree.pending is None,
        coherent(run(tree, store, names)->Some_0.tree, run(tree, store, names)->Some_0.store),
        leads(
            run(tree, store, names)->Some_0.store,
            path2,
            tree.pending->Some_0.key,
            Some(tree.pending->Some_0.value),
        ),
        path2[0] == path[0],
        forall|name: Seq<char>|
            #![trigger run(tree, store, names)->Some_0.store.dom().contains(name)]
            run(tree, store, names)->Some_0.store.dom().contains(name) ==> store.dom().contains(name)
                || exists|i: int| 0 <= i < names.len() && names[i] == name,
    decreases names.len(),
{
    let fresh = names[0];
    let rest = names.skip(1);
    let s = tree.step(fresh);
    let store2 = written(store, s.tree, s.writes);
    let path1 = lemma_walk_step(tree, store, path, j, status, fresh);
    lemma_written_names(tree, store, fresh);
    lemma_step_ordered(tree, store, fresh);
    assert(new_names(store2, rest)) by {
        assert forall|i: int| 0 <= i < rest.len() implies !store2.dom().contains(
            #[trigger] rest[i],
        ) by {
            assert(rest[i] == names[i + 1]);
            assert(names[0] != names[i + 1]);
        }
        assert forall|a: int, b: int| 0 <= a < b < rest.len() implies #[trigger] rest[a]
            != #[trigger] rest[b] by {
            assert(names[a + 1] != names[b + 1]);
        }
    }
    match s.next {
        NextView::Done(previous) => {
            assert forall|name: Seq<char>|
                #![trigger store2.dom().contains(name)]
                store2.dom().contains(name) implies store.dom().contains(name) || exists|i: int|
                0 <= i < names.len() && names[i] == name by {
                if !store.dom().contains(name) {
                    assert(names[0] == name);
                }
            }
            path1
        },
        NextView::Continue => {
            let path2 = lemma_run(s.tree, store2, path1, j + 1, status, rest);
            let end = run(s.tree, store2, rest)->Some_0;
            assert forall|name: Seq<char>|
                #![trigger end.store.dom().contains(name)]
                end.store.dom().contains(name) implies store.dom().contains(name) || exists|i: int|
                0 <= i < names.len() && names[i] == name by {
                if store2.dom().contains(name) {
                    if !store.dom().contains(name) {
                        assert(names[0] == name);
                    }
                } else {
                    let i = choose|i: int| 0 <= i < rest.len() && rest[i] == name;
                    assert(names[i + 1] == name);
                }
            }
            path2
        },
        NextView::Load(name) => {
            lemma_supplied_coherent(tree, store, name);
            let tree2 = tree.supplied(name, store[name]);
            let path2 = lemma_run(tree2, store, path, j, status, rest);
            let end = run(tree2, store, rest)->Some_0;
            assert forall|other: Seq<char>|
                #![trigger end.store.dom().contains(other)]
                end.store.dom().contains(other) implies store.dom().contains(other) || exists|i: int|
                0 <= i < names.len() && names[i] == other by {
                if !store.dom().contains(other) {
                    let i = choose|i: int| 0 <= i < rest.len() && rest[i] == other;
                    assert(names[i + 1] == other);
                }
            }
            path2
        },
        _ => path,
    }
}

/// An insertion that is completed reports what a search for the key found,
/// and leaves the new value where a search from the root finds it.
///
/// The store is what the tree believes it to be, its nodes satisfy the node
/// invariant, a search for the key from the root ends along `path` as
/// `status` says, and the names for new nodes are new to the store. Where
/// the insertion is completed, the value that it reports is `status`: the
/// value that the key had, or none for a key that was absent. The store
/// still is what the tree believes it to be, its nodes still satisfy the
/// node invariant, and along the returned path, which starts at the root, a
/// search for the key finds the new value.
pub proof fn lemma_insertion<K: Ord, V>(
    tree: TreeView<K, V>,
    store: Store<K, V>,
    path: Seq<Seq<char>>,
    key: K,
    value: V,
    status: Option<V>,
    left: Seq<char>,
    right: Seq<char>,
    names: Seq<Seq<char>>,
) -> (path2: Seq<Seq<char>>)
    requires
        total_order::<K>(),
        tree.wf(),
        coherent(tree, store),
        leads(store, path, key, status),
        path[0] == root_name(),
        new_names(store, seq![left, right] + names),
        ordered(store),
        insertion(tree, store, key, value, left, right, names) is Some,
    ensures
        ordered(insertion(tree, store, key, value, left, right, names)->Some_0.store),
        insertion(tree, store, key, value, left, right, names)->Some_0.previous == status,
        insertion(tree, store, key, value, left, right, names)->Some_0.tree.wf(),
        insertion(tree, store, key, value, left, right, names)->Some_0.tree.pending is None,
        coherent(
            insertion(tree, store, key, value, left, right, names)->Some_0.tree,
            insertion(tree, store, key, value, left, right, names)->Some_0.store,
        ),
        leads(
            insertion(tree, store, key, value, left, right, names)->Some_0.store,
            path2,
            key,
            Some(value),
        ),
        path2[0] == root_name(),
        only_new(
            store,
            insertion(tree, store, key, value, left, right, names)->Some_0.store,
            seq![left, right] + names,
        ),
{
    let all = seq![left, right] + names;
    assert(all[0] == left && all[1] == right);
    assert forall|i: int| 0 <= i < names.len() implies #[trigger] names[i] == all[i + 2] by {}
    let s = tree.start(key, value, left, right);
    let store2 = written(store, s.tree, s.writes);
    let path1 = lemma_walk_start(tree, store, path, key, key, value, status, left, right);
    lemma_start_ordered(tree, store, key, value, left, right);
    assert(new_names(store2, names)) by {
        assert forall|i: int| 0 <= i < names.len() implies !store2.dom().contains(
            #[trigger] names[i],
        ) by {
            assert(names[i] == all[i + 2]);
            assert(all[0] != all[i + 2]);
            assert(all[1] != all[i + 2]);
            assert(!store.dom().contains(all[i + 2]));
        }
        assert forall|a: int, b: int| 0 <= a < b < names.len() implies #[trigger] names[a]
            != #[trigger] names[b] by {
            assert(all[a + 2] != all[b + 2]);
        }
    }
    let path2 = lemma_run(s.tree, store2, path1, 0, status, names);
    let end = run(s.tree, store2, names)->Some_0.store;
    assert forall|name: Seq<char>| #[trigger] end.dom().contains(name) implies store.dom().contains(
        name,
    ) || among(all, name) by {
        if store2.dom().contains(name) {
            if name == left {
                assert(all[0] == name);
            } else if name == right {
                assert(all[1] == name);
            }
        } else {
            let i = choose|i: int| 0 <= i < names.len() && names[i] == name;
            assert(all[i + 2] == name);
        }
    }
    path2
}

/// The last value written under a key is the one that the tree holds.
///
/// A key that a search from the root does not find is inserted twice, with
/// a first and a second value, against a store of well-formed nodes that is
/// what the tree believes it to be, under names for new nodes that are new
/// to the store and differ from each other.
/// Where both insertions are completed, the first reports no value, the
/// second reports the first value, and a search from the root then finds
/// the second value.
pub proof fn lemma_insert_twice<K: Ord, V>(
    tree: TreeView<K, V>,
    store: Store<K, V>,
    path: Seq<Seq<char>>,
    key: K,
    first: V,
    second: V,
    left1: Seq<char>,
    right1: Seq<char>,
    names1: Seq<Seq<char>>,
    left2: Seq<char>,
    right2: Seq<char>,
    names2: Seq<Seq<char>>,
) -> (path2: Seq<Seq<char>>)
    requires
        total_order::<K>(),
        tree.wf(),
        coherent(tree, store),
        leads(store, path, key, None),
        path[0] == root_name(),
        ordered(store),
        new_names(store, seq![left1, right1] + names1 + (seq![left2, right2] + names2)),
        insertion(tree, store, key, first, left1, right1, names1) is Some,
        insertion(
            insertion(tree, store, key, first, left1, right1, names1)->Some_0.tree,
            insertion(tree, store, key, first, left1, right1, names1)->Some_0.store,
            key,
            second,
            left2,
            right2,
            names2,
        ) is Some,
    ensures
        insertion(tree, store, key, first, left1, right1, names1)->Some_0.previous is None,
        insertion(
            insertion(tree, store, key, first, left1, right1, names1)->Some_0.tree,
            insertion(tree, store, key, first, left1, right1, names1)->Some_0.store,
            key,
            second,
            left2,
            right2,
            names2,
        )->Some_0.previous == Some(first),
        leads(
            insertion(
                insertion(tree, store, key, first, left1, right1, names1)->Some_0.tree,
                insertion(tree, store, key, first, left1, right1, names1)->Some_0.store,
                key,
                second,
                left2,
                right2,
                names2,
            )->Some_0.store,
            path2,
            key,
            Some(second),
        ),
        path2[0] == root_name(),
{
    let once = insertion(tree, store, key, first, left1, right1, names1)->Some_0;
    lemma_two_rounds(store, once.store, seq![left1, right1] + names1, seq![left2, right2] + names2);
    let path1 = lemma_insertion(tree, store, path, key, first, None, left1, right1, names1);
    lemma_two_rounds(store, once.store, seq![left1, right1] + names1, seq![left2, right2] + names2);
    lemma_insertion(once.tree, once.store, path1, key, second, Some(first), left2, right2, names2)
}

/// Names that are new to a store and differ from each other can be used in
/// two rounds: the first ones are new to the store, and the others are new
/// to a later store that has no names but those of the store and the first
/// ones.
pub proof fn lemma_two_rounds<K, V>(
    store: Store<K, V>,
    later: Store<K, V>,
    first: Seq<Seq<char>>,
    second: Seq<Seq<char>>,
)
    requires
        new_names(store, first + second),
    ensures
        new_names(store, first),
        only_new(store, later, first) ==> new_names(later, second),
{
    let all = first + second;
    assert forall|i: int| 0 <= i < first.len() implies !store.dom().contains(
        #[trigger] first[i],
    ) by {
        assert(all[i] == first[i]);
    }
    assert forall|i: int, j: int| 0 <= i < j < first.len() implies #[trigger] first[i]
        != #[trigger] first[j] by {
        assert(all[i] != all[j]);
    }
    if only_new(store, later, first) {
        assert forall|i: int| 0 <= i < second.len() implies !later.dom().contains(
            #[trigger] second[i],
        ) by {
            assert(all[first.len() + i] == second[i]);
            assert(!store.dom().contains(all[first.len() + i]));
            if later.dom().contains(second[i]) {
                assert(among(first, second[i]));
                let k = choose|k: int| 0 <= k < first.len() && #[trigger] first[k] == second[i];
                assert(all[k] != all[first.len() + i]);
            }
        }
        assert forall|i: int, j: int| 0 <= i < j < second.len() implies #[trigger] second[i]
            != #[trigger] second[j] by {
            assert(all[first.len() + i] != all[first.len() + j]);
        }
    }
}

/// What a look says on the path of a key. Where the store is what the tree
/// believes it to be and a search for the key ends along `path` as `status`
/// says, a look at a node of the path that is resident sends the search to
/// the next node of the path, and at the last node it finds the value of
/// `status` or finds the key absent. A look at a node that is not resident
/// asks for that node.
pub proof fn lemma_look_on_path<K: Ord, V>(
    tree: TreeView<K, V>,
    store: Store<K, V>,
    path: Seq<Seq<char>>,
    i: int,
    key: K,
    status: Option<V>,
)
    requires
        coherent(tree, store),
        leads(store, path, key, status),
        0 <= i < path.len(),
    ensures
        tree.looked(path[i], key) == if !tree.holds(path[i]) {
            LookView::Missing(path[i])
        } else if i < path.len() - 1 {
            LookView::Enter(path[i + 1])
        } else {
            match status {
                Some(value) => LookView::Found(value),
                None => LookView::Absent,
            }
        },
{
    if tree.holds(path[i]) {
        assert(store[path[i]] == tree.record(path[i]));
        if i < path.len() - 1 {
            assert(store[path[i]].route(key) == Route::<V>::Enter(path[i + 1]));
        }
    }
}

/// The tree that a new session opens over a store: the root as the store
/// holds it, and nothing else resident.
pub open spec fn reopened<K: Ord, V>(store: Store<K, V>) -> TreeView<K, V> {
    TreeView {
        root: store[root_name()],
        capacity: store[root_name()].capacity,
        cached: Seq::empty(),
        pending: None,
    }
}

/// What an insertion has stored is there for a later session. Where a
/// search for a key from the root ends along a path of the store as
/// `status` says, the tree that a new session opens over the same store is
/// well-formed, believes of the store what the store is, and sends a search
/// for the key along the same path to the same end.
pub proof fn lemma_reopened<K: Ord, V>(
    store: Store<K, V>,
    path: Seq<Seq<char>>,
    i: int,
    key: K,
    status: Option<V>,
)
    requires
        total_order::<K>(),
        store.dom().contains(root_name()),
        store[root_name()].wf(),
        leads(store, path, key, status),
        0 <= i < path.len(),
    ensures
        reopened(store).wf(),
        coherent(reopened(store), store),
        reopened(store).looked(path[i], key) == if !reopened(store).holds(path[i]) {
            LookView::Missing(path[i])
        } else if i < path.len() - 1 {
            LookView::Enter(path[i + 1])
        } else {
            match status {
                Some(value) => LookView::Found(value),
                None => LookView::Absent,
            }
        },
{
    let tree = reopened(store);
    assert forall|name: Seq<char>| #[trigger] tree.holds(name) implies store.dom().contains(name)
        && store[name] == tree.record(name) by {
    }
    lemma_look_on_path(tree, store, path, i, key, status);
}

/// The record of the node that a storing step has written.
pub proof fn lemma_stored<K: Ord, V>(tree: TreeView<K, V>)
    requires
        total_order::<K>(),
        tree.wf(),
        tree.pending is Some,
        tree.record(tree.here()).has(tree.pending->Some_0.key) || tree.record(
            tree.here(),
        ).is_leaf(),
    ensures
        tree.step_store().tree.holds(tree.here()),
        tree.step_store().tree.record(tree.here()) == tree.record(tree.here()).put(
            tree.pending->Some_0.key,
            tree.pending->Some_0.value,
        ),
{
    let p = tree.pending->Some_0;
    let here = tree.here();
    let node = tree.record(here);
    lemma_not_root(tree.cached, here);
    lemma_resident_ordered(tree, here);
    lemma_put(node, p.key, p.value);
    if p.at is Some {
        crate::cache::lemma_with_data(
            tree.cached,
            rank_of(tree.cached, here),
            node.put(p.key, p.value),
        );
    }
}

} // verus!
