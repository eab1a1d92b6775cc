//! What an insertion leaves alone.
//!
//! The laws of this module speak of a store whose nodes form a tree: every
//! child is stored, no node is the child of two nodes or twice the child of
//! one, and the root is no node's child. Against such a store an insertion
//! that is completed changes what a search finds for the inserted key only:
//! a search for any other key ends as it ended before.

use crate::cache::resident;
use crate::dialogue::{
    coherent, insertion, leads, lemma_leads_cut, lemma_leads_split, lemma_split_written,
    lemma_start_ordered, lemma_step_coherent, lemma_step_ordered, lemma_supplied_coherent,
    lemma_walk_start, lemma_written_names, named, new_names, ordered, run, written, Store,
};
use crate::names::root_name;
use crate::node::{
    is_place, lemma_absorb, lemma_absorb_routes, lemma_halves_route, lemma_index_unique,
    lemma_put, lemma_put_routes, lemma_split, NodeView, Route,
};
use crate::order::{key_lt, lemma_trichotomy, total_order};
use crate::tree::{
    lemma_not_root, lemma_resident_ordered, lemma_root_split, lemma_start, lemma_step,
    lemma_step_split, write_name, NextView, TreeView, WriteView,
};
use vstd::prelude::*;

verus! {

/// The node has a child at index `i`.
pub open spec fn slot<K, V>(store: Store<K, V>, parent: Seq<char>, i: int) -> bool {
    &&& store.dom().contains(parent)
    &&& store[parent].children is Some
    &&& 0 <= i < store[parent].children->Some_0.len()
}

/// The name of the child at index `i` of the node.
pub open spec fn child_at<K, V>(store: Store<K, V>, parent: Seq<char>, i: int) -> Seq<char> {
    store[parent].children->Some_0[i]
}

/// The nodes of the store form a tree: every child is stored and is not
/// the root, and no name stands in two places as a child.
pub open spec fn tree_shaped<K, V>(store: Store<K, V>) -> bool {
    &&& forall|parent: Seq<char>, i: int|
        slot(store, parent, i) ==> store.dom().contains(#[trigger] child_at(store, parent, i))
            && child_at(store, parent, i) != root_name()
    &&& forall|pa: Seq<char>, i1: int, pb: Seq<char>, i2: int|
        slot(store, pa, i1) && slot(store, pb, i2) && #[trigger] child_at(store, pa, i1)
            == #[trigger] child_at(store, pb, i2) ==> pa == pb && i1 == i2
}

/// A store with the same names, whose nodes have the children that they
/// had, has the shape that it had.
pub proof fn lemma_same_children<K, V>(store: Store<K, V>, store2: Store<K, V>)
    requires
        tree_shaped(store),
        forall|name: Seq<char>| store.dom().contains(name) <==> store2.dom().contains(name),
        forall|name: Seq<char>|
            store.dom().contains(name) ==> (#[trigger] store2[name]).children
                == store[name].children,
    ensures
        tree_shaped(store2),
{
    assert forall|parent: Seq<char>, i: int| slot(store2, parent, i) implies store2.dom().contains(
        #[trigger] child_at(store2, parent, i),
    ) && child_at(store2, parent, i) != root_name() by {
        assert(store2[parent].children == store[parent].children);
        assert(slot(store, parent, i));
        assert(child_at(store, parent, i) == child_at(store2, parent, i));
    }
    assert forall|pa: Seq<char>, i1: int, pb: Seq<char>, i2: int|
        slot(store2, pa, i1) && slot(store2, pb, i2) && #[trigger] child_at(store2, pa, i1)
            == #[trigger] child_at(store2, pb, i2) implies pa == pb && i1 == i2 by {
        assert(store2[pa].children == store[pa].children);
        assert(store2[pb].children == store[pb].children);
        assert(slot(store, pa, i1) && slot(store, pb, i2));
        assert(child_at(store, pa, i1) == child_at(store, pb, i2));
    }
}

/// A split keeps the shape of the store. A node of the store is split into
/// its lower half, which stays under the node's name, and its upper half,
/// which goes under a new name; the new name becomes a child of the node
/// above, right of the split node; every other node keeps its children.
pub proof fn lemma_split_shape<K: Ord, V>(
    store: Store<K, V>,
    store2: Store<K, V>,
    above: Seq<char>,
    split: Seq<char>,
    fresh: Seq<char>,
    at: int,
)
    requires
        tree_shaped(store),
        store.dom().contains(above),
        store.dom().contains(split),
        !store.dom().contains(fresh),
        fresh != root_name(),
        above != split,
        store[split].wf(),
        store[split].is_full(),
        slot(store, above, at),
        child_at(store, above, at) == split,
        forall|name: Seq<char>|
            store2.dom().contains(name) <==> store.dom().contains(name) || name == fresh,
        forall|name: Seq<char>|
            store.dom().contains(name) && name != above && name != split ==> (
            #[trigger] store2[name]).children == store[name].children,
        store2[above].children == Some(store[above].children->Some_0.insert(at + 1, fresh)),
        store2[split].children == store[split].lower_half().children,
        store2[fresh].children == store[split].upper_half().children,
    ensures
        tree_shaped(store2),
{
    let m = store[split].median();
    lemma_split(store[split]);
    // where a child stood before the split
    let from = |parent: Seq<char>, i: int|
        if parent == above {
            if i <= at {
                (above, i)
            } else {
                (above, i - 1)
            }
        } else if parent == fresh {
            (split, i + m + 1)
        } else {
            (parent, i)
        };
    assert forall|parent: Seq<char>, i: int|
        slot(store2, parent, i) && !(parent == above && i == at + 1) implies slot(
        store,
        from(parent, i).0,
        from(parent, i).1,
    ) && #[trigger] child_at(store2, parent, i) == child_at(
        store,
        from(parent, i).0,
        from(parent, i).1,
    ) by {
        if parent == above {
        } else if parent == fresh {
        } else if parent == split {
        } else {
            assert(store2[parent].children == store[parent].children);
        }
    }
    assert(slot(store2, above, at + 1) && child_at(store2, above, at + 1) == fresh);
    assert forall|parent: Seq<char>, i: int| slot(store2, parent, i) implies store2.dom().contains(
        #[trigger] child_at(store2, parent, i),
    ) && child_at(store2, parent, i) != root_name() by {
        if !(parent == above && i == at + 1) {
            let o = from(parent, i);
            assert(slot(store, o.0, o.1));
            assert(store.dom().contains(child_at(store, o.0, o.1)));
        }
    }
    assert forall|pa: Seq<char>, i1: int, pb: Seq<char>, i2: int|
        slot(store2, pa, i1) && slot(store2, pb, i2) && #[trigger] child_at(store2, pa, i1)
            == #[trigger] child_at(store2, pb, i2) implies pa == pb && i1 == i2 by {
        let new1 = pa == above && i1 == at + 1;
        let new2 = pb == above && i2 == at + 1;
        if new1 && new2 {
        } else if new1 || new2 {
            // the new name was no child before
            let (p, i) = if new1 {
                (pb, i2)
            } else {
                (pa, i1)
            };
            let o = from(p, i);
            assert(slot(store, o.0, o.1));
            assert(store.dom().contains(child_at(store, o.0, o.1)));
        } else {
            let o1 = from(pa, i1);
            let o2 = from(pb, i2);
            assert(slot(store, o1.0, o1.1) && slot(store, o2.0, o2.1));
            assert(child_at(store, o1.0, o1.1) == child_at(store, o2.0, o2.1));
            assert(o1 == o2);
        }
    }
}

/// The split of the root keeps the shape of the store. The halves of the
/// root go under two new names, which become the two children of the root;
/// every other node keeps its children.
pub proof fn lemma_root_split_shape<K: Ord, V>(
    store: Store<K, V>,
    store2: Store<K, V>,
    left: Seq<char>,
    right: Seq<char>,
)
    requires
        tree_shaped(store),
        store.dom().contains(root_name()),
        !store.dom().contains(left),
        !store.dom().contains(right),
        left != right,
        store[root_name()].wf(),
        store[root_name()].is_full(),
        forall|name: Seq<char>|
            store2.dom().contains(name) <==> store.dom().contains(name) || name == left || name
                == right,
        forall|name: Seq<char>|
            store.dom().contains(name) && name != root_name() ==> (#[trigger] store2[name]).children
                == store[name].children,
        store2[root_name()].children == Some(seq![left, right]),
        store2[left].children == store[root_name()].lower_half().children,
        store2[right].children == store[root_name()].upper_half().children,
    ensures
        tree_shaped(store2),
{
    let root = root_name();
    let m = store[root].median();
    lemma_split(store[root]);
    let from = |parent: Seq<char>, i: int|
        if parent == left {
            (root, i)
        } else if parent == right {
            (root, i + m + 1)
        } else {
            (parent, i)
        };
    assert forall|parent: Seq<char>, i: int|
        slot(store2, parent, i) && parent != root implies slot(
        store,
        from(parent, i).0,
        from(parent, i).1,
    ) && #[trigger] child_at(store2, parent, i) == child_at(
        store,
        from(parent, i).0,
        from(parent, i).1,
    ) by {
        if parent == left {
        } else if parent == right {
        } else {
            assert(store2[parent].children == store[parent].children);
        }
    }
    assert(child_at(store2, root, 0) == left);
    assert(child_at(store2, root, 1) == right);
    assert forall|parent: Seq<char>, i: int| slot(store2, parent, i) implies store2.dom().contains(
        #[trigger] child_at(store2, parent, i),
    ) && child_at(store2, parent, i) != root_name() by {
        if parent != root {
            let o = from(parent, i);
            assert(slot(store, o.0, o.1));
            assert(store.dom().contains(child_at(store, o.0, o.1)));
        } else {
            if i == 0 {
            } else {
            }
        }
    }
    assert forall|pa: Seq<char>, i1: int, pb: Seq<char>, i2: int|
        slot(store2, pa, i1) && slot(store2, pb, i2) && #[trigger] child_at(store2, pa, i1)
            == #[trigger] child_at(store2, pb, i2) implies pa == pb && i1 == i2 by {
        if pa == root && pb == root {
            if i1 == 0 {
            } else {
            }
            if i2 == 0 {
            } else {
            }
        } else if pa == root || pb == root {
            let (p, i, j) = if pa == root {
                (pb, i2, i1)
            } else {
                (pa, i1, i2)
            };
            let o = from(p, i);
            assert(slot(store, o.0, o.1));
            assert(store.dom().contains(child_at(store, o.0, o.1)));
            if j == 0 {
            } else {
            }
        } else {
            let o1 = from(pa, i1);
            let o2 = from(pb, i2);
            assert(slot(store, o1.0, o1.1) && slot(store, o2.0, o2.1));
            assert(child_at(store, o1.0, o1.1) == child_at(store, o2.0, o2.1));
            assert(o1 == o2);
        }
    }
}

/// A node that sends a search on has the child that it sends it to.
pub proof fn lemma_enter_is_child<K: Ord, V>(node: NodeView<K, V>, key: K, child: Seq<char>)
    requires
        total_order::<K>(),
        node.wf(),
        node.route(key) == Route::<V>::Enter(child),
    ensures
        !node.has(key),
        node.children is Some,
        is_place(node.keys, key, node.place_of(key)),
        0 <= node.place_of(key) < node.children->Some_0.len(),
        node.children->Some_0[node.place_of(key)] == child,
{
    assert(exists|i: int| is_place(node.keys, key, i)) by {
        crate::node::lemma_has_place(node.keys, key);
    }
}

/// In a store that is a tree, a node stands on a path from the root only
/// right after the node that it is a child of.
pub proof fn lemma_only_after<K: Ord, V>(
    store: Store<K, V>,
    path: Seq<Seq<char>>,
    key: K,
    status: Option<V>,
    above: Seq<char>,
    at: int,
    b: int,
)
    requires
        total_order::<K>(),
        tree_shaped(store),
        ordered(store),
        leads(store, path, key, status),
        path[0] == root_name(),
        slot(store, above, at),
        0 <= b < path.len(),
        path[b] == child_at(store, above, at),
    ensures
        b >= 1,
        path[b - 1] == above,
        store[above].place_of(key) == at,
{
    assert(child_at(store, above, at) != root_name());
    let parent = path[b - 1];
    assert(store.dom().contains(parent));
    assert(store[parent].wf());
    assert(store[parent].route(key) == Route::<V>::Enter(path[b]));
    lemma_enter_is_child(store[parent], key, path[b]);
    let i = store[parent].place_of(key);
    assert(slot(store, parent, i));
    assert(child_at(store, parent, i) == child_at(store, above, at));
}

/// In a store that is a tree there is one way from the root to a node: two
/// paths from the root that meet in a node are the same up to that node,
/// whatever keys they are the paths of, and in every node before it the two
/// keys have the same place.
pub proof fn lemma_unique_path<K: Ord, V>(
    store: Store<K, V>,
    pa: Seq<Seq<char>>,
    k1: K,
    s1: Option<V>,
    j: int,
    pb: Seq<Seq<char>>,
    k2: K,
    s2: Option<V>,
    a: int,
)
    requires
        total_order::<K>(),
        tree_shaped(store),
        ordered(store),
        leads(store, pa, k1, s1),
        leads(store, pb, k2, s2),
        pa[0] == root_name(),
        pb[0] == root_name(),
        0 <= j < pa.len(),
        0 <= a < pb.len(),
        pa[j] == pb[a],
    ensures
        j == a,
        forall|i: int| 0 <= i <= j ==> #[trigger] pa[i] == pb[i],
        forall|i: int|
            0 <= i < j ==> (#[trigger] store[pa[i]]).place_of(k1) == store[pa[i]].place_of(k2),
    decreases j,
{
    if j == 0 || a == 0 {
        // a node after the first of a path is a child, and the root is none
        if j > 0 {
            let parent = pa[j - 1];
            assert(store.dom().contains(parent) && store[parent].wf());
            assert(store[parent].route(k1) == Route::<V>::Enter(pa[j]));
            lemma_enter_is_child(store[parent], k1, pa[j]);
            assert(slot(store, parent, store[parent].place_of(k1)));
            assert(child_at(store, parent, store[parent].place_of(k1)) == root_name());
        }
        if a > 0 {
            let parent = pb[a - 1];
            assert(store.dom().contains(parent) && store[parent].wf());
            assert(store[parent].route(k2) == Route::<V>::Enter(pb[a]));
            lemma_enter_is_child(store[parent], k2, pb[a]);
            assert(slot(store, parent, store[parent].place_of(k2)));
            assert(child_at(store, parent, store[parent].place_of(k2)) == root_name());
        }
    } else {
        let q1 = pa[j - 1];
        let q2 = pb[a - 1];
        assert(store.dom().contains(q1) && store[q1].wf());
        assert(store.dom().contains(q2) && store[q2].wf());
        assert(store[q1].route(k1) == Route::<V>::Enter(pa[j]));
        assert(store[q2].route(k2) == Route::<V>::Enter(pb[a]));
        lemma_enter_is_child(store[q1], k1, pa[j]);
        lemma_enter_is_child(store[q2], k2, pb[a]);
        let i1 = store[q1].place_of(k1);
        let i2 = store[q2].place_of(k2);
        assert(slot(store, q1, i1) && slot(store, q2, i2));
        assert(child_at(store, q1, i1) == child_at(store, q2, i2));
        assert(q1 == q2 && i1 == i2);
        lemma_unique_path(store, pa, k1, s1, j - 1, pb, k2, s2, a - 1);
    }
}

/// The path of another key after a step. Where the step has split the
/// child in the way of the walk and the path of the other key leads
/// through that child, the path ends at the node above where the other key
/// is the median, and leads through the new sibling where it stands after
/// the median; otherwise the path is as it was.
pub open spec fn passed<K: Ord, V>(
    tree: TreeView<K, V>,
    path: Seq<Seq<char>>,
    other: K,
    fresh: Seq<char>,
) -> Seq<Seq<char>> {
    let p = tree.pending->Some_0;
    let here = tree.here();
    let node = tree.record(here);
    let c = tree.child();
    let full = tree.record(c);
    let up = full.keys[full.median()];
    let a = choose|a: int| 0 <= a < path.len() && path[a] == here;
    if node.has(p.key) || node.is_leaf() || c == root_name() || !resident(tree.cached, c)
        || !full.is_full() || tree.misplaced() || !tree.is_free(fresh) {
        path
    } else if !(exists|a: int| 0 <= a < path.len() && path[a] == here) || a == path.len() - 1
        || node.place_of(other) != node.place_of(p.key) {
        path
    } else if other == up {
        path.take(a + 1)
    } else if key_lt(up, other) {
        path.update(a + 1, fresh)
    } else {
        path
    }
}

/// A path through nodes that send the search where they sent it is a path
/// to where the search ended.
pub proof fn lemma_leads_same<K: Ord, V>(
    store: Store<K, V>,
    store2: Store<K, V>,
    path: Seq<Seq<char>>,
    key: K,
    status: Option<V>,
)
    requires
        leads(store, path, key, status),
        forall|i: int|
            0 <= i < path.len() ==> store2.dom().contains(#[trigger] path[i]) && store2[path[i]].route(
                key,
            ) == store[path[i]].route(key),
    ensures
        leads(store2, path, key, status),
{
    assert forall|i: int| 0 <= i < path.len() - 1 implies store2[#[trigger] path[i]].route(key)
        == Route::<V>::Enter(path[i + 1]) by {
        assert(store[path[i]].route(key) == Route::<V>::Enter(path[i + 1]));
    }
    assert(store2[path[path.len() - 1]].route(key) == store[path[path.len() - 1]].route(key));
}

/// A step keeps the shape of the store: where the store is a tree before
/// the step, it is one after the host has carried out the writes.
#[verifier::rlimit(50)]
pub proof fn lemma_step_shape<K: Ord, V>(tree: TreeView<K, V>, store: Store<K, V>, fresh: Seq<char>)
    requires
        total_order::<K>(),
        tree.wf(),
        tree.pending is Some,
        coherent(tree, store),
        tree_shaped(store),
        !store.dom().contains(fresh),
    ensures
        tree_shaped(written(store, tree.step(fresh).tree, tree.step(fresh).writes)),
{
    let p = tree.pending->Some_0;
    let here = tree.here();
    let node = tree.record(here);
    let c = tree.child();
    let full = tree.record(c);
    let s = tree.step(fresh);
    let store2 = written(store, s.tree, s.writes);
    lemma_not_root(tree.cached, here);
    assert(tree.holds(here));
    assert(store[here] == node);
    lemma_resident_ordered(tree, here);
    lemma_step(tree, fresh);
    lemma_step_coherent(tree, store, fresh);
    lemma_written_names(tree, store, fresh);
    if node.has(p.key) || node.is_leaf() {
        assert(s.writes[0] == WriteView::Save(here));
        assert(named(s.writes, here));
        assert(s.tree.holds(write_name(s.writes[0])));
        assert(store2[here] == s.tree.record(here));
        lemma_stored_children(tree);
        assert forall|name: Seq<char>| store.dom().contains(name) implies (
        #[trigger] store2[name]).children == store[name].children by {
            if name != here {
                assert(!named(s.writes, name));
            }
        }
        assert forall|name: Seq<char>| store.dom().contains(name) <==> store2.dom().contains(
            name,
        ) by {
            if store2.dom().contains(name) && !store.dom().contains(name) {
                assert(named(s.writes, name));
            }
        }
        lemma_same_children(store, store2);
    } else if c == root_name() || !resident(tree.cached, c) || !full.is_full() || tree.misplaced()
        || !tree.is_free(fresh) {
        assert(store2 =~= store);
    } else {
        assert(tree.holds(c));
        assert(store[c] == full);
        lemma_resident_ordered(tree, c);
        lemma_step_split(tree, fresh);
        lemma_split_written(tree, store, fresh);
        let up = full.keys[full.median()];
        let up_value = full.values[full.median()];
        lemma_absorb(node, up, up_value, fresh);
        let grown = node.absorb(up, up_value, fresh);
        crate::node::lemma_has_place(node.keys, p.key);
        let at = node.place_of(p.key);
        assert(is_place(node.keys, p.key, at));
        assert(slot(store, here, at));
        if p.key == up {
            lemma_index_unique(grown, p.key, node.place_of(up));
            assert(grown.put(p.key, p.value).children == grown.children);
        }
        assert forall|name: Seq<char>|
            store2.dom().contains(name) <==> store.dom().contains(name) || name == fresh by {}
        lemma_split_shape(store, store2, here, c, fresh, at);
    }
}

/// A step changes nothing for another key. Where the store is a tree and a
/// search for a key other than the pending one ends along `path`, from the
/// root, as `status` says, then after the step a search for that key ends
/// in the same way along the returned path from the root.
#[verifier::rlimit(100)]
pub proof fn lemma_other_step<K: Ord, V>(
    tree: TreeView<K, V>,
    store: Store<K, V>,
    path: Seq<Seq<char>>,
    other: K,
    status: Option<V>,
    fresh: Seq<char>,
) -> (path2: Seq<Seq<char>>)
    requires
        total_order::<K>(),
        tree.wf(),
        tree.pending is Some,
        tree.pending->Some_0.key != other,
        coherent(tree, store),
        tree_shaped(store),
        ordered(store),
        leads(store, path, other, status),
        path[0] == root_name(),
        !store.dom().contains(fresh),
    ensures
        leads(
            written(store, tree.step(fresh).tree, tree.step(fresh).writes),
            path2,
            other,
            status,
        ),
        path2[0] == root_name(),
        path2 == passed(tree, path, other, fresh),
{
    let p = tree.pending->Some_0;
    let here = tree.here();
    let node = tree.record(here);
    let c = tree.child();
    let full = tree.record(c);
    let s = tree.step(fresh);
    let store2 = written(store, s.tree, s.writes);
    lemma_not_root(tree.cached, here);
    assert(tree.holds(here));
    assert(store[here] == node);
    lemma_resident_ordered(tree, here);
    lemma_step(tree, fresh);
    lemma_step_coherent(tree, store, fresh);
    lemma_written_names(tree, store, fresh);
    if node.has(p.key) || node.is_leaf() {
        assert(s.writes[0] == WriteView::Save(here));
        assert(named(s.writes, here));
        lemma_stored_children(tree);
        lemma_put_routes(node, p.key, p.value, other);
        assert forall|i: int| 0 <= i < path.len() implies store2.dom().contains(
            #[trigger] path[i],
        ) && store2[path[i]].route(other) == store[path[i]].route(other) by {
            assert(store.dom().contains(path[i]));
            if path[i] != here {
                assert(!named(s.writes, path[i]));
            }
        }
        lemma_leads_same(store, store2, path, other, status);
        path
    } else if c == root_name() || !resident(tree.cached, c) || !full.is_full() || tree.misplaced()
        || !tree.is_free(fresh) {
        assert(store2 =~= store);
        path
    } else {
        assert(tree.holds(c));
        assert(store[c] == full);
        lemma_resident_ordered(tree, c);
        lemma_step_split(tree, fresh);
        lemma_split_written(tree, store, fresh);
        let up = full.keys[full.median()];
        let up_value = full.values[full.median()];
        lemma_split(full);
        lemma_absorb(node, up, up_value, fresh);
        lemma_absorb_routes(node, up, up_value, fresh, other);
        lemma_halves_route(full, other);
        lemma_trichotomy(other, up);
        let grown = node.absorb(up, up_value, fresh);
        crate::node::lemma_has_place(node.keys, p.key);
        let at = node.place_of(p.key);
        assert(is_place(node.keys, p.key, at));
        assert(slot(store, here, at));
        assert(child_at(store, here, at) == c);
        if p.key == up {
            lemma_index_unique(grown, p.key, node.place_of(up));
            lemma_put_routes(grown, p.key, p.value, other);
        }
        assert(store2[here].route(other) == grown.route(other));
        // the split child stands on the path only right after the node above
        assert forall|b: int| 0 <= b < path.len() && #[trigger] path[b] == c implies b >= 1
            && path[b - 1] == here && node.place_of(other) == at by {
            lemma_only_after(store, path, other, status, here, at, b);
        }
        if exists|a: int| 0 <= a < path.len() && path[a] == here {
            let a = choose|a: int| 0 <= a < path.len() && path[a] == here;
            assert forall|i: int|
                0 <= i < path.len() && i != a && i != a + 1 implies store2.dom().contains(
                #[trigger] path[i],
            ) && store2[path[i]] == store[path[i]] by {
                assert(store.dom().contains(path[i]));
                if i < a {
                    assert(path[i] != path[a]);
                } else {
                    assert(path[a] != path[i]);
                }
                if path[i] == c {
                    assert(path[i - 1] == here);
                    if i - 1 < a {
                        assert(path[i - 1] != path[a]);
                    } else if a < i - 1 {
                        assert(path[a] != path[i - 1]);
                    }
                }
            }
            if a < path.len() - 1 {
                assert(store[path[a]].route(other) == Route::<V>::Enter(path[a + 1]));
                lemma_enter_is_child(node, other, path[a + 1]);
                if node.place_of(other) != at {
                    // the search leaves through another child
                    assert(slot(store, here, node.place_of(other)));
                    assert(child_at(store, here, node.place_of(other)) == path[a + 1]);
                    assert(path[a + 1] != c);
                    assert(path[a] != path[a + 1]);
                    assert(store.dom().contains(path[a + 1]));
                    assert(store2[path[a + 1]] == store[path[a + 1]]);
                    assert forall|i: int| 0 <= i < path.len() implies store2.dom().contains(
                        #[trigger] path[i],
                    ) && store2[path[i]].route(other) == store[path[i]].route(other) by {}
                    lemma_leads_same(store, store2, path, other, status);
                    path
                } else {
                    assert(path[a + 1] == c);
                    if other == up {
                        // the key went up into the node above
                        if a + 1 < path.len() - 1 {
                            assert(store[path[a + 1]].route(other) == Route::<V>::Enter(
                                path[a + 2],
                            ));
                        }
                        lemma_leads_cut(store, store2, path, a, other, status, up_value);
                        path.take(a + 1)
                    } else {
                        lemma_leads_split(
                            store,
                            store2,
                            path,
                            a,
                            other,
                            status,
                            fresh,
                            key_lt(up, other),
                        );
                        if key_lt(up, other) {
                            path.update(a + 1, fresh)
                        } else {
                            path
                        }
                    }
                }
            } else {
                // the search ends in the node above
                assert forall|i: int| 0 <= i < path.len() implies store2.dom().contains(
                    #[trigger] path[i],
                ) && store2[path[i]].route(other) == store[path[i]].route(other) by {}
                lemma_leads_same(store, store2, path, other, status);
                path
            }
        } else {
            assert forall|i: int| 0 <= i < path.len() implies store2.dom().contains(
                #[trigger] path[i],
            ) && store2[path[i]].route(other) == store[path[i]].route(other) by {
                assert(store.dom().contains(path[i]));
                if path[i] == c {
                    assert(path[i - 1] == here);
                }
            }
            lemma_leads_same(store, store2, path, other, status);
            path
        }
    }
}

/// The start of an insertion keeps the shape of the store.
#[verifier::rlimit(50)]
pub proof fn lemma_start_shape<K: Ord, V>(
    tree: TreeView<K, V>,
    store: Store<K, V>,
    key: K,
    value: V,
    left: Seq<char>,
    right: Seq<char>,
)
    requires
        total_order::<K>(),
        tree.wf(),
        coherent(tree, store),
        tree_shaped(store),
        !store.dom().contains(left),
        !store.dom().contains(right),
        left != right,
    ensures
        tree_shaped(
            written(
                store,
                tree.start(key, value, left, right).tree,
                tree.start(key, value, left, right).writes,
            ),
        ),
{
    let s = tree.start(key, value, left, right);
    let store2 = written(store, s.tree, s.writes);
    lemma_start(tree, key, value, left, right);
    assert(tree.holds(root_name()));
    assert(store.dom().contains(root_name()));
    assert(store[root_name()] == tree.root);
    assert(tree.is_free(left) && tree.is_free(right)) by {
        if resident(tree.cached, left) {
            assert(tree.holds(left));
        }
        if resident(tree.cached, right) {
            assert(tree.holds(right));
        }
    }
    if !tree.root.is_full() {
        assert(store2 =~= store);
    } else {
        lemma_root_split(tree.idle(), left, right);
        assert(write_name(s.writes[0]) == left);
        assert(write_name(s.writes[1]) == right);
        assert(write_name(s.writes[2]) == root_name());
        assert(named(s.writes, left) && named(s.writes, right) && named(s.writes, root_name()));
        assert forall|name: Seq<char>| named(s.writes, name) implies name == left || name == right
            || name == root_name() by {
            let i = choose|i: int| 0 <= i < s.writes.len() && write_name(#[trigger] s.writes[i]) == name;
            if i == 0 {
            } else if i == 1 {
            } else {
            }
        }
        assert forall|name: Seq<char>|
            store2.dom().contains(name) <==> store.dom().contains(name) || name == left || name
                == right by {}
        assert forall|name: Seq<char>|
            store.dom().contains(name) && name != root_name() implies (
        #[trigger] store2[name]).children == store[name].children by {
            assert(!named(s.writes, name));
        }
        lemma_root_split_shape(store, store2, left, right);
    }
}

/// The pending pair stays what it is while the walk goes on.
pub proof fn lemma_step_pending<K: Ord, V>(tree: TreeView<K, V>, fresh: Seq<char>)
    requires
        total_order::<K>(),
        tree.wf(),
        tree.pending is Some,
    ensures
        tree.step(fresh).next is Continue ==> {
            &&& tree.step(fresh).tree.pending is Some
            &&& tree.step(fresh).tree.pending->Some_0.key == tree.pending->Some_0.key
            &&& tree.step(fresh).tree.pending->Some_0.value == tree.pending->Some_0.value
        },
        tree.step(fresh).next is Load ==> tree.step(fresh).tree == tree && tree.step(
            fresh,
        ).writes.len() == 0,
{
    let p = tree.pending->Some_0;
    let node = tree.record(tree.here());
    let c = tree.child();
    if node.has(p.key) || node.is_leaf() {
    } else if c == root_name() || !resident(tree.cached, c) || !tree.record(c).is_full()
        || tree.misplaced() || !tree.is_free(fresh) {
    } else {
        lemma_step_split(tree, fresh);
    }
}

/// A walk changes nothing for another key. Where the store is a tree and a
/// search for a key other than the pending one ends along `path`, from the
/// root, as `status` says, then after the run of the steps, where it is
/// completed, the store is a tree still and a search for that key ends in
/// the same way along the returned path from the root.
pub proof fn lemma_run_other<K: Ord, V>(
    tree: TreeView<K, V>,
    store: Store<K, V>,
    path: Seq<Seq<char>>,
    other: K,
    status: Option<V>,
    names: Seq<Seq<char>>,
) -> (path2: Seq<Seq<char>>)
    requires
        total_order::<K>(),
        tree.wf(),
        tree.pending is Some,
        tree.pending->Some_0.key != other,
        coherent(tree, store),
        tree_shaped(store),
        ordered(store),
        leads(store, path, other, status),
        path[0] == root_name(),
        new_names(store, names),
        run(tree, store, names) is Some,
    ensures
        tree_shaped(run(tree, store, names)->Some_0.store),
        leads(run(tree, store, names)->Some_0.store, path2, other, status),
        path2[0] == root_name(),
    decreases names.len(),
{
    let fresh = names[0];
    let rest = names.skip(1);
    let s = tree.step(fresh);
    let store2 = written(store, s.tree, s.writes);
    let path1 = lemma_other_step(tree, store, path, other, status, fresh);
    lemma_step(tree, fresh);
    lemma_step_coherent(tree, store, fresh);
    lemma_step_shape(tree, store, fresh);
    lemma_step_ordered(tree, store, fresh);
    lemma_step_pending(tree, fresh);
    lemma_written_names(tree, store, fresh);
    assert(new_names(store2, rest)) by {
        assert forall|i: int| 0 <= i < rest.len() implies !store2.dom().contains(
            #[trigger] rest[i],
        ) by {
            assert(rest[i] == names[i + 1]);
            assert(names[0] != names[i + 1]);
        }
        assert forall|a: int, b: int| 0 <= a < b < rest.len() implies #[trigger] rest[a]
            != #[trigger] rest[b] by {
            assert(names[a + 1] != names[b + 1]);
        }
    }
    match s.next {
        NextView::Done(previous) => path1,
        NextView::Continue => lemma_run_other(s.tree, store2, path1, other, status, rest),
        NextView::Load(name) => {
            assert(store2 =~= store);
            lemma_supplied_coherent(tree, store, name);
            lemma_run_other(tree.supplied(name, store[name]), store, path, other, status, rest)
        },
        _ => path,
    }
}

/// An insertion changes nothing for another key. Where the store is a tree
/// of well-formed nodes that is what the tree believes it to be, and a
/// search for a key other than the inserted one ends along `path`, from the
/// root, as `status` says, then after the insertion, where it is
/// completed, the store is a tree still and a search for that key ends in
/// the same way along the returned path from the root.
pub proof fn lemma_insertion_other<K: Ord, V>(
    tree: TreeView<K, V>,
    store: Store<K, V>,
    path: Seq<Seq<char>>,
    other: K,
    status: Option<V>,
    key: K,
    value: V,
    left: Seq<char>,
    right: Seq<char>,
    names: Seq<Seq<char>>,
) -> (path2: Seq<Seq<char>>)
    requires
        total_order::<K>(),
        tree.wf(),
        key != other,
        coherent(tree, store),
        tree_shaped(store),
        ordered(store),
        leads(store, path, other, status),
        path[0] == root_name(),
        new_names(store, seq![left, right] + names),
        insertion(tree, store, key, value, left, right, names) is Some,
    ensures
        tree_shaped(insertion(tree, store, key, value, left, right, names)->Some_0.store),
        leads(
            insertion(tree, store, key, value, left, right, names)->Some_0.store,
            path2,
            other,
            status,
        ),
        path2[0] == root_name(),
{
    let all = seq![left, right] + names;
    assert(all[0] == left && all[1] == right);
    let s = tree.start(key, value, left, right);
    let store2 = written(store, s.tree, s.writes);
    let path1 = lemma_walk_start(tree, store, path, other, key, value, status, left, right);
    lemma_start_shape(tree, store, key, value, left, right);
    lemma_start_ordered(tree, store, key, value, left, right);
    assert(new_names(store2, names)) by {
        assert forall|i: int| 0 <= i < names.len() implies !store2.dom().contains(
            #[trigger] names[i],
        ) by {
            assert(names[i] == all[i + 2]);
            assert(all[0] != all[i + 2]);
            assert(all[1] != all[i + 2]);
            assert(!store.dom().contains(all[i + 2]));
        }
        assert forall|a: int, b: int| 0 <= a < b < names.len() implies #[trigger] names[a]
            != #[trigger] names[b] by {
            assert(all[a + 2] != all[b + 2]);
        }
    }
    lemma_run_other(s.tree, store2, path1, other, status, names)
}

/// A walk keeps the shape of the store: where the store is a tree and the
/// run of the steps is completed, the store that it leaves is a tree.
pub proof fn lemma_run_shape<K: Ord, V>(
    tree: TreeView<K, V>,
    store: Store<K, V>,
    names: Seq<Seq<char>>,
)
    requires
        total_order::<K>(),
        tree.wf(),
        tree.pending is Some,
        coherent(tree, store),
        tree_shaped(store),
        new_names(store, names),
        run(tree, store, names) is Some,
    ensures
        tree_shaped(run(tree, store, names)->Some_0.store),
    decreases names.len(),
{
    let fresh = names[0];
    let rest = names.skip(1);
    let s = tree.step(fresh);
    let store2 = written(store, s.tree, s.writes);
    lemma_step(tree, fresh);
    lemma_step_coherent(tree, store, fresh);
    lemma_step_shape(tree, store, fresh);
    lemma_step_pending(tree, fresh);
    lemma_written_names(tree, store, fresh);
    assert(new_names(store2, rest)) by {
        assert forall|i: int| 0 <= i < rest.len() implies !store2.dom().contains(
            #[trigger] rest[i],
        ) by {
            assert(rest[i] == names[i + 1]);
            assert(names[0] != names[i + 1]);
        }
        assert forall|a: int, b: int| 0 <= a < b < rest.len() implies #[trigger] rest[a]
            != #[trigger] rest[b] by {
            assert(names[a + 1] != names[b + 1]);
        }
    }
    match s.next {
        NextView::Continue => {
            lemma_run_shape(s.tree, store2, rest);
        },
        NextView::Load(name) => {
            assert(store2 =~= store);
            lemma_supplied_coherent(tree, store, name);
            lemma_run_shape(tree.supplied(name, store[name]), store, rest);
        },
        _ => {},
    }
}

/// An insertion keeps the shape of the store: where the store is a tree
/// and the insertion is completed, the store that it leaves is a tree.
pub proof fn lemma_insertion_shape<K: Ord, V>(
    tree: TreeView<K, V>,
    store: Store<K, V>,
    key: K,
    value: V,
    left: Seq<char>,
    right: Seq<char>,
    names: Seq<Seq<char>>,
)
    requires
        total_order::<K>(),
        tree.wf(),
        coherent(tree, store),
        tree_shaped(store),
        new_names(store, seq![left, right] + names),
        insertion(tree, store, key, value, left, right, names) is Some,
    ensures
        tree_shaped(insertion(tree, store, key, value, left, right, names)->Some_0.store),
{
    let all = seq![left, right] + names;
    assert(all[0] == left && all[1] == right);
    let s = tree.start(key, value, left, right);
    let store2 = written(store, s.tree, s.writes);
    lemma_start(tree, key, value, left, right);
    lemma_start_shape(tree, store, key, value, left, right);
    crate::dialogue::lemma_start_coherent(tree, store, key, value, left, right);
    assert(new_names(store2, names)) by {
        assert forall|i: int| 0 <= i < names.len() implies !store2.dom().contains(
            #[trigger] names[i],
        ) by {
            assert(names[i] == all[i + 2]);
            assert(all[0] != all[i + 2]);
            assert(all[1] != all[i + 2]);
            assert(!store.dom().contains(all[i + 2]));
        }
        assert forall|a: int, b: int| 0 <= a < b < names.len() implies #[trigger] names[a]
            != #[trigger] names[b] by {
            assert(all[a + 2] != all[b + 2]);
        }
    }
    lemma_run_shape(s.tree, store2, names);
}

/// A step that stores the pending pair leaves the children of the node as
/// they are.
proof fn lemma_stored_children<K: Ord, V>(tree: TreeView<K, V>)
    requires
        total_order::<K>(),
        tree.wf(),
        tree.pending is Some,
        tree.record(tree.here()).has(tree.pending->Some_0.key) || tree.record(
            tree.here(),
        ).is_leaf(),
    ensures
        tree.step_store().tree.record(tree.here()).children == tree.record(tree.here()).children,
        tree.step_store().tree.record(tree.here()) == tree.record(tree.here()).put(
            tree.pending->Some_0.key,
            tree.pending->Some_0.value,
        ),
{
    let p = tree.pending->Some_0;
    let here = tree.here();
    let node = tree.record(here);
    lemma_not_root(tree.cached, here);
    lemma_resident_ordered(tree, here);
    lemma_put(node, p.key, p.value);
    if p.at is Some {
        crate::cache::lemma_with_data(
            tree.cached,
            crate::cache::rank_of(tree.cached, here),
            node.put(p.key, p.value),
        );
    }
}

} // verus!
