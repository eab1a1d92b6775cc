//! The tree as a map.
//!
//! What a search from the root finds under each key is the content of the
//! tree. The laws of this module say that the content behaves as a map
//! does: a new tree holds nothing, and an insertion stores the value under
//! its key, reports what the key held, and leaves every other key alone.
//! They hold of a store that is sound: one that is what the tree believes
//! it to be, a tree of well-formed nodes of the tree's capacity in which
//! every key has an ordered path from the root. A new tree's store is
//! sound, and every insertion that is given enough new names is completed
//! and leaves the store sound.

use crate::dialogue::{coherent, insertion, leads, lemma_look_on_path, new_names, ordered, Store};
use crate::frame::{lemma_insertion_shape, tree_shaped};
use crate::names::root_name;
use crate::node::{NodeView, Route};
use crate::order::total_order;
use crate::progress::{
    gapped, lemma_insertion_completes, lemma_insertion_other_sound, lemma_one_end, uniform,
};
use crate::tree::{LookView, TreeView};
use vstd::prelude::*;

verus! {

/// A search for the key from the root ends as `status` says, along a path
/// that is ordered for the key.
pub open spec fn ends<K: Ord, V>(store: Store<K, V>, key: K, status: Option<V>) -> bool {
    exists|path: Seq<Seq<char>>|
        #[trigger] leads(store, path, key, status) && path[0] == root_name() && gapped(
            store,
            path,
            key,
        )
}

/// A search for the key from the root comes to an end.
pub open spec fn searchable<K: Ord, V>(store: Store<K, V>, key: K) -> bool {
    exists|status: Option<V>| ends(store, key, status)
}

/// What a search from the root finds under the key.
pub open spec fn found<K: Ord, V>(store: Store<K, V>, key: K) -> Option<V> {
    choose|status: Option<V>| ends(store, key, status)
}

/// The content of the stored tree: the keys that a search from the root
/// finds, each with its value.
pub open spec fn contents<K: Ord, V>(store: Store<K, V>) -> Map<K, V> {
    Map::new(|key: K| found(store, key) is Some, |key: K| found(store, key)->Some_0)
}

/// The store is sound for the tree: it is what the tree believes it to be,
/// no insertion is in progress, its nodes are well-formed, have the tree's
/// capacity and form a tree, and a search for any key comes to an end along
/// an ordered path.
pub open spec fn sound<K: Ord, V>(tree: TreeView<K, V>, store: Store<K, V>) -> bool {
    &&& tree.wf()
    &&& tree.pending is None
    &&& coherent(tree, store)
    &&& ordered(store)
    &&& uniform(store, tree.capacity)
    &&& tree_shaped(store)
    &&& forall|key: K| #[trigger] searchable(store, key)
}

/// What a search finds is what its path ends with.
pub proof fn lemma_found<K: Ord, V>(
    store: Store<K, V>,
    path: Seq<Seq<char>>,
    key: K,
    status: Option<V>,
)
    requires
        leads(store, path, key, status),
        path[0] == root_name(),
        gapped(store, path, key),
    ensures
        ends(store, key, status),
        searchable(store, key),
        found(store, key) == status,
{
    assert(ends(store, key, status));
    let other = found(store, key);
    assert(ends(store, key, other));
    let p = choose|p: Seq<Seq<char>>|
        #[trigger] leads(store, p, key, other) && p[0] == root_name() && gapped(store, p, key);
    lemma_one_end(store, key, path, status, p, other);
}

/// The store of a new tree is sound and holds nothing.
pub proof fn lemma_new_sound<K: Ord, V>(capacity: nat)
    requires
        total_order::<K>(),
        capacity % 2 == 1,
        capacity > 3,
        capacity <= usize::MAX,
    ensures
        ({
            let leaf = NodeView::<K, V> {
                keys: Seq::empty(),
                values: Seq::empty(),
                children: None,
                capacity,
            };
            let tree = TreeView { root: leaf, capacity, cached: Seq::empty(), pending: None };
            let store = Map::<Seq<char>, NodeView<K, V>>::empty().insert(root_name(), leaf);
            &&& sound(tree, store)
            &&& contents(store) == Map::<K, V>::empty()
        }),
{
    let leaf = NodeView::<K, V> {
        keys: Seq::empty(),
        values: Seq::empty(),
        children: None,
        capacity,
    };
    let tree = TreeView { root: leaf, capacity, cached: Seq::empty(), pending: None };
    let store = Map::<Seq<char>, NodeView<K, V>>::empty().insert(root_name(), leaf);
    let path = seq![root_name()];
    assert(leaf.wf());
    assert(coherent(tree, store)) by {
        assert forall|name: Seq<char>| #[trigger] tree.holds(name) implies store.dom().contains(name)
            && store[name] == tree.record(name) by {}
    }
    assert forall|key: K| #[trigger] searchable(store, key) by {
        assert(leaf.route(key) == Route::<V>::Absent);
        assert(leads(store, path, key, None::<V>));
        lemma_found(store, path, key, None::<V>);
    }
    assert forall|key: K| #[trigger] found(store, key) is None by {
        assert(leaf.route(key) == Route::<V>::Absent);
        assert(leads(store, path, key, None::<V>));
        lemma_found(store, path, key, None::<V>);
    }
    assert(contents(store) =~= Map::<K, V>::empty());
}

/// An insertion is what the insertion into a map is.
///
/// The store is sound for the tree, a search for the key from the root ends
/// along `path`, and the names are new to the store, differ from each other
/// and are two for every node of the path and two more besides the two for
/// a split of the root. Then the insertion is completed. It reports what
/// the tree held under the key; the content of the tree is then what it
/// was, with the value under the key; and the store is sound again.
pub proof fn lemma_insert<K: Ord, V>(
    tree: TreeView<K, V>,
    store: Store<K, V>,
    path: Seq<Seq<char>>,
    key: K,
    value: V,
    status: Option<V>,
    left: Seq<char>,
    right: Seq<char>,
    names: Seq<Seq<char>>,
)
    requires
        total_order::<K>(),
        sound(tree, store),
        leads(store, path, key, status),
        path[0] == root_name(),
        new_names(store, seq![left, right] + names),
        names.len() >= 2 * path.len() + 2,
    ensures
        insertion(tree, store, key, value, left, right, names) is Some,
        insertion(tree, store, key, value, left, right, names)->Some_0.previous == found(
            store,
            key,
        ),
        contents(insertion(tree, store, key, value, left, right, names)->Some_0.store) == contents(
            store,
        ).insert(key, value),
        sound(
            insertion(tree, store, key, value, left, right, names)->Some_0.tree,
            insertion(tree, store, key, value, left, right, names)->Some_0.store,
        ),
{
    // the path of the key is the ordered one
    assert(searchable(store, key));
    let st = choose|st: Option<V>| ends(store, key, st);
    let p = choose|p: Seq<Seq<char>>|
        #[trigger] leads(store, p, key, st) && p[0] == root_name() && gapped(store, p, key);
    lemma_one_end(store, key, path, status, p, st);
    lemma_found(store, path, key, status);
    let path2 = lemma_insertion_completes(tree, store, path, key, value, status, left, right, names);
    let end = insertion(tree, store, key, value, left, right, names)->Some_0;
    lemma_insertion_shape(tree, store, key, value, left, right, names);
    lemma_found(end.store, path2, key, Some(value));
    assert forall|other: K| other != key implies searchable(end.store, other) && #[trigger] found(
        end.store,
        other,
    ) == found(store, other) by {
        assert(searchable(store, other));
        let so = choose|so: Option<V>| ends(store, other, so);
        let po = choose|po: Seq<Seq<char>>|
            #[trigger] leads(store, po, other, so) && po[0] == root_name() && gapped(
                store,
                po,
                other,
            );
        lemma_found(store, po, other, so);
        let po2 = lemma_insertion_other_sound(
            tree,
            store,
            path,
            key,
            value,
            status,
            po,
            other,
            so,
            left,
            right,
            names,
        );
        lemma_found(end.store, po2, other, so);
    }
    assert forall|other: K| #[trigger] searchable(end.store, other) by {
        if other != key {
            assert(found(end.store, other) == found(store, other));
        }
    }
    assert(contents(end.store) =~= contents(store).insert(key, value));
}

/// What a search finds is what the looks of a lookup say: where the store
/// is what the tree believes it to be and holds a value under the key, a
/// look at a resident node on the way sends the search on, and the look at
/// the node at the end finds that value.
pub proof fn lemma_found_is_looked<K: Ord, V>(
    tree: TreeView<K, V>,
    store: Store<K, V>,
    path: Seq<Seq<char>>,
    key: K,
    status: Option<V>,
    i: int,
)
    requires
        coherent(tree, store),
        leads(store, path, key, status),
        path[0] == root_name(),
        gapped(store, path, key),
        0 <= i < path.len(),
        tree.holds(path[i]),
    ensures
        found(store, key) == status,
        tree.looked(path[i], key) == if i < path.len() - 1 {
            LookView::Enter(path[i + 1])
        } else {
            match found(store, key) {
                Some(value) => LookView::Found(value),
                None => LookView::Absent,
            }
        },
{
    lemma_found(store, path, key, status);
    lemma_look_on_path(tree, store, path, i, key, status);
}

} // verus!
