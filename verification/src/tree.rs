//! The tree: the resident root, the cache of the other nodes, and the
//! insertion protocol.
//!
//! The tree never touches a file. An insertion is a dialogue with the host:
//! every call answers with the writes that the host has to carry out and
//! with what the tree needs next. The host stores the named nodes, reads the
//! node that is asked for, and calls again until the tree says that it is
//! done.
//!
//! Insertion works from the top down. A full root is split before the walk
//! starts, and a full child is split before the walk enters it, so the node
//! that the walk stands on always has room: for the key itself where it is a
//! leaf, for the median of a child where it is not.

use crate::cache::{cache_wf, entered, promoted, rank_of, resident, with_data, NodeCache};
use crate::error::{Error, NodeError};
use crate::names::{draw_name, root_name, root_ref, NodeRef};
use crate::node::{Node, NodeData, NodeState, NodeView, Route};
use crate::order::{compare, key_lt, total_order, KeyOrder};
use vstd::prelude::*;

verus! {

/// A write that the host has to carry out, as the tree's view has it.
pub enum WriteView {
    /// Create the file of this name; it must not exist.
    Create(Seq<char>),
    /// Rewrite the file of this name.
    Save(Seq<char>),
}

/// A write that the host has to carry out. The record to write is that of
/// the resident node of the given name, which [`BTree::node`] hands out.
#[derive(Debug)]
pub enum Write {
    /// Create the file of this name, which must not exist, and write the
    /// node's record into it.
    Create(NodeRef),
    /// Rewrite the file of this name with the node's record.
    Save(NodeRef),
}

impl View for Write {
    type V = WriteView;

    open spec fn view(&self) -> WriteView {
        match self {
            Write::Create(name) => WriteView::Create(name@),
            Write::Save(name) => WriteView::Save(name@),
        }
    }
}

/// The views of a sequence of writes.
pub open spec fn writes_of(writes: Seq<Write>) -> Seq<WriteView> {
    writes.map_values(|w: Write| w@)
}

/// The name that a write speaks of.
pub open spec fn write_name(w: WriteView) -> Seq<char> {
    match w {
        WriteView::Create(name) => name,
        WriteView::Save(name) => name,
    }
}

/// What the tree needs after the writes of a step were carried out.
#[derive(Debug)]
pub enum Next<V> {
    /// Call [`BTree::advance`].
    Continue,
    /// Read the node of this name and hand its content to
    /// [`BTree::supply`], then call [`BTree::advance`].
    Load(NodeRef),
    /// The insertion is complete; the field is the value that the key had.
    Done(Option<V>),
    /// The insertion failed and was given up.
    Failed(Error),
}

/// What the tree needs next, as the tree's view has it.
pub enum NextView<V> {
    /// The walk goes on.
    Continue,
    /// The node of this name has to be read.
    Load(Seq<char>),
    /// The insertion is complete; the field is the value that the key had.
    Done(Option<V>),
    /// The insertion failed because a stored record is not what a node of
    /// this tree can be.
    BadRecord,
    /// The insertion failed because the name for a new node is taken.
    NameTaken,
    /// The insertion failed in another way.
    OtherFailure,
}

impl<V> View for Next<V> {
    type V = NextView<V>;

    open spec fn view(&self) -> NextView<V> {
        match self {
            Next::Continue => NextView::Continue,
            Next::Load(name) => NextView::Load(name@),
            Next::Done(previous) => NextView::Done(*previous),
            Next::Failed(Error::Node(NodeError::Deserialization(_))) => NextView::BadRecord,
            Next::Failed(Error::Node(NodeError::Io(_))) => NextView::NameTaken,
            Next::Failed(_) => NextView::OtherFailure,
        }
    }
}

/// The answer of one step, as the tree's view has it: the state after the
/// step, the writes asked of the host, and what the tree needs next.
pub struct StepView<K, V> {
    /// The state after the step.
    pub tree: TreeView<K, V>,
    /// The writes that the host has to carry out, in order.
    pub writes: Seq<WriteView>,
    /// What the tree needs then.
    pub next: NextView<V>,
}

/// What a look at one node says about a key, as the tree's view has it.
pub enum LookView<V> {
    /// The node holds the key with this value.
    Found(V),
    /// The node is a leaf and lacks the key: the tree does not hold it.
    Absent,
    /// The node lacks the key; the key belongs to the subtree of the child
    /// of this name.
    Enter(Seq<char>),
    /// The node of this name is not resident.
    Missing(Seq<char>),
}

/// What a look at one node says about a key.
#[derive(Debug)]
pub enum Look<'a, V> {
    /// The node holds the key with this value.
    Found(&'a V),
    /// The node is a leaf and lacks the key: the tree does not hold it.
    Absent,
    /// The node lacks the key; look at the child of this name next.
    Enter(NodeRef),
    /// The node of this name is not resident: read it, hand its content to
    /// [`BTree::supply`] and look again.
    Missing(NodeRef),
}

impl<'a, V> View for Look<'a, V> {
    type V = LookView<V>;

    open spec fn view(&self) -> LookView<V> {
        match self {
            Look::Found(value) => LookView::Found(**value),
            Look::Absent => LookView::Absent,
            Look::Enter(name) => LookView::Enter(name@),
            Look::Missing(name) => LookView::Missing(name@),
        }
    }
}

/// The answer of one step of an insertion.
#[derive(Debug)]
pub struct Outcome<V> {
    /// What the host has to store, in this order, before anything else.
    pub writes: Vec<Write>,
    /// What the tree needs then.
    pub next: Next<V>,
}

/// An insertion in progress, as the tree's view has it.
pub struct PendingView<K, V> {
    /// The key to store.
    pub key: K,
    /// The value to store under it.
    pub value: V,
    /// The name of the node that the walk stands on; `None` for the root.
    pub at: Option<Seq<char>>,
}

/// The state of a tree.
pub struct TreeView<K, V> {
    /// The record of the root.
    pub root: NodeView<K, V>,
    /// The number of keys that a new node may hold.
    pub capacity: nat,
    /// The resident nodes other than the root, from the most recently used
    /// to the least recently used.
    pub cached: Seq<NodeState<K, V>>,
    /// The insertion in progress, if there is one.
    pub pending: Option<PendingView<K, V>>,
}

impl<K: Ord, V> TreeView<K, V> {
    /// Whether a node of this name is resident: the root or a cached node.
    pub open spec fn holds(self, name: Seq<char>) -> bool {
        name == root_name() || resident(self.cached, name)
    }

    /// The record of the resident node of this name.
    pub open spec fn record(self, name: Seq<char>) -> NodeView<K, V> {
        if name == root_name() {
            self.root
        } else {
            self.cached[rank_of(self.cached, name)].data
        }
    }

    /// The name of the node that the walk of the pending insertion stands
    /// on.
    pub open spec fn here(self) -> Seq<char> {
        match self.pending->Some_0.at {
            Some(name) => name,
            None => root_name(),
        }
    }

    /// The state with the record of the resident node of this name replaced.
    pub open spec fn with_record(self, name: Seq<char>, data: NodeView<K, V>) -> Self {
        if name == root_name() {
            TreeView { root: data, ..self }
        } else {
            TreeView {
                cached: with_data(self.cached, rank_of(self.cached, name), data),
                ..self
            }
        }
    }

    /// Whether the name may be given to a new node: it is not the root's
    /// and no cached node has it.
    pub open spec fn is_free(self, name: Seq<char>) -> bool {
        name != root_name() && !resident(self.cached, name)
    }

    /// The state after the full root was split. The root keeps the median
    /// key and value alone and gets two children: `left`, a new node with
    /// what was below the median, and `right`, a new node with what was
    /// above it. Both new nodes enter the cache, `left` first.
    pub open spec fn root_split(self, left: Seq<char>, right: Seq<char>) -> Self {
        TreeView {
            root: NodeView {
                keys: seq![self.root.keys[self.root.median()]],
                values: seq![self.root.values[self.root.median()]],
                children: Some(seq![left, right]),
                capacity: self.root.capacity,
            },
            cached: entered(
                entered(self.cached, NodeState { name: left, data: self.root.lower_half() }),
                NodeState { name: right, data: self.root.upper_half() },
            ),
            ..self
        }
    }

    /// The state with the insertion of `value` under `key` started: the walk
    /// stands on the root.
    pub open spec fn started(self, key: K, value: V) -> Self {
        TreeView { pending: Some(PendingView { key, value, at: None }), ..self }
    }

    /// The start of an insertion, with `left` and `right` as the names for
    /// the nodes that a split of the root would make.
    ///
    /// A root that has room is left alone: the walk starts there and the
    /// host is asked for nothing. A full root is split first, as
    /// [`TreeView::root_split`] describes, and the host is asked to create
    /// the two new nodes and to rewrite the root. Where a name is taken,
    /// nothing is split and the insertion is not started.
    pub open spec fn start(self, key: K, value: V, left: Seq<char>, right: Seq<char>) -> StepView<
        K,
        V,
    > {
        if !self.root.is_full() {
            StepView {
                tree: self.idle().started(key, value),
                writes: seq![],
                next: NextView::Continue,
            }
        } else if self.is_free(left) && self.is_free(right) && left != right {
            StepView {
                tree: self.idle().root_split(left, right).started(key, value),
                writes: seq![
                    WriteView::Create(left),
                    WriteView::Create(right),
                    WriteView::Save(root_name()),
                ],
                next: NextView::Continue,
            }
        } else {
            StepView { tree: self.idle(), writes: seq![], next: NextView::NameTaken }
        }
    }

    /// What a look at the node of the given name says about `key`.
    pub open spec fn looked(self, at: Seq<char>, key: K) -> LookView<V> {
        if !self.holds(at) {
            LookView::Missing(at)
        } else {
            match self.record(at).route(key) {
                Route::Found(value) => LookView::Found(value),
                Route::Absent => LookView::Absent,
                Route::Enter(child) => LookView::Enter(child),
            }
        }
    }

    /// The state with the insertion in progress given up.
    pub open spec fn idle(self) -> Self {
        TreeView { pending: None, ..self }
    }

    /// The state with the walk of the pending insertion moved to the cached
    /// node of the given name.
    pub open spec fn moved_to(self, name: Seq<char>) -> Self {
        TreeView {
            pending: Some(PendingView { at: Some(name), ..self.pending->Some_0 }),
            ..self
        }
    }

    /// The name of the child that the walk of the pending insertion has to
    /// enter next, where it stands on an internal node that lacks the key.
    pub open spec fn child(self) -> Seq<char> {
        let node = self.record(self.here());
        node.children->Some_0[node.place_of(self.pending->Some_0.key)]
    }

    /// Whether the median of the full child in the way of the walk does not
    /// belong where the child hangs: the node that the walk stands on holds
    /// it already, or its place there is not the place of the child.
    pub open spec fn misplaced(self) -> bool {
        let node = self.record(self.here());
        let full = self.record(self.child());
        let up = full.keys[full.median()];
        node.has(up) || node.place_of(up) != node.place_of(self.pending->Some_0.key)
    }

    /// The step that stores the pending pair in the node that the walk
    /// stands on, and so completes the insertion.
    pub open spec fn step_store(self) -> StepView<K, V> {
        let p = self.pending->Some_0;
        let node = self.record(self.here());
        StepView {
            tree: self.with_record(self.here(), node.put(p.key, p.value)).idle(),
            writes: seq![WriteView::Save(self.here())],
            next: NextView::Done(node.get(p.key)),
        }
    }

    /// The step that splits the full child in the way of the walk. The child
    /// keeps its lower half, the upper half becomes a new node named
    /// `fresh`, and the node that the walk stands on takes in the median
    /// with the new node as a child. Where the pending key is the median,
    /// the value is stored right there and the insertion is complete;
    /// otherwise the walk enters the half that the key belongs to.
    #[verifier::opaque]
    pub open spec fn step_split(self, fresh: Seq<char>) -> StepView<K, V> {
        let p = self.pending->Some_0;
        let here = self.here();
        let c = self.child();
        let node = self.record(here);
        let full = self.record(c);
        let up = full.keys[full.median()];
        let used = TreeView { cached: promoted(promoted(self.cached, here), c), ..self };
        let grown = node.absorb(up, full.values[full.median()], fresh);
        let split = used.with_record(c, full.lower_half());
        let sibling = NodeState { name: fresh, data: full.upper_half() };
        let writes = seq![WriteView::Create(fresh), WriteView::Save(c), WriteView::Save(here)];
        if p.key == up {
            let stored = split.with_record(here, grown.put(p.key, p.value));
            StepView {
                tree: TreeView { cached: entered(stored.cached, sibling), ..stored }.idle(),
                writes,
                next: NextView::Done(Some(full.values[full.median()])),
            }
        } else {
            let stored = split.with_record(here, grown);
            StepView {
                tree: TreeView { cached: entered(stored.cached, sibling), ..stored }.moved_to(
                    if key_lt(p.key, up) {
                        c
                    } else {
                        fresh
                    },
                ),
                writes,
                next: NextView::Continue,
            }
        }
    }

    /// One step of the pending insertion, with `fresh` as the name for a
    /// node that the step may have to make.
    ///
    /// Where the node that the walk stands on holds the key or is a leaf,
    /// the pair is stored there and the insertion is complete. Otherwise the
    /// walk has to enter a child. A child that is not resident is asked
    /// for; one that has room is entered; a full one is split first. The
    /// insertion is given up where the child's name is the root's, where the
    /// median of a full child does not belong where the child hangs, and
    /// where `fresh` is needed and taken.
    pub open spec fn step(self, fresh: Seq<char>) -> StepView<K, V> {
        let p = self.pending->Some_0;
        let node = self.record(self.here());
        let c = self.child();
        let full = self.record(c);
        if node.has(p.key) || node.is_leaf() {
            self.step_store()
        } else if c == root_name() {
            StepView { tree: self.idle(), writes: seq![], next: NextView::BadRecord }
        } else if !resident(self.cached, c) {
            StepView { tree: self, writes: seq![], next: NextView::Load(c) }
        } else if !full.is_full() {
            StepView {
                tree: TreeView { cached: promoted(self.cached, c), ..self }.moved_to(c),
                writes: seq![],
                next: NextView::Continue,
            }
        } else if self.misplaced() {
            StepView { tree: self.idle(), writes: seq![], next: NextView::BadRecord }
        } else if !self.is_free(fresh) {
            StepView { tree: self.idle(), writes: seq![], next: NextView::NameTaken }
        } else {
            self.step_split(fresh)
        }
    }

    /// The state after the host supplied the content of the node of the
    /// given name: the node enters the cache as the most recently used one,
    /// behind it the node that the walk stands on. A name that is resident
    /// already changes nothing.
    pub open spec fn supplied(self, name: Seq<char>, data: NodeView<K, V>) -> Self {
        if self.holds(name) {
            self
        } else if self.pending is Some {
            TreeView {
                cached: entered(promoted(self.cached, self.here()), NodeState { name, data }),
                ..self
            }
        } else {
            TreeView { cached: entered(self.cached, NodeState { name, data }), ..self }
        }
    }

    /// The invariant of a tree: the root and the cached nodes satisfy the
    /// node invariant, the root has the tree's capacity, no two cached nodes
    /// share a name or have the root's, and the walk of a pending insertion
    /// stands on a resident node that has room.
    pub open spec fn wf(self) -> bool {
        &&& self.root.wf()
        &&& self.root.capacity == self.capacity
        &&& cache_wf(self.cached)
        &&& self.pending is Some ==> {
            &&& self.pending->Some_0.at matches Some(name) ==> resident(self.cached, name)
            &&& !self.record(self.here()).is_full()
        }
    }
}

/// The view of a position of the walk.
pub open spec fn at_view(at: Option<NodeRef>) -> Option<Seq<char>> {
    match at {
        Some(name) => Some(name@),
        None => None,
    }
}

/// The name that a position of the walk stands for.
pub open spec fn at_name(at: Option<NodeRef>) -> Seq<char> {
    match at {
        Some(name) => name@,
        None => root_name(),
    }
}

/// A cached node does not have the root's name.
pub proof fn lemma_not_root<K: Ord, V>(cached: Seq<NodeState<K, V>>, name: Seq<char>)
    requires
        cache_wf(cached),
    ensures
        resident(cached, name) ==> name != root_name(),
        !resident(cached, root_name()),
        promoted(cached, root_name()) == cached,
{
    if resident(cached, root_name()) {
        let k = rank_of(cached, root_name());
        assert(cached[k].name != root_name());
    }
}

struct Pending<K, V> {
    key: K,
    value: V,
    at: Option<NodeRef>,
}

/// A B-tree whose root is resident and whose other nodes pass through a
/// bounded cache.
pub struct BTree<K, V> {
    root_node: Node<K, V>,
    capacity: usize,
    node_cache: NodeCache<K, V>,
    pending: Option<Pending<K, V>>,
}

impl<K, V> View for BTree<K, V> {
    type V = TreeView<K, V>;

    closed spec fn view(&self) -> TreeView<K, V> {
        TreeView {
            root: self.root_node@.data,
            capacity: self.capacity as nat,
            cached: self.node_cache@,
            pending: match self.pending {
                Some(p) => Some(
                    PendingView {
                        key: p.key,
                        value: p.value,
                        at: match p.at {
                            Some(name) => Some(name@),
                            None => None,
                        },
                    },
                ),
                None => None,
            },
        }
    }
}

impl<K: Ord, V> BTree<K, V> {
    /// The parts of the tree belong together: the root node has the root's
    /// name and the cache is consistent.
    pub closed spec fn inv(&self) -> bool {
        &&& self.root_node@.name == root_name()
        &&& self.node_cache.inv()
    }

    /// The tree is consistent and its state satisfies [`TreeView::wf`].
    pub open spec fn wf(&self) -> bool {
        self.inv() && self@.wf()
    }

    /// A tree with an empty root and an empty cache, whose nodes hold up to
    /// `capacity` keys.
    pub fn new(capacity: usize) -> (tree: Self)
        requires
            capacity % 2 == 1,
            capacity > 3,
        ensures
            tree.wf(),
            tree@ == (TreeView::<K, V> {
                root: NodeView {
                    keys: Seq::empty(),
                    values: Seq::empty(),
                    children: None,
                    capacity: capacity as nat,
                },
                capacity: capacity as nat,
                cached: Seq::empty(),
                pending: None,
            }),
    {
        BTree {
            root_node: Node::new(root_ref(), capacity),
            capacity,
            node_cache: NodeCache::new(),
            pending: None,
        }
    }

    /// A tree over nodes that are stored already, given the content of the
    /// root. The cache is empty. The answer is an error exactly when the
    /// parts break the node invariant for the given capacity.
    pub fn open(
        capacity: usize,
        keys: Vec<K>,
        values: Vec<V>,
        children: Option<Vec<NodeRef>>,
    ) -> (r: Result<Self, Error>)
        requires
            total_order::<K>(),
        ensures
            match r {
                Ok(tree) => {
                    &&& tree.wf()
                    &&& tree@ == (TreeView::<K, V> {
                        root: crate::node::parts_view(
                            keys@,
                            values@,
                            crate::node::seq_of(children),
                            capacity,
                        ),
                        capacity: capacity as nat,
                        cached: Seq::empty(),
                        pending: None,
                    })
                },
                Err(e) => {
                    &&& !crate::node::parts_view::<K, V>(
                        keys@,
                        values@,
                        crate::node::seq_of(children),
                        capacity,
                    ).wf()
                    &&& e matches Error::Node(NodeError::Deserialization(_))
                },
            },
    {
        match NodeData::from_parts(keys, values, children, capacity) {
            Some(data) => Ok(
                BTree {
                    root_node: Node::new_with_data(root_ref(), data),
                    capacity,
                    node_cache: NodeCache::new(),
                    pending: None,
                },
            ),
            None => Err(Error::Node(NodeError::malformed())),
        }
    }

    /// The number of keys that a node of this tree may hold.
    #[verifier::when_used_as_spec(spec_capacity)]
    pub fn capacity(&self) -> (r: usize)
        ensures
            r == self@.capacity,
            r == self.spec_capacity(),
    {
        self.capacity
    }

    /// The number of keys that a node of this tree may hold.
    pub closed spec fn spec_capacity(&self) -> usize {
        self.capacity
    }

    /// Whether an insertion is in progress.
    pub fn is_busy(&self) -> (r: bool)
        ensures
            r == self@.pending is Some,
    {
        self.pending.is_some()
    }

    /// Whether the root is full.
    pub fn root_is_full(&self) -> (r: bool)
        ensures
            r == self@.root.is_full(),
    {
        self.root_node.is_full()
    }

    /// The record of the resident node of the given name, if there is one:
    /// that of the root for the root's name, that of a cached node
    /// otherwise. The order of use stays as it is.
    pub fn node(&self, name: &NodeRef) -> (r: Option<&NodeData<K, V>>)
        requires
            self.wf(),
        ensures
            match r {
                Some(data) => self@.holds(name@) && data@ == self@.record(name@) && data.wf(),
                None => !self@.holds(name@),
            },
    {
        let root = root_ref();
        if *name == root {
            Some(self.root_node.record())
        } else {
            match self.node_cache.get(name) {
                Some(node) => Some(node.record()),
                None => None,
            }
        }
    }

    /// Splits the full root and makes the tree one level higher.
    ///
    /// The content of the root moves out: what is below the median into a
    /// new node named `left`, what is above it into a new node named
    /// `right`. The root stays under its own name and keeps the median with
    /// the two new nodes as children. The host has to create the files of
    /// the two new nodes and to rewrite the root's file, in this order; the
    /// file that the root had stays in place and gets the new content.
    ///
    /// The split fails, and nothing changes, where a name is taken: where
    /// the two names are equal, or one is the root's or that of a cached
    /// node.
    #[verifier::rlimit(50)]
    pub fn split_root(&mut self, left: NodeRef, right: NodeRef) -> (r: Result<Vec<Write>, Error>)
        requires
            total_order::<K>(),
            old(self).wf(),
            old(self)@.root.is_full(),
            old(self)@.pending is None,
        ensures
            final(self).wf(),
            r is Ok <==> old(self)@.is_free(left@) && old(self)@.is_free(right@) && left@
                != right@,
            match r {
                Ok(writes) => {
                    &&& final(self)@ == old(self)@.root_split(left@, right@)
                    &&& writes_of(writes@) == seq![
                        WriteView::Create(left@),
                        WriteView::Create(right@),
                        WriteView::Save(root_name()),
                    ]
                    &&& final(self)@.holds(left@)
                    &&& final(self)@.holds(right@)
                    &&& final(self)@.record(left@) == old(self)@.root.lower_half()
                    &&& final(self)@.record(right@) == old(self)@.root.upper_half()
                },
                Err(e) => final(self)@ == old(self)@ && e matches Error::Node(NodeError::Io(_)),
            },
    {
        let root = root_ref();
        if left == right || left == root || right == root || self.node_cache.contains(&left)
            || self.node_cache.contains(&right) {
            return Err(Error::Node(NodeError::taken()));
        }
        let ghost before = self@;
        let (key, value, upper) = self.root_node.split(right.clone());
        let mut lower = Node::new(root, self.capacity);
        proof {
            assert(crate::node::is_place(Seq::<K>::empty(), key, 0));
            crate::node::lemma_place_unique(lower@.data, key, 0);
        }
        lower.insert(key, value);
        let mut children: Vec<NodeRef> = Vec::new();
        children.push(left.clone());
        children.push(right.clone());
        lower.adopt(children);
        core::mem::swap(&mut self.root_node, &mut lower);
        lower.rename(left.clone());
        proof {
            crate::node::lemma_split(before.root);
            assert(self@.root.keys =~= seq![before.root.keys[before.root.median()]]);
            assert(self@.root.values =~= seq![before.root.values[before.root.median()]]);
            assert(self@.root.children->Some_0 =~= seq![left@, right@]);
        }
        let ghost low = lower@;
        let ghost up = upper@;
        self.node_cache.insert(lower);
        proof {
            crate::cache::lemma_entered_wf(before.cached, low);
            crate::cache::lemma_rank(entered(before.cached, low), 0);
            assert(!resident(entered(before.cached, low), right@)) by {
                if resident(entered(before.cached, low), right@) {
                    let k = rank_of(entered(before.cached, low), right@);
                    if k > 0 {
                        assert(before.cached[k - 1].name == right@);
                    }
                }
            }
        }
        self.node_cache.insert(upper);
        proof {
            let mid = entered(before.cached, low);
            crate::cache::lemma_entered_wf(mid, up);
            crate::cache::lemma_entered_keeps(mid, up, 0);
            crate::cache::lemma_rank(entered(mid, up), 0);
        }
        let mut writes: Vec<Write> = Vec::new();
        writes.push(Write::Create(left));
        writes.push(Write::Create(right));
        writes.push(Write::Save(root_ref()));
        proof {
            assert(writes_of(writes@) =~= seq![
                WriteView::Create(left@),
                WriteView::Create(right@),
                WriteView::Save(root_name()),
            ]);
        }
        Ok(writes)
    }

    /// Starts the insertion of `value` under `key`: the walk stands on the
    /// root, which must have room.
    pub fn begin(&mut self, key: K, value: V)
        requires
            old(self).wf(),
            !old(self)@.root.is_full(),
        ensures
            final(self).wf(),
            final(self)@ == old(self)@.started(key, value),
    {
        self.pending = Some(Pending { key, value, at: None });
    }

    /// Takes in the content of a node that the host has read. The content
    /// becomes a node of the tree's capacity, which enters the cache.
    ///
    /// The answer is an error, and nothing changes, exactly when the parts
    /// break the node invariant.
    pub fn supply(
        &mut self,
        name: NodeRef,
        keys: Vec<K>,
        values: Vec<V>,
        children: Option<Vec<NodeRef>>,
    ) -> (r: Result<(), Error>)
        requires
            total_order::<K>(),
            old(self).wf(),
        ensures
            final(self).wf(),
            r is Ok <==> crate::node::parts_view(
                keys@,
                values@,
                crate::node::seq_of(children),
                old(self).spec_capacity(),
            ).wf(),
            match r {
                Ok(_) => final(self)@ == old(self)@.supplied(
                    name@,
                    crate::node::parts_view(
                        keys@,
                        values@,
                        crate::node::seq_of(children),
                        old(self).spec_capacity(),
                    ),
                ),
                Err(e) => final(self)@ == old(self)@ && e matches Error::Node(
                    NodeError::Deserialization(_),
                ),
            },
    {
        let data = match NodeData::from_parts(keys, values, children, self.capacity) {
            Some(data) => data,
            None => {
                return Err(Error::Node(NodeError::malformed()));
            },
        };
        let root = root_ref();
        if name == root || self.node_cache.contains(&name) {
            return Ok(());
        }
        let ghost before = self@;
        match &self.pending {
            Some(p) => {
                match &p.at {
                    Some(at) => {
                        self.node_cache.touch(at);
                        proof {
                            crate::cache::lemma_promoted(before.cached, at@);
                            crate::cache::lemma_rank(self.node_cache@, 0);
                        }
                    },
                    None => {
                        proof {
                            assert(!resident(before.cached, root_name())) by {
                                if resident(before.cached, root_name()) {
                                    let k = rank_of(before.cached, root_name());
                                    assert(before.cached[k].name != root_name());
                                }
                            }
                        }
                    },
                }
            },
            None => {},
        }
        let ghost used = self.node_cache@;
        let node = Node::new_with_data(name, data);
        let ghost state = node@;
        self.node_cache.insert(node);
        proof {
            crate::cache::lemma_entered_wf(used, state);
            if before.pending is Some && before.pending->Some_0.at is Some {
                crate::cache::lemma_entered_keeps(used, state, 0);
            }
        }
        Ok(())
    }

    /// Stores a pair in the resident node of the given name.
    fn put_at(&mut self, at: &Option<NodeRef>, key: K, value: V) -> (previous: Option<V>)
        requires
            total_order::<K>(),
            old(self).wf(),
            at matches Some(name) ==> resident(old(self)@.cached, name@),
            ({
                let node = old(self)@.record(at_name(*at));
                node.has(key) || (node.is_leaf() && !node.is_full())
            }),
        ensures
            final(self).inv(),
            old(self)@.pending is None ==> final(self).wf(),
            final(self).spec_capacity() == old(self).spec_capacity(),
            previous == old(self)@.record(at_name(*at)).get(key),
            final(self)@ == old(self)@.with_record(
                at_name(*at),
                old(self)@.record(at_name(*at)).put(key, value),
            ),
    {
        match at {
            None => self.root_node.insert(key, value),
            Some(name) => {
                proof {
                    lemma_not_root(self@.cached, name@);
                }
                self.node_cache.put(name, key, value)
            },
        }
    }

    /// Lets the resident node of the given name take in a median.
    fn absorb_at(&mut self, at: &Option<NodeRef>, key: K, value: V, right: NodeRef)
        requires
            total_order::<K>(),
            old(self).wf(),
            at matches Some(name) ==> resident(old(self)@.cached, name@),
            ({
                let node = old(self)@.record(at_name(*at));
                !node.is_leaf() && !node.is_full() && !node.has(key)
            }),
        ensures
            final(self).inv(),
            old(self)@.pending is None ==> final(self).wf(),
            final(self).spec_capacity() == old(self).spec_capacity(),
            final(self)@ == old(self)@.with_record(
                at_name(*at),
                old(self)@.record(at_name(*at)).absorb(key, value, right@),
            ),
    {
        match at {
            None => self.root_node.absorb(key, value, right),
            Some(name) => {
                proof {
                    lemma_not_root(self@.cached, name@);
                }
                self.node_cache.absorb(name, key, value, right)
            },
        }
    }

    /// Takes one step of the insertion in progress, with `fresh` as the name
    /// for the node that a split would make. The step is the one that
    /// [`TreeView::step`] describes; every node that the host is asked to
    /// write is resident when the step returns.
    #[verifier::rlimit(50)]
    pub fn advance_with(&mut self, fresh: NodeRef) -> (out: Outcome<V>)
        requires
            total_order::<K>(),
            old(self).wf(),
            old(self)@.pending is Some,
        ensures
            final(self).wf(),
            final(self)@ == old(self)@.step(fresh@).tree,
            writes_of(out.writes@) == old(self)@.step(fresh@).writes,
            out.next@ == old(self)@.step(fresh@).next,
            forall|i: int|
                0 <= i < out.writes@.len() ==> final(self)@.holds(
                    write_name(#[trigger] writes_of(out.writes@)[i]),
                ),
    {
        let ghost before = self@;
        let pending = match self.pending.take() {
            Some(p) => p,
            None => vstd::pervasive::unreached(),
        };
        let Pending { key, value, at } = pending;
        let here: NodeRef = match &at {
            Some(name) => name.clone(),
            None => root_ref(),
        };
        proof {
            lemma_not_root(before.cached, here@);
            assert(self@ == before.idle());
        }
        let ghost node = before.record(here@);
        let (found, leaf) = match self.node(&here) {
            Some(record) => (record.search(&key), record.is_leaf()),
            None => vstd::pervasive::unreached(),
        };
        let idx: usize = match found {
            Ok(_) => 0,
            Err(i) => i,
        };
        if found.is_ok() || leaf {
            let previous = self.put_at(&at, key, value);
            let mut writes: Vec<Write> = Vec::new();
            writes.push(Write::Save(here));
            proof {
                crate::node::lemma_put(node, key, value);
                if at is Some {
                    crate::cache::lemma_with_data(
                        before.cached,
                        rank_of(before.cached, here@),
                        node.put(key, value),
                    );
                }
                assert(writes_of(writes@) =~= seq![WriteView::Save(here@)]);
            }
            return Outcome { writes, next: Next::Done(previous) };
        }
        let child: NodeRef = match self.node(&here) {
            Some(record) => record.child(idx).clone(),
            None => vstd::pervasive::unreached(),
        };
        proof {
            assert(child@ == before.child());
        }
        let root = root_ref();
        if child == root {
            proof {
                assert(writes_of(Seq::<Write>::empty()) =~= Seq::<WriteView>::empty());
            }
            return Outcome {
                writes: Vec::new(),
                next: Next::Failed(Error::Node(NodeError::malformed())),
            };
        }
        let child_full = match self.node_cache.get(&child) {
            Some(n) => n.is_full(),
            None => {
                self.pending = Some(Pending { key, value, at });
                proof {
                    assert(self@ == before);
                    assert(writes_of(Seq::<Write>::empty()) =~= Seq::<WriteView>::empty());
                }
                return Outcome { writes: Vec::new(), next: Next::Load(child) };
            },
        };
        let ghost full = before.record(child@);
        if !child_full {
            self.node_cache.touch(&child);
            proof {
                crate::cache::lemma_promoted(before.cached, child@);
            }
            self.pending = Some(Pending { key, value, at: Some(child) });
            proof {
                assert(writes_of(Seq::<Write>::empty()) =~= Seq::<WriteView>::empty());
            }
            return Outcome { writes: Vec::new(), next: Next::Continue };
        }
        let clash = match self.node_cache.get(&child) {
            Some(n) => {
                let record = n.record();
                let m = record.capacity() / 2;
                match self.node(&here) {
                    Some(above) => match above.search(&record.keys()[m]) {
                        Ok(_) => true,
                        Err(place) => place != idx,
                    },
                    None => vstd::pervasive::unreached(),
                }
            },
            None => vstd::pervasive::unreached(),
        };
        if clash {
            proof {
                assert(writes_of(Seq::<Write>::empty()) =~= Seq::<WriteView>::empty());
            }
            return Outcome {
                writes: Vec::new(),
                next: Next::Failed(Error::Node(NodeError::malformed())),
            };
        }
        if fresh == root || self.node_cache.contains(&fresh) {
            proof {
                assert(writes_of(Seq::<Write>::empty()) =~= Seq::<WriteView>::empty());
            }
            return Outcome {
                writes: Vec::new(),
                next: Next::Failed(Error::Node(NodeError::taken())),
            };
        }
        self.split_child(key, value, at, here, child, fresh)
    }

    /// Splits the full child in the way of the walk; the last case of
    /// [`BTree::advance_with`].
    #[verifier::rlimit(50)]
    fn split_child(
        &mut self,
        key: K,
        value: V,
        at: Option<NodeRef>,
        here: NodeRef,
        child: NodeRef,
        fresh: NodeRef,
    ) -> (out: Outcome<V>)
        requires
            total_order::<K>(),
            old(self).wf(),
            old(self)@.pending is None,
            here@ == at_name(at),
            at matches Some(name) ==> resident(old(self)@.cached, name@),
            ({
                let node = old(self)@.record(here@);
                let full = old(self)@.record(child@);
                &&& !node.is_leaf()
                &&& !node.is_full()
                &&& !node.has(key)
                &&& child@ == node.children->Some_0[node.place_of(key)]
                &&& resident(old(self)@.cached, child@)
                &&& full.is_full()
                &&& !node.has(full.keys[full.median()])
                &&& node.place_of(full.keys[full.median()]) == node.place_of(key)
            }),
            old(self)@.is_free(fresh@),
        ensures
            final(self).wf(),
            ({
                let start = TreeView {
                    pending: Some(
                        PendingView {
                            key,
                            value,
                            at: at_view(at),
                        },
                    ),
                    ..old(self)@
                };
                &&& final(self)@ == start.step_split(fresh@).tree
                &&& writes_of(out.writes@) == start.step_split(fresh@).writes
                &&& out.next@ == start.step_split(fresh@).next
            }),
            forall|i: int|
                0 <= i < out.writes@.len() ==> final(self)@.holds(
                    write_name(#[trigger] writes_of(out.writes@)[i]),
                ),
    {
        proof {
            reveal(TreeView::step_split);
        }
        let ghost idle = self@;
        let ghost before = TreeView {
            pending: Some(
                PendingView {
                    key,
                    value,
                    at: at_view(at),
                },
            ),
            ..idle
        };
        let ghost node = before.record(here@);
        let ghost full = before.record(child@);
        proof {
            lemma_not_root(before.cached, here@);
            assert(before.here() == here@);
            assert(before.child() == child@);
        }
        // Both nodes are used now, so the new sibling cannot push them out.
        match &at {
            Some(name) => {
                self.node_cache.touch(name);
            },
            None => {},
        }
        let ghost used_here = self.node_cache@;
        self.node_cache.touch(&child);
        let ghost used = self.node_cache@;
        proof {
            crate::cache::lemma_promoted(before.cached, here@);
            crate::cache::lemma_promoted(used_here, child@);
            assert(used == promoted(promoted(before.cached, here@), child@));
            assert(child@ != here@);
            assert(resident(used, child@));
            assert(used[rank_of(used, child@)].data == full);
            if at is Some {
                assert(resident(used_here, here@));
                assert(used_here[rank_of(used_here, here@)] == before.cached[rank_of(
                    before.cached,
                    here@,
                )]);
                assert(resident(used, here@));
                assert(used[rank_of(used, here@)] == used_here[rank_of(used_here, here@)]);
                assert(rank_of(used, here@) != rank_of(used, child@));
            }
            crate::node::lemma_split(full);
        }
        let (up_key, up_value, sibling) = self.node_cache.split(&child, fresh.clone());
        let ghost halved = self.node_cache@;
        proof {
            crate::cache::lemma_with_data(used, rank_of(used, child@), full.lower_half());
            if at is Some {
                assert(resident(halved, here@));
                assert(rank_of(halved, here@) == rank_of(used, here@));
            }
            assert(self@.record(here@) == node);
        }
        let order = compare(&key, &up_key);
        self.absorb_at(&at, up_key, up_value, fresh.clone());
        let ghost grown = node.absorb(up_key, up_value, fresh@);
        let ghost sib = sibling@;
        proof {
            crate::node::lemma_absorb(node, up_key, up_value, fresh@);
            if at is Some {
                crate::cache::lemma_with_data(halved, rank_of(halved, here@), grown);
            }
        }
        let mut writes: Vec<Write> = Vec::new();
        writes.push(Write::Create(fresh.clone()));
        writes.push(Write::Save(child.clone()));
        writes.push(Write::Save(here));
        proof {
            assert(writes_of(writes@) =~= seq![
                WriteView::Create(fresh@),
                WriteView::Save(child@),
                WriteView::Save(here@),
            ]);
        }
        match order {
            KeyOrder::Same => {
                let ghost absorbed = self@;
                proof {
                    assert(grown.keys[node.place_of(up_key)] == key);
                    crate::node::lemma_index_unique(grown, key, node.place_of(up_key));
                    crate::node::lemma_put(grown, key, value);
                }
                let previous = self.put_at(&at, key, value);
                proof {
                    if at is Some {
                        crate::cache::lemma_with_data(
                            absorbed.cached,
                            rank_of(absorbed.cached, here@),
                            grown.put(key, value),
                        );
                        assert(rank_of(absorbed.cached, here@) == rank_of(halved, here@));
                        assert(self.node_cache@ =~= with_data(
                            halved,
                            rank_of(halved, here@),
                            grown.put(key, value),
                        ));
                    }
                }
                let ghost stored = self.node_cache@;
                self.node_cache.insert(sibling);
                proof {
                    crate::cache::lemma_entered_wf(stored, sib);
                    crate::cache::lemma_entered_keeps(stored, sib, rank_of(stored, child@));
                    if at is Some {
                        crate::cache::lemma_entered_keeps(stored, sib, rank_of(stored, here@));
                    }
                }
                proof {
                    assert(self@ == before.step_split(fresh@).tree);
                }
                Outcome { writes, next: Next::Done(previous) }
            },
            KeyOrder::Before => {
                let ghost stored = self.node_cache@;
                self.node_cache.insert(sibling);
                proof {
                    crate::cache::lemma_entered_wf(stored, sib);
                    crate::cache::lemma_entered_keeps(stored, sib, rank_of(stored, child@));
                    if at is Some {
                        crate::cache::lemma_entered_keeps(stored, sib, rank_of(stored, here@));
                    }
                }
                self.pending = Some(Pending { key, value, at: Some(child) });
                proof {
                    assert(self@ == before.step_split(fresh@).tree);
                }
                Outcome { writes, next: Next::Continue }
            },
            KeyOrder::After => {
                let ghost stored = self.node_cache@;
                self.node_cache.insert(sibling);
                proof {
                    crate::cache::lemma_entered_wf(stored, sib);
                    crate::cache::lemma_entered_keeps(stored, sib, rank_of(stored, child@));
                    if at is Some {
                        crate::cache::lemma_entered_keeps(stored, sib, rank_of(stored, here@));
                    }
                    crate::order::lemma_trichotomy(key, up_key);
                }
                self.pending = Some(Pending { key, value, at: Some(fresh) });
                proof {
                    assert(self@ == before.step_split(fresh@).tree);
                }
                Outcome { writes, next: Next::Continue }
            },
        }
    }

    /// Starts the insertion of `value` under `key`, with `left` and `right`
    /// as the names for the nodes that a split of the root would make. An
    /// earlier insertion that was not completed is given up. What happens is
    /// what [`TreeView::start`] describes; every node that the host is asked
    /// to write is resident when the call returns.
    pub fn insert_with(&mut self, key: K, value: V, left: NodeRef, right: NodeRef) -> (out:
        Outcome<V>)
        requires
            total_order::<K>(),
            old(self).wf(),
        ensures
            final(self).wf(),
            final(self)@ == old(self)@.start(key, value, left@, right@).tree,
            writes_of(out.writes@) == old(self)@.start(key, value, left@, right@).writes,
            out.next@ == old(self)@.start(key, value, left@, right@).next,
            forall|i: int|
                0 <= i < out.writes@.len() ==> final(self)@.holds(
                    write_name(#[trigger] writes_of(out.writes@)[i]),
                ),
    {
        self.pending = None;
        if !self.root_node.is_full() {
            self.begin(key, value);
            proof {
                assert(writes_of(Seq::<Write>::empty()) =~= Seq::<WriteView>::empty());
            }
            return Outcome { writes: Vec::new(), next: Next::Continue };
        }
        let ghost idle = self@;
        match self.split_root(left, right) {
            Ok(writes) => {
                proof {
                    crate::node::lemma_split(idle.root);
                    assert(!self@.root.is_full());
                }
                self.begin(key, value);
                proof {
                    assert(self@.holds(left@) && self@.holds(right@));
                    assert(writes_of(writes@).len() == 3);
                    assert forall|i: int| 0 <= i < writes@.len() implies self@.holds(
                        write_name(#[trigger] writes_of(writes@)[i]),
                    ) by {
                        if i == 0 {
                        } else if i == 1 {
                        } else {
                        }
                    }
                }
                Outcome { writes, next: Next::Continue }
            },
            Err(e) => {
                proof {
                    assert(writes_of(Seq::<Write>::empty()) =~= Seq::<WriteView>::empty());
                }
                Outcome { writes: Vec::new(), next: Next::Failed(e) }
            },
        }
    }

    /// Starts the insertion of `value` under `key`, as
    /// [`BTree::insert_with`] does, with two names drawn at random for the
    /// nodes that a split of the root would make. Each name has
    /// [`FRESH_NAME_LEN`](crate::names::FRESH_NAME_LEN) characters.
    pub fn insert(&mut self, key: K, value: V) -> (out: Outcome<V>)
        requires
            total_order::<K>(),
            old(self).wf(),
        ensures
            final(self).wf(),
            exists|left: Seq<char>, right: Seq<char>|
                {
                    &&& left.len() == crate::names::FRESH_NAME_LEN
                    &&& right.len() == crate::names::FRESH_NAME_LEN
                    &&& final(self)@ == (#[trigger] old(self)@.start(key, value, left, right)).tree
                    &&& writes_of(out.writes@) == old(self)@.start(key, value, left, right).writes
                    &&& out.next@ == old(self)@.start(key, value, left, right).next
                },
            forall|i: int|
                0 <= i < out.writes@.len() ==> final(self)@.holds(
                    write_name(#[trigger] writes_of(out.writes@)[i]),
                ),
    {
        let left = draw_name();
        let right = draw_name();
        let ghost l = left@;
        let ghost r = right@;
        let ghost before = self@;
        let out = self.insert_with(key, value, left, right);
        proof {
            assert(self@ == before.start(key, value, l, r).tree);
        }
        out
    }

    /// Takes one step of the insertion in progress, as
    /// [`BTree::advance_with`] does, with a name drawn at random for the
    /// node that a split would make. The name has
    /// [`FRESH_NAME_LEN`](crate::names::FRESH_NAME_LEN) characters.
    pub fn advance(&mut self) -> (out: Outcome<V>)
        requires
            total_order::<K>(),
            old(self).wf(),
            old(self)@.pending is Some,
        ensures
            final(self).wf(),
            exists|fresh: Seq<char>|
                {
                    &&& fresh.len() == crate::names::FRESH_NAME_LEN
                    &&& final(self)@ == (#[trigger] old(self)@.step(fresh)).tree
                    &&& writes_of(out.writes@) == old(self)@.step(fresh).writes
                    &&& out.next@ == old(self)@.step(fresh).next
                },
            forall|i: int|
                0 <= i < out.writes@.len() ==> final(self)@.holds(
                    write_name(#[trigger] writes_of(out.writes@)[i]),
                ),
    {
        let fresh = draw_name();
        let ghost name = fresh@;
        let ghost before = self@;
        let out = self.advance_with(fresh);
        proof {
            assert(self@ == before.step(name).tree);
        }
        out
    }

    /// Looks for `key` in the node of the given name and marks the node as
    /// just used. A search for a key starts at the root and follows the
    /// answers until the key is found or a leaf lacks it.
    pub fn look(&mut self, at: &NodeRef, key: &K) -> (r: Look<'_, V>)
        requires
            total_order::<K>(),
            old(self).wf(),
        ensures
            final(self).wf(),
            final(self)@ == (TreeView { cached: promoted(old(self)@.cached, at@), ..old(self)@ }),
            r@ == old(self)@.looked(at@, *key),
    {
        let ghost before = self@;
        self.node_cache.touch(at);
        proof {
            crate::cache::lemma_promoted(before.cached, at@);
            lemma_not_root(before.cached, at@);
            if before.pending is Some {
                lemma_not_root(before.cached, before.here());
            }
        }
        match self.node(at) {
            None => Look::Missing(at.clone()),
            Some(record) => match record.search(key) {
                Ok(i) => Look::Found(&record.values()[i]),
                Err(i) => {
                    if record.is_leaf() {
                        Look::Absent
                    } else {
                        Look::Enter(record.child(i).clone())
                    }
                },
            },
        }
    }

    /// Gives up the insertion in progress, if there is one. Nodes that
    /// earlier steps changed stay as they are.
    pub fn abandon(&mut self)
        requires
            old(self).wf(),
        ensures
            final(self).wf(),
            final(self)@ == (TreeView { pending: None, ..old(self)@ }),
    {
        self.pending = None;
    }
}

/// In a tree that satisfies its invariant, every resident node has strictly
/// increasing keys, and so no key twice.
pub proof fn lemma_resident_ordered<K: Ord, V>(tree: TreeView<K, V>, name: Seq<char>)
    requires
        total_order::<K>(),
        tree.wf(),
        tree.holds(name),
    ensures
        tree.record(name).wf(),
        crate::order::strictly_increasing(tree.record(name).keys),
        forall|i: int, j: int|
            0 <= i < tree.record(name).keys.len() && 0 <= j < tree.record(name).keys.len() && i
                != j ==> tree.record(name).keys[i] != tree.record(name).keys[j],
{
    lemma_not_root(tree.cached, name);
    if name != root_name() {
        assert(tree.cached[rank_of(tree.cached, name)].data.wf());
    }
    crate::node::lemma_keys_distinct(tree.record(name));
}

/// Splitting the full root makes the tree one level higher: the root is
/// left with exactly one key, the median, and two children, the new nodes.
/// The new nodes are resident and hold the keys below and above the median,
/// so that no key is lost, and the tree still satisfies its invariant.
pub proof fn lemma_root_split<K: Ord, V>(tree: TreeView<K, V>, left: Seq<char>, right: Seq<char>)
    requires
        total_order::<K>(),
        tree.wf(),
        tree.pending is None,
        tree.root.is_full(),
        tree.is_free(left),
        tree.is_free(right),
        left != right,
    ensures
        tree.root_split(left, right).wf(),
        tree.root_split(left, right).root.keys.len() == 1,
        tree.root_split(left, right).root.children == Some(seq![left, right]),
        !tree.root_split(left, right).root.is_full(),
        tree.root_split(left, right).holds(left),
        tree.root_split(left, right).holds(right),
        tree.root_split(left, right).record(left) == tree.root.lower_half(),
        tree.root_split(left, right).record(right) == tree.root.upper_half(),
        tree.root.keys == tree.root_split(left, right).record(left).keys
            + tree.root_split(left, right).root.keys + tree.root_split(left, right).record(
            right,
        ).keys,
{
    let after = tree.root_split(left, right);
    let low = NodeState { name: left, data: tree.root.lower_half() };
    let up = NodeState { name: right, data: tree.root.upper_half() };
    crate::node::lemma_split(tree.root);
    crate::cache::lemma_entered_wf(tree.cached, low);
    let mid = entered(tree.cached, low);
    crate::cache::lemma_rank(mid, 0);
    assert(!resident(mid, right)) by {
        if resident(mid, right) {
            let k = rank_of(mid, right);
            if k > 0 {
                assert(tree.cached[k - 1].name == right);
            }
        }
    }
    crate::cache::lemma_entered_wf(mid, up);
    crate::cache::lemma_entered_keeps(mid, up, 0);
    crate::cache::lemma_rank(entered(mid, up), 0);
    assert(after.root.wf()) by {
        assert(crate::order::strictly_increasing(after.root.keys));
    }
    assert(tree.root.keys =~= after.record(left).keys + after.root.keys + after.record(
        right,
    ).keys);
}

/// Starting an insertion keeps the invariant of the tree, and every node
/// that the host is asked to write is resident.
pub proof fn lemma_start<K: Ord, V>(
    tree: TreeView<K, V>,
    key: K,
    value: V,
    left: Seq<char>,
    right: Seq<char>,
)
    requires
        total_order::<K>(),
        tree.wf(),
    ensures
        tree.start(key, value, left, right).tree.wf(),
        forall|i: int|
            0 <= i < tree.start(key, value, left, right).writes.len() ==> tree.start(
                key,
                value,
                left,
                right,
            ).tree.holds(write_name(#[trigger] tree.start(key, value, left, right).writes[i])),
{
    if tree.root.is_full() && tree.is_free(left) && tree.is_free(right) && left != right {
        lemma_root_split(tree.idle(), left, right);
    }
}

/// Taking in a node that the host has read keeps the invariant of the tree.
pub proof fn lemma_supplied<K: Ord, V>(tree: TreeView<K, V>, name: Seq<char>, data: NodeView<K, V>)
    requires
        total_order::<K>(),
        tree.wf(),
        data.wf(),
    ensures
        tree.supplied(name, data).wf(),
        tree.supplied(name, data).holds(name),
        !tree.holds(name) ==> tree.supplied(name, data).record(name) == data,
{
    if !tree.holds(name) {
        let node = NodeState { name, data };
        if tree.pending is Some {
            let here = tree.here();
            lemma_not_root(tree.cached, here);
            crate::cache::lemma_promoted(tree.cached, here);
            let used = promoted(tree.cached, here);
            crate::cache::lemma_entered_wf(used, node);
            crate::cache::lemma_rank(entered(used, node), 0);
            if tree.pending->Some_0.at is Some {
                crate::cache::lemma_entered_keeps(used, node, 0);
            }
        } else {
            crate::cache::lemma_entered_wf(tree.cached, node);
            crate::cache::lemma_rank(entered(tree.cached, node), 0);
        }
    }
}

/// A step of an insertion keeps the invariant of the tree, and every node
/// that the host is asked to write is resident when the step is done. So
/// whatever is stored has strictly increasing keys, at every point of the
/// tree's life.
pub proof fn lemma_step<K: Ord, V>(tree: TreeView<K, V>, fresh: Seq<char>)
    requires
        total_order::<K>(),
        tree.wf(),
        tree.pending is Some,
    ensures
        tree.step(fresh).tree.wf(),
        tree.step(fresh).tree.capacity == tree.capacity,
        forall|i: int|
            0 <= i < tree.step(fresh).writes.len() ==> tree.step(fresh).tree.holds(
                write_name(#[trigger] tree.step(fresh).writes[i]),
            ),
        forall|i: int|
            0 <= i < tree.step(fresh).writes.len() ==> tree.step(fresh).tree.record(
                write_name(#[trigger] tree.step(fresh).writes[i]),
            ).wf(),
{
    let p = tree.pending->Some_0;
    let here = tree.here();
    let node = tree.record(here);
    let c = tree.child();
    let full = tree.record(c);
    let after = tree.step(fresh);
    lemma_not_root(tree.cached, here);
    lemma_resident_ordered(tree, here);
    if node.has(p.key) || node.is_leaf() {
        crate::node::lemma_put(node, p.key, p.value);
        if p.at is Some {
            crate::cache::lemma_with_data(
                tree.cached,
                rank_of(tree.cached, here),
                node.put(p.key, p.value),
            );
        }
    } else if c == root_name() {
    } else if !resident(tree.cached, c) {
    } else if !full.is_full() {
        crate::cache::lemma_promoted(tree.cached, c);
    } else if tree.misplaced() {
    } else if !tree.is_free(fresh) {
    } else {
        lemma_step_split(tree, fresh);
    }
    assert forall|i: int| 0 <= i < after.writes.len() implies after.tree.record(
        write_name(#[trigger] after.writes[i]),
    ).wf() by {
        lemma_resident_ordered(after.tree, write_name(after.writes[i]));
    }
}

/// What an insertion stores is what a look finds. Where the walk of the
/// pending insertion stands on a node that holds the key or is a leaf, the
/// step completes the insertion and reports the value that the key had in
/// that node, none for a new key; a look at the node then finds the new
/// value under the key, and every other key of the node has what it had.
pub proof fn lemma_stored_is_found<K: Ord, V>(tree: TreeView<K, V>, fresh: Seq<char>)
    requires
        total_order::<K>(),
        tree.wf(),
        tree.pending is Some,
        tree.record(tree.here()).has(tree.pending->Some_0.key) || tree.record(
            tree.here(),
        ).is_leaf(),
    ensures
        tree.step(fresh).next == NextView::Done(
            tree.record(tree.here()).get(tree.pending->Some_0.key),
        ),
        !tree.record(tree.here()).has(tree.pending->Some_0.key) ==> tree.step(fresh).next
            == NextView::<V>::Done(None),
        tree.step(fresh).tree.pending is None,
        tree.step(fresh).tree.looked(tree.here(), tree.pending->Some_0.key) == LookView::Found(
            tree.pending->Some_0.value,
        ),
        forall|other: K|
            other != tree.pending->Some_0.key ==> tree.step(fresh).tree.record(tree.here()).get(
                other,
            ) == tree.record(tree.here()).get(other),
{
    let p = tree.pending->Some_0;
    let here = tree.here();
    let node = tree.record(here);
    lemma_not_root(tree.cached, here);
    lemma_resident_ordered(tree, here);
    crate::node::lemma_put(node, p.key, p.value);
    if p.at is Some {
        crate::cache::lemma_with_data(
            tree.cached,
            rank_of(tree.cached, here),
            node.put(p.key, p.value),
        );
    }
    assert(tree.step(fresh).tree.record(here) == node.put(p.key, p.value));
}

/// A step changes no node behind the host's back: a node that is resident
/// after the step and that the host was not asked to write was resident
/// before the step and holds what it held. So once the host has carried out
/// the writes of a step, every resident node is stored as it stands, and a
/// node that leaves the cache later takes no unsaved change with it.
pub proof fn lemma_step_unwritten<K: Ord, V>(tree: TreeView<K, V>, fresh: Seq<char>, name: Seq<char>)
    requires
        total_order::<K>(),
        tree.wf(),
        tree.pending is Some,
        tree.step(fresh).tree.holds(name),
        forall|i: int|
            0 <= i < tree.step(fresh).writes.len() ==> write_name(
                #[trigger] tree.step(fresh).writes[i],
            ) != name,
    ensures
        tree.holds(name),
        tree.step(fresh).tree.record(name) == tree.record(name),
{
    let p = tree.pending->Some_0;
    let here = tree.here();
    let node = tree.record(here);
    let c = tree.child();
    let full = tree.record(c);
    let after = tree.step(fresh);
    lemma_not_root(tree.cached, here);
    lemma_not_root(tree.cached, name);
    lemma_resident_ordered(tree, here);
    lemma_step(tree, fresh);
    lemma_not_root(after.tree.cached, name);
    if node.has(p.key) || node.is_leaf() {
        assert(after.writes[0] == WriteView::Save(here));
        assert(name != here);
        crate::node::lemma_put(node, p.key, p.value);
        if p.at is Some {
            crate::cache::lemma_with_data(
                tree.cached,
                rank_of(tree.cached, here),
                node.put(p.key, p.value),
            );
            if name != root_name() {
                crate::cache::lemma_with_data_other(
                    tree.cached,
                    rank_of(tree.cached, here),
                    node.put(p.key, p.value),
                    name,
                );
            }
        }
    } else if c == root_name() {
    } else if !resident(tree.cached, c) {
    } else if !full.is_full() {
        crate::cache::lemma_promoted(tree.cached, c);
    } else if tree.misplaced() {
    } else if !tree.is_free(fresh) {
    } else {
        reveal(TreeView::step_split);
        lemma_step_split(tree, fresh);
        assert(after.writes[0] == WriteView::Create(fresh));
        assert(after.writes[1] == WriteView::Save(c));
        assert(after.writes[2] == WriteView::Save(here));
        assert(name != fresh && name != c && name != here);
        lemma_resident_ordered(tree, c);
        crate::node::lemma_split(full);
        let up = full.keys[full.median()];
        let up_value = full.values[full.median()];
        crate::node::lemma_absorb(node, up, up_value, fresh);
        let grown = node.absorb(up, up_value, fresh);
        let used_here = promoted(tree.cached, here);
        crate::cache::lemma_promoted(tree.cached, here);
        let used = promoted(used_here, c);
        crate::cache::lemma_promoted(used_here, c);
        assert(c != here);
        assert(resident(used, c));
        if p.at is Some {
            assert(resident(used_here, here));
            assert(resident(used, here));
            assert(rank_of(used, here) != rank_of(used, c));
        }
        let halved = with_data(used, rank_of(used, c), full.lower_half());
        crate::cache::lemma_with_data(used, rank_of(used, c), full.lower_half());
        if p.at is Some {
            assert(resident(halved, here));
            assert(rank_of(halved, here) == rank_of(used, here));
            assert(halved[rank_of(halved, here)].name == here);
        }
        let sibling = NodeState { name: fresh, data: full.upper_half() };
        let last = if p.key == up {
            crate::node::lemma_index_unique(grown, p.key, node.place_of(up));
            crate::node::lemma_put(grown, p.key, p.value);
            grown.put(p.key, p.value)
        } else {
            grown
        };
        let stored = if p.at is Some {
            crate::cache::lemma_with_data(halved, rank_of(halved, here), last);
            with_data(halved, rank_of(halved, here), last)
        } else {
            halved
        };
        assert(after.tree.cached == entered(stored, sibling));
        if name != root_name() {
            crate::cache::lemma_entered_back(stored, sibling, name);
            if p.at is Some {
                assert(resident(halved, name));
                crate::cache::lemma_with_data_other(halved, rank_of(halved, here), last, name);
            }
            assert(resident(used, name));
            crate::cache::lemma_with_data_other(used, rank_of(used, c), full.lower_half(), name);
        }
    }
}

/// The start of an insertion changes no node behind the host's back: a node
/// that is resident afterwards and that the host was not asked to write was
/// resident before and holds what it held.
pub proof fn lemma_start_unwritten<K: Ord, V>(
    tree: TreeView<K, V>,
    key: K,
    value: V,
    left: Seq<char>,
    right: Seq<char>,
    name: Seq<char>,
)
    requires
        total_order::<K>(),
        tree.wf(),
        tree.start(key, value, left, right).tree.holds(name),
        forall|i: int|
            0 <= i < tree.start(key, value, left, right).writes.len() ==> write_name(
                #[trigger] tree.start(key, value, left, right).writes[i],
            ) != name,
    ensures
        tree.holds(name),
        tree.start(key, value, left, right).tree.record(name) == tree.record(name),
{
    let after = tree.start(key, value, left, right);
    if tree.root.is_full() && tree.is_free(left) && tree.is_free(right) && left != right {
        assert(after.writes[0] == WriteView::Create(left));
        assert(after.writes[1] == WriteView::Create(right));
        assert(after.writes[2] == WriteView::Save(root_name()));
        lemma_root_split(tree.idle(), left, right);
        let low = NodeState { name: left, data: tree.root.lower_half() };
        let up = NodeState { name: right, data: tree.root.upper_half() };
        crate::node::lemma_split(tree.root);
        crate::cache::lemma_entered_wf(tree.cached, low);
        let mid = entered(tree.cached, low);
        assert(!resident(mid, right)) by {
            if resident(mid, right) {
                let k = rank_of(mid, right);
                if k > 0 {
                    assert(tree.cached[k - 1].name == right);
                }
            }
        }
        crate::cache::lemma_entered_back(mid, up, name);
        crate::cache::lemma_entered_back(tree.cached, low, name);
    }
}

/// Taking in a node changes no other node: a node other than the supplied
/// one that is resident afterwards was resident before and holds what it
/// held.
pub proof fn lemma_supplied_others<K: Ord, V>(
    tree: TreeView<K, V>,
    name: Seq<char>,
    data: NodeView<K, V>,
    other: Seq<char>,
)
    requires
        total_order::<K>(),
        tree.wf(),
        data.wf(),
        tree.supplied(name, data).holds(other),
        other != name,
    ensures
        tree.holds(other),
        tree.supplied(name, data).record(other) == tree.record(other),
{
    if !tree.holds(name) && other != root_name() {
        let node = NodeState { name, data };
        if tree.pending is Some {
            let here = tree.here();
            lemma_not_root(tree.cached, here);
            crate::cache::lemma_promoted(tree.cached, here);
            crate::cache::lemma_entered_back(promoted(tree.cached, here), node, other);
        } else {
            crate::cache::lemma_entered_back(tree.cached, node, other);
        }
    }
}

/// The split of a full child keeps the invariant of the tree and leaves the
/// three nodes that it changed or made resident: the child with its lower
/// half, the new sibling with the upper half, and the node above with the
/// median taken in, and with the pending value where the pending key is the
/// median.
#[verifier::rlimit(50)]
pub proof fn lemma_step_split<K: Ord, V>(tree: TreeView<K, V>, fresh: Seq<char>)
    requires
        total_order::<K>(),
        tree.wf(),
        tree.pending is Some,
        !tree.record(tree.here()).is_leaf(),
        !tree.record(tree.here()).has(tree.pending->Some_0.key),
        tree.child() != root_name(),
        resident(tree.cached, tree.child()),
        tree.record(tree.child()).is_full(),
        !tree.misplaced(),
        tree.is_free(fresh),
    ensures
        tree.step_split(fresh).tree.wf(),
        tree.step_split(fresh).tree.holds(fresh),
        tree.step_split(fresh).tree.holds(tree.child()),
        tree.step_split(fresh).tree.holds(tree.here()),
        tree.step_split(fresh).writes == seq![
            WriteView::Create(fresh),
            WriteView::Save(tree.child()),
            WriteView::Save(tree.here()),
        ],
        tree.step_split(fresh).tree.record(tree.child()) == tree.record(
            tree.child(),
        ).lower_half(),
        tree.step_split(fresh).tree.record(fresh) == tree.record(tree.child()).upper_half(),
        ({
            let full = tree.record(tree.child());
            let grown = tree.record(tree.here()).absorb(
                full.keys[full.median()],
                full.values[full.median()],
                fresh,
            );
            let p = tree.pending->Some_0;
            tree.step_split(fresh).tree.record(tree.here()) == if p.key == full.keys[full.median()] {
                grown.put(p.key, p.value)
            } else {
                grown
            }
        }),
        tree.step_split(fresh).tree.capacity == tree.capacity,
        ({
            let full = tree.record(tree.child());
            let up = full.keys[full.median()];
            let p = tree.pending->Some_0;
            &&& tree.step_split(fresh).next == if p.key == up {
                NextView::Done(Some(full.values[full.median()]))
            } else {
                NextView::Continue
            }
            &&& tree.step_split(fresh).tree.pending == if p.key == up {
                None
            } else {
                Some(
                    PendingView {
                        at: Some(
                            if key_lt(p.key, up) {
                                tree.child()
                            } else {
                                fresh
                            },
                        ),
                        ..p
                    },
                )
            }
        }),
{
    reveal(TreeView::step_split);
    let p = tree.pending->Some_0;
    let here = tree.here();
    let c = tree.child();
    let node = tree.record(here);
    let full = tree.record(c);
    let up = full.keys[full.median()];
    let up_value = full.values[full.median()];
    lemma_not_root(tree.cached, here);
    lemma_resident_ordered(tree, here);
    lemma_resident_ordered(tree, c);
    assert(c != here);
    let used_here = promoted(tree.cached, here);
    crate::cache::lemma_promoted(tree.cached, here);
    let used = promoted(used_here, c);
    crate::cache::lemma_promoted(used_here, c);
    assert(resident(used, c));
    assert(used[rank_of(used, c)].data == full);
    if p.at is Some {
        assert(resident(used_here, here));
        assert(used_here[rank_of(used_here, here)] == tree.cached[rank_of(tree.cached, here)]);
        assert(resident(used, here));
        assert(used[rank_of(used, here)] == used_here[rank_of(used_here, here)]);
        assert(rank_of(used, here) != rank_of(used, c));
    }
    crate::node::lemma_split(full);
    let halved = with_data(used, rank_of(used, c), full.lower_half());
    crate::cache::lemma_with_data(used, rank_of(used, c), full.lower_half());
    let grown = node.absorb(up, up_value, fresh);
    crate::node::lemma_absorb(node, up, up_value, fresh);
    let sibling = NodeState { name: fresh, data: full.upper_half() };
    let used_tree = TreeView { cached: used, ..tree };
    let split = used_tree.with_record(c, full.lower_half());
    assert(split.cached == halved);
    if p.at is Some {
        assert(resident(halved, here));
        assert(rank_of(halved, here) == rank_of(used, here));
        assert(halved[rank_of(halved, here)].data == node);
    }
    if p.key == up {
        crate::node::lemma_index_unique(grown, p.key, node.place_of(up));
        crate::node::lemma_put(grown, p.key, p.value);
        let stored = split.with_record(here, grown.put(p.key, p.value));
        if p.at is Some {
            crate::cache::lemma_with_data(halved, rank_of(halved, here), grown.put(p.key, p.value));
            crate::cache::lemma_entered_keeps(stored.cached, sibling, rank_of(stored.cached, here));
        }
        crate::cache::lemma_entered_wf(stored.cached, sibling);
        crate::cache::lemma_entered_keeps(stored.cached, sibling, rank_of(stored.cached, c));
        crate::cache::lemma_rank(entered(stored.cached, sibling), 0);
    } else {
        let stored = split.with_record(here, grown);
        if p.at is Some {
            crate::cache::lemma_with_data(halved, rank_of(halved, here), grown);
            crate::cache::lemma_entered_keeps(stored.cached, sibling, rank_of(stored.cached, here));
        }
        crate::cache::lemma_entered_wf(stored.cached, sibling);
        crate::cache::lemma_entered_keeps(stored.cached, sibling, rank_of(stored.cached, c));
        crate::cache::lemma_rank(entered(stored.cached, sibling), 0);
    }
}

} // verus!
