use btree::error::{Error, NodeError};
use btree::tree::{BTree, Look, Next, Outcome, Write};
use std::collections::HashMap;

type Record = (Vec<String>, Vec<String>, Option<Vec<String>>);

/// Stands for the directory of node files.
struct Disk {
    files: HashMap<String, Record>,
    loads: usize,
}

impl Disk {
    fn new() -> Disk {
        Disk { files: HashMap::new(), loads: 0 }
    }

    fn record_of(tree: &BTree<String, String>, name: &String) -> Record {
        let node = tree.node(name).expect("a node to write is resident");
        (node.keys().clone(), node.values().clone(), node.children().cloned())
    }

    fn store(&mut self, tree: &BTree<String, String>, writes: &Vec<Write>) {
        for w in writes {
            match w {
                Write::Create(name) => {
                    assert!(!self.files.contains_key(name), "created twice: {}", name);
                    self.files.insert(name.clone(), Disk::record_of(tree, name));
                }
                Write::Save(name) => {
                    assert!(self.files.contains_key(name), "saved before created: {}", name);
                    self.files.insert(name.clone(), Disk::record_of(tree, name));
                }
            }
        }
    }

    /// Looks a key up by walking the stored records from the root.
    fn lookup(&self, key: &str) -> Option<String> {
        let mut name = "root".to_string();
        loop {
            let (keys, values, children) = self.files.get(&name).expect("a stored node");
            match keys.binary_search_by(|k| k.as_str().cmp(key)) {
                Ok(i) => return Some(values[i].clone()),
                Err(i) => match children {
                    Some(c) => name = c[i].clone(),
                    None => return None,
                },
            }
        }
    }

    /// The number of edges from the root to a leaf.
    fn height(&self) -> usize {
        let mut name = "root".to_string();
        let mut h = 1;
        loop {
            let (_, _, children) = self.files.get(&name).expect("a stored node");
            match children {
                Some(c) => {
                    name = c[0].clone();
                    h += 1;
                }
                None => return h,
            }
        }
    }

    fn check_node(&self, name: &str, low: Option<&String>, high: Option<&String>, cap: usize) -> usize {
        let (keys, values, children) = self.files.get(name).expect("a stored node");
        assert_eq!(keys.len(), values.len());
        assert!(keys.len() <= cap);
        for pair in keys.windows(2) {
            assert!(pair[0] < pair[1], "keys out of order in {}", name);
        }
        if let (Some(l), Some(first)) = (low, keys.first()) {
            assert!(l < first);
        }
        if let (Some(h), Some(last)) = (high, keys.last()) {
            assert!(last < h);
        }
        let mut count = keys.len();
        if let Some(c) = children {
            assert_eq!(c.len(), keys.len() + 1);
            for i in 0..c.len() {
                let lo = if i == 0 { low } else { Some(&keys[i - 1]) };
                let hi = if i == keys.len() { high } else { Some(&keys[i]) };
                count += self.check_node(&c[i], lo, hi, cap);
            }
        }
        count
    }
}

fn new_tree(capacity: usize) -> (BTree<String, String>, Disk) {
    let tree: BTree<String, String> = BTree::new(capacity);
    let mut disk = Disk::new();
    disk.files.insert("root".to_string(), Disk::record_of(&tree, &"root".to_string()));
    (tree, disk)
}

fn drive(tree: &mut BTree<String, String>, disk: &mut Disk, first: Outcome<String>) -> Result<Option<String>, Error> {
    let mut out = first;
    loop {
        disk.store(tree, &out.writes);
        match out.next {
            Next::Continue => out = tree.advance(),
            Next::Load(name) => {
                disk.loads += 1;
                let (keys, values, children) = disk.files.get(&name).expect("a stored node").clone();
                tree.supply(name, keys, values, children)?;
                out = tree.advance();
            }
            Next::Done(previous) => return Ok(previous),
            Next::Failed(e) => return Err(e),
        }
    }
}

fn insert(tree: &mut BTree<String, String>, disk: &mut Disk, key: &str, value: &str) -> Option<String> {
    let first = tree.insert(key.to_string(), value.to_string());
    drive(tree, disk, first).expect("the insertion succeeds")
}

/// Looks a key up through the tree, reading nodes that are not resident.
fn find(tree: &mut BTree<String, String>, disk: &mut Disk, key: &str) -> Option<String> {
    let key = key.to_string();
    let mut at = "root".to_string();
    loop {
        let missing = match tree.look(&at, &key) {
            Look::Found(value) => return Some(value.clone()),
            Look::Absent => return None,
            Look::Enter(child) => {
                at = child;
                continue;
            }
            Look::Missing(name) => name,
        };
        disk.loads += 1;
        let (keys, values, children) = disk.files.get(&missing).expect("a stored node").clone();
        tree.supply(missing, keys, values, children).expect("a node record");
    }
}

fn key(i: usize) -> String {
    format!("k{:06}", i)
}

#[test]
fn new_tree_has_an_empty_root() {
    let (tree, _) = new_tree(5);
    assert_eq!(tree.capacity(), 5);
    assert!(!tree.is_busy());
    assert!(!tree.root_is_full());
    let root = tree.node(&"root".to_string()).unwrap();
    assert!(root.is_leaf());
    assert_eq!(root.len(), 0);
    assert!(tree.node(&"other".to_string()).is_none());
}

#[test]
fn root_fills_without_a_split() {
    let (mut tree, mut disk) = new_tree(5);
    for (k, v) in [("a", "1"), ("b", "2"), ("c", "3"), ("d", "4"), ("e", "5")] {
        assert_eq!(insert(&mut tree, &mut disk, k, v), None);
    }
    assert!(tree.root_is_full());
    assert_eq!(disk.files.len(), 1);
    assert_eq!(disk.height(), 1);
    let root = tree.node(&"root".to_string()).unwrap();
    assert_eq!(root.keys(), &vec!["a".to_string(), "b".to_string(), "c".to_string(), "d".to_string(), "e".to_string()]);
}

#[test]
fn insert_into_full_root_splits_it_once() {
    let (mut tree, mut disk) = new_tree(5);
    for (k, v) in [("a", "1"), ("b", "2"), ("c", "3"), ("d", "4"), ("e", "5")] {
        insert(&mut tree, &mut disk, k, v);
    }
    assert_eq!(insert(&mut tree, &mut disk, "f", "6"), None);
    assert_eq!(disk.height(), 2);
    assert_eq!(disk.files.len(), 3);
    let (keys, values, children) = disk.files.get("root").unwrap().clone();
    assert_eq!(keys, vec!["c".to_string()]);
    assert_eq!(values, vec!["3".to_string()]);
    let children = children.unwrap();
    assert_eq!(children.len(), 2);
    assert_eq!(children[0].len(), 36);
    assert_eq!(children[1].len(), 36);
    assert_ne!(children[0], children[1]);
    assert_eq!(disk.files.get(&children[0]).unwrap().0, vec!["a".to_string(), "b".to_string()]);
    assert_eq!(
        disk.files.get(&children[1]).unwrap().0,
        vec!["d".to_string(), "e".to_string(), "f".to_string()]
    );
    for (k, v) in [("a", "1"), ("b", "2"), ("c", "3"), ("d", "4"), ("e", "5"), ("f", "6")] {
        assert_eq!(disk.lookup(k), Some(v.to_string()));
    }
    assert_eq!(disk.lookup("g"), None);
}

#[test]
fn last_write_wins_in_the_tree() {
    let (mut tree, mut disk) = new_tree(5);
    for i in 0..40 {
        assert_eq!(insert(&mut tree, &mut disk, &key(i), "first"), None);
    }
    for i in 0..40 {
        assert_eq!(insert(&mut tree, &mut disk, &key(i), "second"), Some("first".to_string()));
    }
    for i in 0..40 {
        assert_eq!(disk.lookup(&key(i)), Some("second".to_string()));
    }
    assert_eq!(disk.check_node("root", None, None, 5), 40);
}

#[test]
fn many_inserts_keep_every_node_ordered() {
    let (mut tree, mut disk) = new_tree(5);
    let n = 3000;
    // a fixed pseudo-random order
    let mut order: Vec<usize> = (0..n).collect();
    let mut state: u64 = 12345;
    for i in (1..n).rev() {
        state = state.wrapping_mul(6364136223846793005).wrapping_add(1442695040888963407);
        let j = (state >> 33) as usize % (i + 1);
        order.swap(i, j);
    }
    for &i in &order {
        assert_eq!(insert(&mut tree, &mut disk, &key(i), &format!("v{}", i)), None);
    }
    assert_eq!(disk.check_node("root", None, None, 5), n);
    for i in 0..n {
        assert_eq!(disk.lookup(&key(i)), Some(format!("v{}", i)));
    }
    assert!(disk.files.len() > 256, "more nodes than the cache holds");
    assert!(disk.loads > 0, "evicted nodes were read again");
}

#[test]
fn increasing_keys_grow_the_tree() {
    let (mut tree, mut disk) = new_tree(7);
    for i in 0..2000 {
        insert(&mut tree, &mut disk, &key(i), "v");
        if i == 6 {
            assert_eq!(disk.height(), 1);
        }
        if i == 7 {
            assert_eq!(disk.height(), 2);
        }
    }
    assert_eq!(disk.check_node("root", None, None, 7), 2000);
    assert!(disk.height() >= 4);
}

#[test]
fn split_root_with_given_names() {
    let (mut tree, _) = new_tree(5);
    for k in ["a", "b", "c", "d", "e"] {
        tree.begin(k.to_string(), k.to_uppercase());
        let out = tree.advance_with("unused".to_string());
        assert!(matches!(out.next, Next::Done(None)));
        assert_eq!(out.writes.len(), 1);
        assert!(matches!(&out.writes[0], Write::Save(n) if n == "root"));
    }
    assert!(tree.root_is_full());
    let writes = tree.split_root("left".to_string(), "right".to_string()).unwrap();
    assert_eq!(writes.len(), 3);
    assert!(matches!(&writes[0], Write::Create(n) if n == "left"));
    assert!(matches!(&writes[1], Write::Create(n) if n == "right"));
    assert!(matches!(&writes[2], Write::Save(n) if n == "root"));
    let root = tree.node(&"root".to_string()).unwrap();
    assert_eq!(root.keys(), &vec!["c".to_string()]);
    assert_eq!(root.values(), &vec!["C".to_string()]);
    assert_eq!(root.children(), Some(&vec!["left".to_string(), "right".to_string()]));
    assert_eq!(tree.node(&"left".to_string()).unwrap().keys(), &vec!["a".to_string(), "b".to_string()]);
    assert_eq!(tree.node(&"right".to_string()).unwrap().keys(), &vec!["d".to_string(), "e".to_string()]);
}

#[test]
fn split_root_refuses_taken_names() {
    let (mut tree, _) = new_tree(5);
    for k in ["a", "b", "c", "d", "e"] {
        tree.begin(k.to_string(), k.to_string());
        tree.advance_with("unused".to_string());
    }
    let e = tree.split_root("same".to_string(), "same".to_string()).unwrap_err();
    assert!(matches!(e, Error::Node(NodeError::Io(_))));
    let e = tree.split_root("root".to_string(), "right".to_string()).unwrap_err();
    assert!(matches!(e, Error::Node(NodeError::Io(_))));
    assert!(tree.root_is_full());
    assert!(tree.node(&"right".to_string()).is_none());
    assert!(tree.split_root("left".to_string(), "right".to_string()).is_ok());
}

#[test]
fn child_split_with_given_name() {
    let (mut tree, mut disk) = new_tree(5);
    for k in ["a", "b", "c", "d", "e"] {
        insert(&mut tree, &mut disk, k, k);
    }
    let writes = tree.split_root("left".to_string(), "right".to_string()).unwrap();
    disk.store(&tree, &writes);
    // fill the right child: d e f g h
    for k in ["f", "g", "h"] {
        tree.begin(k.to_string(), k.to_string());
        let out = tree.advance_with("unused".to_string());
        assert!(matches!(out.next, Next::Continue));
        assert!(out.writes.is_empty());
        let out = tree.advance_with("unused".to_string());
        assert!(matches!(out.next, Next::Done(None)));
        disk.store(&tree, &out.writes);
    }
    // the next key above finds the right child full
    tree.begin("i".to_string(), "i".to_string());
    let out = tree.advance_with("sibling".to_string());
    assert!(matches!(out.next, Next::Continue));
    assert_eq!(out.writes.len(), 3);
    assert!(matches!(&out.writes[0], Write::Create(n) if n == "sibling"));
    assert!(matches!(&out.writes[1], Write::Save(n) if n == "right"));
    assert!(matches!(&out.writes[2], Write::Save(n) if n == "root"));
    disk.store(&tree, &out.writes);
    let root = tree.node(&"root".to_string()).unwrap();
    assert_eq!(root.keys(), &vec!["c".to_string(), "f".to_string()]);
    assert_eq!(
        root.children(),
        Some(&vec!["left".to_string(), "right".to_string(), "sibling".to_string()])
    );
    assert_eq!(tree.node(&"right".to_string()).unwrap().keys(), &vec!["d".to_string(), "e".to_string()]);
    assert_eq!(tree.node(&"sibling".to_string()).unwrap().keys(), &vec!["g".to_string(), "h".to_string()]);
    let out = tree.advance_with("unused".to_string());
    assert!(matches!(out.next, Next::Done(None)));
    assert!(matches!(&out.writes[0], Write::Save(n) if n == "sibling"));
    disk.store(&tree, &out.writes);
    assert_eq!(disk.lookup("i"), Some("i".to_string()));
    assert_eq!(disk.check_node("root", None, None, 5), 9);
}

#[test]
fn key_equal_to_the_median_of_a_full_child_is_stored_above() {
    let (mut tree, mut disk) = new_tree(5);
    for k in ["a", "b", "c", "d", "e"] {
        insert(&mut tree, &mut disk, k, "old");
    }
    let writes = tree.split_root("left".to_string(), "right".to_string()).unwrap();
    disk.store(&tree, &writes);
    for k in ["f", "g", "h"] {
        insert(&mut tree, &mut disk, k, "old");
    }
    tree.begin("f".to_string(), "new".to_string());
    let out = tree.advance_with("sibling".to_string());
    assert!(matches!(&out.next, Next::Done(Some(v)) if v == "old"));
    assert_eq!(out.writes.len(), 3);
    disk.store(&tree, &out.writes);
    assert!(!tree.is_busy());
    assert_eq!(disk.lookup("f"), Some("new".to_string()));
    assert_eq!(disk.check_node("root", None, None, 5), 8);
}

#[test]
fn a_missing_child_is_asked_for() {
    let (mut tree, mut disk) = new_tree(5);
    for i in 0..12 {
        insert(&mut tree, &mut disk, &key(i), "v");
    }
    // a tree over the same files whose cache is empty
    let (keys, values, children) = disk.files.get("root").unwrap().clone();
    let mut again: BTree<String, String> = BTree::open(5, keys, values, children).unwrap();
    let first = again.insert(key(100), "w".to_string());
    assert!(matches!(first.next, Next::Continue));
    let out = again.advance();
    let name = match out.next {
        Next::Load(name) => name,
        _ => panic!("the child is not resident"),
    };
    assert!(again.is_busy());
    assert!(again.node(&name).is_none());
    let (keys, values, children) = disk.files.get(&name).unwrap().clone();
    again.supply(name.clone(), keys, values, children).unwrap();
    assert!(again.node(&name).is_some());
    let out = again.advance();
    let previous = drive(&mut again, &mut disk, out).unwrap();
    assert_eq!(previous, None);
    assert_eq!(disk.lookup(&key(100)), Some("w".to_string()));
}

#[test]
fn values_survive_a_new_session() {
    let (mut tree, mut disk) = new_tree(5);
    for i in 0..500 {
        insert(&mut tree, &mut disk, &key(i), "one");
    }
    for i in 0..500 {
        if i % 3 == 0 {
            insert(&mut tree, &mut disk, &key(i), "two");
        }
    }
    drop(tree);
    let (keys, values, children) = disk.files.get("root").unwrap().clone();
    let mut again: BTree<String, String> = BTree::open(5, keys, values, children).unwrap();
    for i in 0..500 {
        let expected = if i % 3 == 0 { "two" } else { "one" };
        let first = again.insert(key(i), "three".to_string());
        let previous = drive(&mut again, &mut disk, first).unwrap();
        assert_eq!(previous, Some(expected.to_string()));
    }
    assert_eq!(disk.check_node("root", None, None, 5), 500);
}

#[test]
fn supply_rejects_a_record_that_is_no_node() {
    let (mut tree, _) = new_tree(5);
    let unordered = vec!["b".to_string(), "a".to_string()];
    let values = vec!["1".to_string(), "2".to_string()];
    let e = tree.supply("n".to_string(), unordered, values, None).unwrap_err();
    assert!(matches!(e, Error::Node(NodeError::Deserialization(_))));
    assert!(tree.node(&"n".to_string()).is_none());
    let e = tree
        .supply("n".to_string(), vec!["a".to_string()], vec![], None)
        .unwrap_err();
    assert!(matches!(e, Error::Node(NodeError::Deserialization(_))));
    let e = tree
        .supply(
            "n".to_string(),
            vec!["a".to_string()],
            vec!["1".to_string()],
            Some(vec!["x".to_string()]),
        )
        .unwrap_err();
    assert!(matches!(e, Error::Node(NodeError::Deserialization(_))));
    assert!(tree
        .supply("n".to_string(), vec!["a".to_string()], vec!["1".to_string()], None)
        .is_ok());
    assert_eq!(tree.node(&"n".to_string()).unwrap().keys(), &vec!["a".to_string()]);
}

#[test]
fn a_child_named_like_the_root_fails_the_insertion() {
    let keys = vec!["m".to_string()];
    let values = vec!["1".to_string()];
    let children = Some(vec!["root".to_string(), "x".to_string()]);
    let mut tree: BTree<String, String> = BTree::open(5, keys, values, children).unwrap();
    tree.begin("a".to_string(), "v".to_string());
    let out = tree.advance();
    assert!(matches!(out.next, Next::Failed(Error::Node(NodeError::Deserialization(_)))));
    assert!(!tree.is_busy());
}

#[test]
fn abandon_gives_up_the_insertion() {
    let (mut tree, _) = new_tree(5);
    tree.begin("a".to_string(), "v".to_string());
    assert!(tree.is_busy());
    tree.abandon();
    assert!(!tree.is_busy());
    assert_eq!(tree.node(&"root".to_string()).unwrap().len(), 0);
}

#[test]
fn error_messages() {
    assert_eq!(Error::Io("x".to_string()).message(), "An I/O error occurred.");
    assert_eq!(Error::Serialization("x".to_string()).message(), "A serialization error occurred.");
    assert_eq!(
        Error::Node(NodeError::Deserialization("x".to_string())).message(),
        "A node error occurred. A deserialization error occurred."
    );
    assert_eq!(NodeError::Io("x".to_string()).message(), "An I/O error occurred.");
    assert_eq!(NodeError::Serialization("x".to_string()).message(), "A serialization error occurred.");
    let e: Error = Error::from(NodeError::malformed());
    assert!(matches!(e, Error::Node(NodeError::Deserialization(_))));
    assert!(matches!(NodeError::taken(), NodeError::Io(_)));
}

#[test]
fn scenario_with_four_keys_more_than_the_root_holds() {
    let (mut tree, mut disk) = new_tree(5);
    let pairs = [("a", "1"), ("b", "2"), ("c", "3"), ("d", "4"), ("e", "5")];
    for (k, v) in pairs {
        assert_eq!(insert(&mut tree, &mut disk, k, v), None);
    }
    assert_eq!(disk.files.len(), 1);
    assert!(tree.root_is_full());
    assert_eq!(insert(&mut tree, &mut disk, "f", "6"), None);
    let root = tree.node(&"root".to_string()).unwrap();
    assert_eq!(root.len(), 1);
    assert_eq!(root.children().unwrap().len(), 2);
    for (k, v) in [("a", "1"), ("b", "2"), ("c", "3"), ("d", "4"), ("e", "5"), ("f", "6")] {
        assert_eq!(find(&mut tree, &mut disk, k), Some(v.to_string()));
    }
    assert_eq!(find(&mut tree, &mut disk, "z"), None);
}

#[test]
fn look_follows_the_tree() {
    let (mut tree, mut disk) = new_tree(5);
    for i in 0..100 {
        insert(&mut tree, &mut disk, &key(2 * i), &format!("v{}", i));
    }
    for i in 0..100 {
        assert_eq!(find(&mut tree, &mut disk, &key(2 * i)), Some(format!("v{}", i)));
        assert_eq!(find(&mut tree, &mut disk, &key(2 * i + 1)), None);
    }
    assert!(matches!(tree.look(&"nowhere".to_string(), &key(0)), Look::Missing(n) if n == "nowhere"));
}

#[test]
fn lookups_in_a_new_session_read_the_nodes() {
    let (mut tree, mut disk) = new_tree(5);
    for i in 0..1500 {
        insert(&mut tree, &mut disk, &key(i), "one");
    }
    for i in (0..1500).step_by(7) {
        assert_eq!(insert(&mut tree, &mut disk, &key(i), "two"), Some("one".to_string()));
    }
    drop(tree);
    let (keys, values, children) = disk.files.get("root").unwrap().clone();
    let mut again: BTree<String, String> = BTree::open(5, keys, values, children).unwrap();
    disk.loads = 0;
    for i in 0..1500 {
        let expected = if i % 7 == 0 { "two" } else { "one" };
        assert_eq!(find(&mut again, &mut disk, &key(i)), Some(expected.to_string()));
    }
    assert!(disk.loads > 256);
}

#[test]
fn open_rejects_a_root_that_is_no_node() {
    let r: Result<BTree<String, String>, Error> =
        BTree::open(5, vec!["b".to_string(), "a".to_string()], vec!["1".to_string(), "2".to_string()], None);
    assert!(matches!(r, Err(Error::Node(NodeError::Deserialization(_)))));
    let r: Result<BTree<String, String>, Error> = BTree::open(4, vec![], vec![], None);
    assert!(r.is_err());
}

#[test]
fn insert_with_given_names() {
    let (mut tree, _) = new_tree(5);
    for k in ["a", "b", "c", "d", "e"] {
        let out = tree.insert_with(k.to_string(), k.to_string(), "l".to_string(), "r".to_string());
        assert!(out.writes.is_empty());
        assert!(matches!(out.next, Next::Continue));
        tree.advance_with("unused".to_string());
    }
    let out = tree.insert_with("f".to_string(), "f".to_string(), "l".to_string(), "l".to_string());
    assert!(matches!(out.next, Next::Failed(Error::Node(NodeError::Io(_)))));
    assert!(!tree.is_busy());
    let out = tree.insert_with("f".to_string(), "f".to_string(), "l".to_string(), "r".to_string());
    assert!(matches!(out.next, Next::Continue));
    assert_eq!(out.writes.len(), 3);
    assert!(tree.is_busy());
    // the walk enters the right node, which is resident and has room
    let out = tree.advance_with("unused".to_string());
    assert!(matches!(out.next, Next::Continue));
    let out = tree.advance_with("unused".to_string());
    assert!(matches!(out.next, Next::Done(None)));
    assert!(matches!(&out.writes[0], Write::Save(n) if n == "r"));
    assert_eq!(
        tree.node(&"r".to_string()).unwrap().keys(),
        &vec!["d".to_string(), "e".to_string(), "f".to_string()]
    );
}

#[test]
fn taken_name_fails_a_child_split() {
    let (mut tree, _) = new_tree(5);
    for k in ["a", "b", "c", "d", "e"] {
        tree.begin(k.to_string(), k.to_string());
        tree.advance_with("unused".to_string());
    }
    tree.split_root("left".to_string(), "right".to_string()).unwrap();
    for k in ["f", "g", "h"] {
        tree.begin(k.to_string(), k.to_string());
        tree.advance_with("unused".to_string());
        tree.advance_with("unused".to_string());
    }
    tree.begin("i".to_string(), "i".to_string());
    let out = tree.advance_with("left".to_string());
    assert!(matches!(out.next, Next::Failed(Error::Node(NodeError::Io(_)))));
    assert!(out.writes.is_empty());
    assert!(!tree.is_busy());
    assert_eq!(tree.node(&"right".to_string()).unwrap().len(), 5);
}

fn strings(items: &[&str]) -> Vec<String> {
    items.iter().map(|s| s.to_string()).collect()
}

#[test]
fn a_median_that_the_node_above_holds_fails_the_insertion() {
    let mut tree: BTree<String, String> =
        BTree::open(5, strings(&["m"]), strings(&["1"]), Some(strings(&["x", "y"]))).unwrap();
    tree.begin("c".to_string(), "v".to_string());
    let out = tree.advance();
    assert!(matches!(&out.next, Next::Load(n) if n == "x"));
    tree.supply(
        "x".to_string(),
        strings(&["a", "b", "m", "n", "o"]),
        strings(&["1", "2", "3", "4", "5"]),
        None,
    )
    .unwrap();
    let out = tree.advance();
    assert!(matches!(out.next, Next::Failed(Error::Node(NodeError::Deserialization(_)))));
    assert!(out.writes.is_empty());
    assert!(!tree.is_busy());
    assert_eq!(tree.node(&"x".to_string()).unwrap().len(), 5);
    assert_eq!(tree.node(&"root".to_string()).unwrap().len(), 1);
}

#[test]
fn a_median_from_another_gap_fails_the_insertion() {
    let mut tree: BTree<String, String> =
        BTree::open(5, strings(&["m"]), strings(&["1"]), Some(strings(&["x", "y"]))).unwrap();
    tree.supply(
        "x".to_string(),
        strings(&["n", "o", "p", "q", "r"]),
        strings(&["1", "2", "3", "4", "5"]),
        None,
    )
    .unwrap();
    tree.begin("c".to_string(), "v".to_string());
    let out = tree.advance();
    assert!(matches!(out.next, Next::Failed(Error::Node(NodeError::Deserialization(_)))));
    assert!(!tree.is_busy());
    assert_eq!(tree.node(&"x".to_string()).unwrap().len(), 5);
}
