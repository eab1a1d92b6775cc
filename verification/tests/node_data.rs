use btree::node::{Node, NodeData};
use btree::order::{compare, KeyOrder};

fn leaf(capacity: usize, pairs: &[(u64, &str)]) -> NodeData<u64, String> {
    let mut node = NodeData::new(capacity);
    for (k, v) in pairs {
        node.insert(*k, v.to_string());
    }
    node
}

#[test]
fn new_node_is_an_empty_leaf() {
    let node: NodeData<u64, String> = NodeData::new(5);
    assert!(node.is_leaf());
    assert!(!node.is_full());
    assert_eq!(node.capacity(), 5);
    assert_eq!(node.len(), 0);
    assert!(node.keys().is_empty());
    assert!(node.values().is_empty());
    assert!(node.children().is_none());
}

#[test]
fn insert_keeps_keys_in_order() {
    let node = leaf(5, &[(30, "c"), (10, "a"), (20, "b")]);
    assert_eq!(node.keys(), &vec![10, 20, 30]);
    assert_eq!(node.values(), &vec!["a".to_string(), "b".to_string(), "c".to_string()]);
}

#[test]
fn insert_returns_previous_value() {
    let mut node: NodeData<u64, String> = NodeData::new(5);
    assert_eq!(node.insert(7, "first".to_string()), None);
    assert_eq!(node.insert(7, "second".to_string()), Some("first".to_string()));
    assert_eq!(node.get(&7), Some(&"second".to_string()));
    assert_eq!(node.len(), 1);
}

#[test]
fn split_of_capacity_five_yields_two_and_two() {
    let mut node = leaf(5, &[(1, "a"), (2, "b"), (3, "c"), (4, "d"), (5, "e")]);
    assert!(node.is_full());
    let (key, value, sibling) = node.split();
    assert_eq!(key, 3);
    assert_eq!(value, "c".to_string());
    assert_eq!(node.keys(), &vec![1, 2]);
    assert_eq!(sibling.keys(), &vec![4, 5]);
    assert_eq!(node.values(), &vec!["a".to_string(), "b".to_string()]);
    assert_eq!(sibling.values(), &vec!["d".to_string(), "e".to_string()]);
    assert_eq!(sibling.capacity(), 5);
    assert!(sibling.is_leaf());
}

#[test]
fn split_law_holds_for_other_capacities() {
    for capacity in [5usize, 7, 9, 11, 101] {
        let mut node: NodeData<u64, u64> = NodeData::new(capacity);
        for k in 0..capacity as u64 {
            node.insert(k, k);
        }
        assert!(node.is_full());
        let (key, _, sibling) = node.split();
        assert_eq!(key, capacity as u64 / 2);
        assert_eq!(node.len(), (capacity - 1) / 2);
        assert_eq!(sibling.len(), capacity / 2);
        assert_eq!(node.len() + sibling.len(), capacity - 1);
        assert!(!node.is_full());
        assert!(!sibling.is_full());
    }
}

#[test]
fn split_divides_the_children() {
    let mut node = leaf(5, &[(1, "a"), (2, "b"), (3, "c"), (4, "d"), (5, "e")]);
    node.adopt((0..6).map(|i| format!("c{}", i)).collect());
    assert!(!node.is_leaf());
    let (_, _, sibling) = node.split();
    assert_eq!(
        node.children(),
        Some(&vec!["c0".to_string(), "c1".to_string(), "c2".to_string()])
    );
    assert_eq!(
        sibling.children(),
        Some(&vec!["c3".to_string(), "c4".to_string(), "c5".to_string()])
    );
    assert_eq!(node.child(2), "c2");
    assert_eq!(sibling.child(0), "c3");
}

#[test]
fn search_finds_index_or_place() {
    let node = leaf(7, &[(10, "a"), (20, "b"), (30, "c")]);
    assert_eq!(node.search(&10), Ok(0));
    assert_eq!(node.search(&20), Ok(1));
    assert_eq!(node.search(&30), Ok(2));
    assert_eq!(node.search(&5), Err(0));
    assert_eq!(node.search(&15), Err(1));
    assert_eq!(node.search(&25), Err(2));
    assert_eq!(node.search(&35), Err(3));
    assert_eq!(node.get(&20), Some(&"b".to_string()));
    assert_eq!(node.get(&21), None);
}

#[test]
fn insert_if_space_reports_a_full_node() {
    let mut node = leaf(5, &[(1, "a"), (2, "b"), (3, "c"), (4, "d")]);
    assert!(node.insert_if_space(5, "e".to_string()).is_ok());
    assert!(node.is_full());
    assert!(node.insert_if_space(6, "f".to_string()).is_err());
    assert_eq!(node.keys(), &vec![1, 2, 3, 4, 5]);
    // a key that is present is updated even in a full node
    assert!(node.insert_if_space(3, "C".to_string()).is_ok());
    assert_eq!(node.get(&3), Some(&"C".to_string()));
    assert_eq!(node.len(), 5);
}

#[test]
fn absorb_puts_the_child_right_of_the_key() {
    let mut node = leaf(5, &[(10, "a"), (30, "c")]);
    node.adopt(vec!["x".to_string(), "y".to_string(), "z".to_string()]);
    node.absorb(20, "b".to_string(), "new".to_string());
    assert_eq!(node.keys(), &vec![10, 20, 30]);
    assert_eq!(
        node.children(),
        Some(&vec!["x".to_string(), "y".to_string(), "new".to_string(), "z".to_string()])
    );
    node.absorb(40, "d".to_string(), "last".to_string());
    assert_eq!(node.child(4), "last");
    node.absorb(5, "0".to_string(), "second".to_string());
    assert_eq!(node.child(0), "x");
    assert_eq!(node.child(1), "second");
}

#[test]
fn from_parts_accepts_exactly_the_nodes() {
    let ok = NodeData::from_parts(vec![1u64, 2], vec!["a", "b"], None, 5);
    assert!(ok.is_some());
    let node = ok.unwrap();
    assert_eq!(node.capacity(), 5);
    assert_eq!(node.keys(), &vec![1, 2]);
    assert!(node.is_leaf());
    // even capacity, small capacity
    assert!(NodeData::from_parts(vec![1u64], vec!["a"], None, 6).is_none());
    assert!(NodeData::from_parts(vec![1u64], vec!["a"], None, 3).is_none());
    // lengths
    assert!(NodeData::from_parts(vec![1u64, 2], vec!["a"], None, 5).is_none());
    assert!(NodeData::from_parts(vec![1u64, 2, 3, 4, 5, 6], vec!["a"; 6], None, 5).is_none());
    // order and duplicates
    assert!(NodeData::from_parts(vec![2u64, 1], vec!["a", "b"], None, 5).is_none());
    assert!(NodeData::from_parts(vec![1u64, 1], vec!["a", "b"], None, 5).is_none());
    // children
    let two = Some(vec!["x".to_string(), "y".to_string()]);
    assert!(NodeData::from_parts(vec![1u64, 2], vec!["a", "b"], two.clone(), 5).is_none());
    assert!(NodeData::from_parts(vec![1u64], vec!["a"], two, 5).is_some());
    assert!(NodeData::from_parts(Vec::<u64>::new(), Vec::<&str>::new(), Some(vec![]), 5).is_none());
}

#[test]
fn compare_orders_keys() {
    assert_eq!(compare(&1u64, &2u64), KeyOrder::Before);
    assert_eq!(compare(&2u64, &2u64), KeyOrder::Same);
    assert_eq!(compare(&3u64, &2u64), KeyOrder::After);
    assert_eq!(compare(&"a".to_string(), &"b".to_string()), KeyOrder::Before);
}

#[test]
fn node_keeps_name_and_record_together() {
    let mut node: Node<u64, String> = Node::new("first".to_string(), 5);
    assert_eq!(node.name(), "first");
    assert_eq!(node.capacity(), 5);
    assert!(!node.is_full());
    for k in 1..=5u64 {
        assert_eq!(node.insert(k, k.to_string()), None);
    }
    assert!(node.is_full());
    let (key, value, sibling) = node.split("second".to_string());
    assert_eq!((key, value.as_str()), (3, "3"));
    assert_eq!(sibling.name(), "second");
    assert_eq!(sibling.record().keys(), &vec![4, 5]);
    assert_eq!(node.record().keys(), &vec![1, 2]);
    assert_eq!(node.rename("third".to_string()), "first");
    assert_eq!(node.name(), "third");
    assert_eq!(node.record().keys(), &vec![1, 2]);
    let data = node.data();
    assert_eq!(data.keys(), &vec![1, 2]);
}

#[test]
fn parts_make_the_same_node_again() {
    let mut node = leaf(5, &[(10, "a"), (20, "b"), (30, "c")]);
    node.adopt(vec!["w".to_string(), "x".to_string(), "y".to_string(), "z".to_string()]);
    let capacity = node.capacity();
    let (keys, values, children) = node.into_parts();
    assert_eq!(keys, vec![10, 20, 30]);
    assert_eq!(values, vec!["a".to_string(), "b".to_string(), "c".to_string()]);
    assert_eq!(children.as_ref().map(|c| c.len()), Some(4));
    let again = NodeData::from_parts(keys, values, children, capacity).expect("a node");
    assert_eq!(again.keys(), &vec![10, 20, 30]);
    assert_eq!(again.values(), &vec!["a".to_string(), "b".to_string(), "c".to_string()]);
    assert_eq!(
        again.children(),
        Some(&vec!["w".to_string(), "x".to_string(), "y".to_string(), "z".to_string()])
    );
    assert_eq!(again.capacity(), 5);
}
