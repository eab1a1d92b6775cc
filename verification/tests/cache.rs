use btree::cache::{NodeCache, CACHE_LIMIT};
use btree::node::{Node, NodeData};

fn node(name: &str, key: u64) -> Node<u64, u64> {
    let mut data = NodeData::new(5);
    data.insert(key, key * 10);
    Node::new_with_data(name.to_string(), data)
}

fn name(i: usize) -> String {
    format!("n{}", i)
}

#[test]
fn new_cache_is_empty() {
    let cache: NodeCache<u64, u64> = NodeCache::new();
    assert_eq!(cache.len(), 0);
    assert!(!cache.contains(&"a".to_string()));
    assert!(cache.get(&"a".to_string()).is_none());
}

#[test]
fn inserted_node_is_resident() {
    let mut cache: NodeCache<u64, u64> = NodeCache::new();
    assert!(cache.insert(node("a", 1)).is_none());
    assert!(cache.insert(node("b", 2)).is_none());
    assert_eq!(cache.len(), 2);
    assert!(cache.contains(&"a".to_string()));
    assert!(cache.contains(&"b".to_string()));
    assert!(!cache.contains(&"c".to_string()));
    let a = cache.get(&"a".to_string()).unwrap();
    assert_eq!(a.name(), "a");
    assert_eq!(a.record().keys(), &vec![1]);
    let b = cache.get(&"b".to_string()).unwrap();
    assert_eq!(b.record().keys(), &vec![2]);
}

#[test]
fn full_cache_evicts_the_least_recently_used_node() {
    let mut cache: NodeCache<u64, u64> = NodeCache::new();
    for i in 0..CACHE_LIMIT {
        assert!(cache.insert(node(&name(i), i as u64)).is_none());
    }
    assert_eq!(cache.len(), CACHE_LIMIT);
    let evicted = cache.insert(node("extra", 1000)).expect("a node leaves");
    assert_eq!(evicted.name(), &name(0));
    assert_eq!(evicted.record().keys(), &vec![0]);
    assert_eq!(cache.len(), CACHE_LIMIT);
    assert!(!cache.contains(&name(0)));
    assert!(cache.contains(&name(1)));
    assert!(cache.contains(&"extra".to_string()));
    assert_eq!(cache.get(&"extra".to_string()).unwrap().record().keys(), &vec![1000]);
    // every other node is still the one that was put in
    for i in 1..CACHE_LIMIT {
        assert_eq!(cache.get(&name(i)).unwrap().record().keys(), &vec![i as u64]);
    }
}

#[test]
fn touch_saves_a_node_from_eviction() {
    let mut cache: NodeCache<u64, u64> = NodeCache::new();
    for i in 0..CACHE_LIMIT {
        cache.insert(node(&name(i), i as u64));
    }
    assert!(cache.touch(&name(0)));
    assert!(!cache.touch(&"absent".to_string()));
    let evicted = cache.insert(node("extra", 1000)).expect("a node leaves");
    assert_eq!(evicted.name(), &name(1));
    assert!(cache.contains(&name(0)));
    let evicted = cache.insert(node("more", 1001)).expect("a node leaves");
    assert_eq!(evicted.name(), &name(2));
}

#[test]
fn get_does_not_change_the_order_of_use() {
    let mut cache: NodeCache<u64, u64> = NodeCache::new();
    for i in 0..CACHE_LIMIT {
        cache.insert(node(&name(i), i as u64));
    }
    assert!(cache.get(&name(0)).is_some());
    assert!(cache.contains(&name(0)));
    let evicted = cache.insert(node("extra", 1000)).expect("a node leaves");
    assert_eq!(evicted.name(), &name(0));
}

#[test]
fn put_changes_the_named_node_only() {
    let mut cache: NodeCache<u64, u64> = NodeCache::new();
    cache.insert(node("a", 1));
    cache.insert(node("b", 2));
    assert_eq!(cache.put(&"a".to_string(), 5, 50), None);
    assert_eq!(cache.put(&"a".to_string(), 1, 11), Some(10));
    assert_eq!(cache.get(&"a".to_string()).unwrap().record().keys(), &vec![1, 5]);
    assert_eq!(cache.get(&"a".to_string()).unwrap().record().values(), &vec![11, 50]);
    assert_eq!(cache.get(&"b".to_string()).unwrap().record().keys(), &vec![2]);
}

#[test]
fn split_keeps_the_lower_half_resident() {
    let mut cache: NodeCache<u64, u64> = NodeCache::new();
    cache.insert(node("a", 1));
    for k in 2..=5 {
        cache.put(&"a".to_string(), k, k);
    }
    let (key, value, sibling) = cache.split(&"a".to_string(), "s".to_string());
    assert_eq!((key, value), (3, 3));
    assert_eq!(sibling.name(), "s");
    assert_eq!(sibling.record().keys(), &vec![4, 5]);
    assert_eq!(cache.get(&"a".to_string()).unwrap().record().keys(), &vec![1, 2]);
    assert!(!cache.contains(&"s".to_string()));
    assert_eq!(cache.len(), 1);
}

#[test]
fn absorb_enters_key_and_child() {
    let mut cache: NodeCache<u64, u64> = NodeCache::new();
    let mut data: NodeData<u64, u64> = NodeData::new(5);
    data.insert(10, 1);
    data.insert(30, 3);
    data.adopt(vec!["x".to_string(), "y".to_string(), "z".to_string()]);
    cache.insert(Node::new_with_data("p".to_string(), data));
    cache.absorb(&"p".to_string(), 20, 2, "new".to_string());
    let p = cache.get(&"p".to_string()).unwrap().record();
    assert_eq!(p.keys(), &vec![10, 20, 30]);
    assert_eq!(p.values(), &vec![1, 2, 3]);
    assert_eq!(
        p.children(),
        Some(&vec!["x".to_string(), "y".to_string(), "new".to_string(), "z".to_string()])
    );
}
