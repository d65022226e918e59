use lru_cache::LruCache;
use lru_cache::Node;

#[test]
fn it_works() {
    let node = Node::new("k", "v");
    assert_eq!(node.k, "k");
    assert_eq!(node.v, "v");
}

#[test]
fn it_works3() {
    let mut lru = LruCache::new(3);
    println!("it's ok");
    assert_eq!(lru.put(1, 10), None);
    println!("put 1");
    assert_eq!(lru.put(2, 20), None);
    println!("put 2");
    assert_eq!(lru.put(3, 30), None);
    println!("put 3");
    assert_eq!(lru.get(&1), Some(&10));
    println!("get 1");
}

#[test]
fn new_node_is_detached() {
    let node = Node::new(7u64, 70u64);
    assert_eq!(node.prev, None);
    assert_eq!(node.next, None);
}

#[test]
fn refreshed_key_survives_eviction() {
    let mut lru = LruCache::new(3);
    assert_eq!(lru.put(1, 10), None);
    assert_eq!(lru.put(2, 20), None);
    assert_eq!(lru.put(3, 30), None);
    assert_eq!(lru.get(&1), Some(&10));
    assert_eq!(lru.put(4, 40), None);
    assert_eq!(lru.get(&2), None);
    assert_eq!(lru.get(&1), Some(&10));
    assert_eq!(lru.get(&3), Some(&30));
    assert_eq!(lru.get(&4), Some(&40));
    assert_eq!(lru.len(), 3);
}

#[test]
fn replacing_a_key_returns_old_value() {
    let mut lru = LruCache::new(3);
    assert_eq!(lru.put(1, 10), None);
    assert_eq!(lru.put(1, 20), Some(10));
    assert_eq!(lru.get(&1), Some(&20));
    assert_eq!(lru.len(), 1);
}

#[test]
fn capacity_one_evicts_previous_key() {
    let mut lru = LruCache::new(1);
    assert_eq!(lru.put(1, 10), None);
    assert_eq!(lru.put(2, 20), None);
    assert_eq!(lru.get(&1), None);
    assert_eq!(lru.get(&2), Some(&20));
    assert_eq!(lru.len(), 1);
}

#[test]
fn size_never_exceeds_capacity() {
    let mut lru = LruCache::new(4);
    let mut i: u64 = 0;
    while i < 50 {
        lru.put(i % 7, i);
        if i % 3 == 0 {
            lru.get(&(i % 5));
        }
        assert!(lru.len() <= 4);
        i += 1;
    }
    assert_eq!(lru.len(), 4);
}

#[test]
fn eviction_takes_least_recently_touched() {
    let mut lru = LruCache::new(3);
    lru.put(1, 10);
    lru.put(2, 20);
    lru.put(3, 30);
    assert_eq!(lru.put(1, 11), Some(10));
    assert_eq!(lru.get(&2), Some(&20));
    assert_eq!(lru.put(4, 40), None);
    assert_eq!(lru.get(&3), None);
    assert_eq!(lru.get(&1), Some(&11));
    assert_eq!(lru.get(&2), Some(&20));
    assert_eq!(lru.get(&4), Some(&40));
}

#[test]
fn replacing_in_full_cache_keeps_size_and_evicts_nothing() {
    let mut lru = LruCache::new(2);
    lru.put(1, 10);
    lru.put(2, 20);
    assert_eq!(lru.put(1, 100), Some(10));
    assert_eq!(lru.len(), 2);
    assert_eq!(lru.get(&2), Some(&20));
    assert_eq!(lru.get(&1), Some(&100));
}

#[test]
fn absent_get_changes_nothing() {
    let mut lru = LruCache::new(2);
    lru.put(1, 10);
    lru.put(2, 20);
    assert_eq!(lru.get(&9), None);
    assert_eq!(lru.len(), 2);
    assert_eq!(lru.put(3, 30), None);
    assert_eq!(lru.get(&1), None);
    assert_eq!(lru.get(&2), Some(&20));
}

#[test]
fn put_then_get_round_trip() {
    let mut lru = LruCache::new(2);
    lru.put(5, 50);
    lru.put(6, 60);
    lru.put(7, 70);
    assert_eq!(lru.get(&7), Some(&70));
    lru.put(5, 55);
    assert_eq!(lru.get(&5), Some(&55));
}

#[test]
fn empty_cache_has_no_entries() {
    let mut lru: LruCache<u64, String> = LruCache::new(2);
    assert_eq!(lru.len(), 0);
    assert_eq!(lru.get(&1), None);
}

#[test]
fn values_need_not_be_copy() {
    let mut lru = LruCache::new(2);
    assert_eq!(lru.put("a", String::from("x")), None);
    assert_eq!(lru.put("a", String::from("y")), Some(String::from("x")));
    assert_eq!(lru.get(&"a"), Some(&String::from("y")));
}
