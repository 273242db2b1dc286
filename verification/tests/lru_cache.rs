use rustc_utils::lru_cache::LruCache;

fn assert_opt_eq<V: PartialEq>(opt: Option<&V>, v: V) {
    assert!(opt.is_some());
    assert!(opt.unwrap() == &v);
}

/// The cache's pairs from the most to the least recently used, in braces.
fn render(cache: &LruCache<isize, isize>) -> String {
    let parts: Vec<String> = cache.entries().iter().map(|(k, v)| format!("{}: {}", k, v)).collect();
    format!("{{{}}}", parts.join(", "))
}

#[test]
fn test_put_and_get() {
    let mut cache: LruCache<isize, isize> = LruCache::new(2);
    cache.put(1, 10);
    cache.put(2, 20);
    assert_opt_eq(cache.get(&1), 10);
    assert_opt_eq(cache.get(&2), 20);
    assert_eq!(cache.len(), 2);
}

#[test]
fn test_put_update() {
    let mut cache: LruCache<String, Vec<u8>> = LruCache::new(1);
    cache.put("1".to_string(), vec![10, 10]);
    cache.put("1".to_string(), vec![10, 19]);
    assert_opt_eq(cache.get(&"1".to_string()), vec![10, 19]);
    assert_eq!(cache.len(), 1);
}

#[test]
fn test_expire_lru() {
    let mut cache: LruCache<String, String> = LruCache::new(2);
    cache.put("foo1".to_string(), "bar1".to_string());
    cache.put("foo2".to_string(), "bar2".to_string());
    cache.put("foo3".to_string(), "bar3".to_string());
    assert!(cache.get(&"foo1".to_string()).is_none());
    cache.put("foo2".to_string(), "bar2update".to_string());
    cache.put("foo4".to_string(), "bar4".to_string());
    assert!(cache.get(&"foo3".to_string()).is_none());
}

#[test]
fn test_pop() {
    let mut cache: LruCache<isize, isize> = LruCache::new(2);
    cache.put(1, 10);
    cache.put(2, 20);
    assert_eq!(cache.len(), 2);
    let opt1 = cache.pop(&1);
    assert!(opt1.is_some());
    assert_eq!(opt1.unwrap(), 10);
    assert!(cache.get(&1).is_none());
    assert_eq!(cache.len(), 1);
}

#[test]
fn test_change_capacity() {
    let mut cache: LruCache<isize, isize> = LruCache::new(2);
    assert_eq!(cache.capacity(), 2);
    cache.put(1, 10);
    cache.put(2, 20);
    cache.change_capacity(1);
    assert!(cache.get(&1).is_none());
    assert_eq!(cache.capacity(), 1);
}

#[test]
fn test_to_str() {
    let mut cache: LruCache<isize, isize> = LruCache::new(3);
    cache.put(1, 10);
    cache.put(2, 20);
    cache.put(3, 30);
    assert_eq!(render(&cache), "{3: 30, 2: 20, 1: 10}".to_owned());
    cache.put(2, 22);
    assert_eq!(render(&cache), "{2: 22, 3: 30, 1: 10}".to_owned());
    cache.put(6, 60);
    assert_eq!(render(&cache), "{6: 60, 2: 22, 3: 30}".to_owned());
    cache.get(&3);
    assert_eq!(render(&cache), "{3: 30, 6: 60, 2: 22}".to_owned());
    cache.change_capacity(2);
    assert_eq!(render(&cache), "{3: 30, 6: 60}".to_owned());
}

#[test]
fn test_clear() {
    let mut cache: LruCache<isize, isize> = LruCache::new(2);
    cache.put(1, 10);
    cache.put(2, 20);
    cache.clear();
    assert!(cache.get(&1).is_none());
    assert!(cache.get(&2).is_none());
    assert_eq!(render(&cache), "{}".to_owned());
}

#[test]
fn zero_capacity_cache_keeps_nothing() {
    let mut cache: LruCache<u64, u64> = LruCache::new(0);
    cache.put(1, 10);
    assert_eq!(cache.len(), 0);
    assert!(cache.get(&1).is_none());
}

#[test]
fn get_after_put_and_eviction_of_least_recent() {
    let mut cache: LruCache<u64, u64> = LruCache::new(2);
    cache.put(1, 10);
    cache.put(2, 20);
    // 1 becomes the most recently used, so 2 is evicted next.
    assert_eq!(cache.get(&1), Some(&10));
    cache.put(3, 30);
    assert!(cache.get(&2).is_none());
    assert_eq!(cache.get(&1), Some(&10));
    assert_eq!(cache.get(&3), Some(&30));
    assert_eq!(cache.pop(&3), Some(30));
    assert_eq!(cache.pop(&3), None);
    assert_eq!(cache.entries(), &vec![(1, 10)]);
}

#[test]
fn growing_capacity_keeps_pairs() {
    let mut cache: LruCache<u64, u64> = LruCache::new(1);
    cache.put(1, 10);
    cache.change_capacity(3);
    cache.put(2, 20);
    cache.put(3, 30);
    assert_eq!(cache.entries(), &vec![(3, 30), (2, 20), (1, 10)]);
    cache.change_capacity(0);
    assert_eq!(cache.len(), 0);
}
