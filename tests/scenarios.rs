use lru_mem::{LruCache, LruError};

fn overhead() -> usize {
    3 * std::mem::size_of::<usize>()
}

/// Size charged for a `u64` key with a string value of `len` bytes.
fn entry_bytes(len: usize) -> usize {
    8 + len + overhead()
}

fn text(len: usize) -> String {
    "x".repeat(len)
}

fn keys_of(cache: &LruCache<u64, String>) -> Vec<u64> {
    cache.keys().into_iter().copied().collect()
}

#[test]
fn eviction_by_size() {
    let e = entry_bytes(80);
    let mut cache: LruCache<u64, String> = LruCache::new(2 * e + e / 2);
    assert!(cache.insert(1, text(80)).is_ok());
    assert!(cache.insert(2, text(80)).is_ok());
    assert!(cache.insert(3, text(80)).is_ok());
    assert_eq!(keys_of(&cache), vec![2, 3]);
    assert!(cache.current_size() <= cache.max_size());
    assert_eq!(cache.current_size(), 2 * e);
    assert!(!cache.contains(&1));
}

#[test]
fn too_large_rejection() {
    let mut cache: LruCache<u64, String> = LruCache::new(100);
    let len = 200 - 8 - overhead();
    let value = text(len);
    match cache.insert(7, value.clone()) {
        Err(LruError::EntryTooLarge { key, value: v, entry_size, max_size }) => {
            assert_eq!(key, 7);
            assert_eq!(v, value);
            assert_eq!(entry_size, 200);
            assert_eq!(max_size, 100);
        },
        Ok(_) => panic!("an entry of 200 bytes was admitted under a ceiling of 100"),
    }
    assert!(cache.is_empty());
    assert_eq!(cache.current_size(), 0);
}

#[test]
fn get_promotes() {
    let mut cache: LruCache<u64, String> = LruCache::new(10_000);
    cache.insert(1, "a".to_string()).ok();
    cache.insert(2, "b".to_string()).ok();
    cache.insert(3, "c".to_string()).ok();
    assert_eq!(cache.get(&1), Some(&"a".to_string()));
    assert_eq!(keys_of(&cache), vec![2, 3, 1]);
    assert_eq!(cache.remove_lru(), Some((2, "b".to_string())));
}

#[test]
fn mutate_grows_within_ceiling() {
    let mut cache: LruCache<u64, String> = LruCache::new(10_000);
    cache.insert(1, "a".to_string()).ok();
    cache.insert(2, "z".to_string()).ok();
    let before = cache.current_size();
    let r = cache.mutate(&1, |v: &mut String| v.push_str("bc"));
    assert!(matches!(r, Ok(Some(()))));
    assert_eq!(cache.peek(&1), Some(&"abc".to_string()));
    assert_eq!(cache.current_size(), before + 2);
    assert_eq!(cache.peek_mru(), Some((&1, &"abc".to_string())));
    let sizes: Vec<usize> = vec![entry_bytes(1), entry_bytes(3)];
    assert_eq!(cache.current_size(), sizes[0] + sizes[1]);
}

#[test]
fn mutate_grows_past_ceiling() {
    let e = entry_bytes(4);
    let mut cache: LruCache<u64, String> = LruCache::new(e + 2);
    cache.insert(5, "abcd".to_string()).ok();
    let r = cache.mutate(&5, |v: &mut String| v.push_str("efgh"));
    match r {
        Err(LruError::EntryTooLarge { key, value, entry_size, max_size }) => {
            assert_eq!(key, 5);
            assert_eq!(value, "abcdefgh".to_string());
            assert_eq!(entry_size, e + 4);
            assert_eq!(max_size, e + 2);
        },
        Ok(_) => panic!("the grown entry was kept"),
    }
    assert!(!cache.contains(&5));
    assert!(cache.is_empty());
    assert_eq!(cache.current_size(), 0);
}

#[test]
fn rehash_preserves_order_and_ledger() {
    let mut cache: LruCache<u64, String> = LruCache::new(100_000);
    for k in 0..8u64 {
        cache.insert(k, text(k as usize + 1)).ok();
    }
    let size = cache.current_size();
    cache.reserve(1000);
    assert!(cache.capacity() >= 1008);
    assert_eq!(keys_of(&cache), vec![0, 1, 2, 3, 4, 5, 6, 7]);
    assert_eq!(cache.current_size(), size);
    assert_eq!(cache.max_size(), 100_000);
}

#[test]
fn set_lower_max_size_evicts() {
    let mut cache: LruCache<u64, String> = LruCache::new(100_000);
    cache.insert(1, text(10)).ok();
    cache.insert(2, text(20)).ok();
    cache.insert(3, text(30)).ok();
    let target = cache.current_size() / 2;
    cache.set_max_size(target);
    assert!(cache.current_size() <= target);
    assert_eq!(cache.max_size(), target);
    assert_eq!(keys_of(&cache), vec![3]);
}

#[test]
fn drain_empties() {
    let mut cache: LruCache<u64, String> = LruCache::new(10_000);
    cache.insert(1, "a".to_string()).ok();
    cache.insert(2, "b".to_string()).ok();
    cache.insert(3, "c".to_string()).ok();
    cache.get(&1);
    let before: Vec<(u64, String)> = cache.iter().into_iter().map(|(k, v)| (*k, v.clone())).collect();
    let drained = cache.drain();
    assert_eq!(drained, before);
    assert!(cache.is_empty());
    assert_eq!(cache.len(), 0);
    assert_eq!(cache.current_size(), 0);
    assert_eq!(cache.peek_lru(), None);
    assert_eq!(cache.peek_mru(), None);
}

fn string_keys(cache: &LruCache<String, String>) -> Vec<String> {
    cache.keys().into_iter().cloned().collect()
}

fn s(text: &str) -> String {
    text.to_owned()
}

#[test]
fn get_promotes_with_string_keys() {
    let mut c: LruCache<String, String> = LruCache::new(1024);
    assert!(matches!(c.insert(s("A"), s("a")), Ok(None)));
    assert!(matches!(c.insert(s("B"), s("b")), Ok(None)));
    assert!(matches!(c.insert(s("C"), s("c")), Ok(None)));
    assert_eq!(c.get(&s("A")), Some(&s("a")));
    assert_eq!(string_keys(&c), vec![s("B"), s("C"), s("A")]);
    assert_eq!(c.remove_lru(), Some((s("B"), s("b"))));
    assert_eq!(string_keys(&c), vec![s("C"), s("A")]);
    assert_eq!(c.len(), 2);
}

#[test]
fn mutate_with_string_keys() {
    let mut c: LruCache<String, String> = LruCache::new(1024);
    assert!(matches!(c.insert(s("k"), s("a")), Ok(None)));
    let before = c.current_size();
    let r = c.mutate(&s("k"), |v: &mut String| v.push_str("bc"));
    assert!(matches!(r, Ok(Some(()))));
    assert_eq!(c.peek(&s("k")), Some(&s("abc")));
    assert_eq!(c.len(), 1);
    assert_eq!(c.current_size(), before + 2);
}

#[test]
fn reserve_keeps_order_with_string_keys() {
    let mut c: LruCache<String, String> = LruCache::new(65536);
    let names = ["A", "B", "C", "D", "E", "F", "G", "H"];
    for n in names.iter() {
        assert!(matches!(c.insert(s(n), n.to_lowercase()), Ok(None)));
    }
    let size = c.current_size();
    c.reserve(1000);
    assert_eq!(string_keys(&c), names.iter().map(|n| s(n)).collect::<Vec<String>>());
    let values: Vec<String> = c.values().into_iter().cloned().collect();
    assert_eq!(values, names.iter().map(|n| n.to_lowercase()).collect::<Vec<String>>());
    assert!(c.capacity() >= 1008);
    assert_eq!(c.current_size(), size);
}
