use lru_mem::{equivalent_key, make_hash, make_insert_hash, Entry, LruCache, MemSize};
use std::cell::Cell;
use std::collections::hash_map::RandomState;

fn overhead() -> usize {
    3 * std::mem::size_of::<usize>()
}

fn keys_of(cache: &LruCache<u64, String>) -> Vec<u64> {
    cache.keys().into_iter().copied().collect()
}

fn filled() -> LruCache<u64, String> {
    let mut cache: LruCache<u64, String> = LruCache::new(10_000);
    cache.insert(1, "one".to_string()).ok();
    cache.insert(2, "two".to_string()).ok();
    cache.insert(3, "three".to_string()).ok();
    cache
}

#[test]
fn ledger_is_sum_of_entry_sizes() {
    let cache = filled();
    let expected = (8 + 3 + overhead()) + (8 + 3 + overhead()) + (8 + 5 + overhead());
    assert_eq!(cache.current_size(), expected);
    assert!(cache.current_size() <= cache.max_size());
}

#[test]
fn lookup_agrees_with_recency_list() {
    let cache = filled();
    for k in keys_of(&cache) {
        assert!(cache.contains(&k));
    }
    assert!(!cache.contains(&4));
    assert_eq!(cache.len(), keys_of(&cache).len());
    let values: Vec<String> = cache.values().into_iter().cloned().collect();
    assert_eq!(values, vec!["one".to_string(), "two".to_string(), "three".to_string()]);
}

#[test]
fn emptiness_is_coherent() {
    let mut cache = filled();
    assert!(!cache.is_empty());
    assert!(cache.peek_lru().is_some());
    assert!(cache.peek_mru().is_some());
    cache.clear();
    assert!(cache.is_empty());
    assert_eq!(cache.len(), 0);
    assert_eq!(cache.current_size(), 0);
    assert_eq!(cache.peek_lru(), None);
    assert_eq!(cache.peek_mru(), None);
    assert_eq!(cache.max_size(), 10_000);
}

#[test]
fn insert_then_get_round_trip() {
    let mut cache = filled();
    assert!(matches!(cache.insert(9, "nine".to_string()), Ok(None)));
    assert_eq!(cache.get(&9), Some(&"nine".to_string()));
    assert_eq!(keys_of(&cache), vec![1, 2, 3, 9]);
}

#[test]
fn insert_replaces_existing_key() {
    let mut cache = filled();
    let r = cache.insert(1, "uno".to_string());
    assert!(matches!(r, Ok(Some(ref v)) if v == "one"));
    assert_eq!(keys_of(&cache), vec![2, 3, 1]);
    assert_eq!(cache.len(), 3);
    assert_eq!(cache.peek(&1), Some(&"uno".to_string()));
}

#[test]
fn peek_twice_is_idempotent() {
    let cache = filled();
    let first = cache.peek(&2).cloned();
    let second = cache.peek(&2).cloned();
    assert_eq!(first, second);
    assert_eq!(first, Some("two".to_string()));
    assert_eq!(keys_of(&cache), vec![1, 2, 3]);
    assert_eq!(cache.peek(&8), None);
}

#[test]
fn touch_on_head_is_noop() {
    let mut cache = filled();
    cache.touch(&3);
    assert_eq!(keys_of(&cache), vec![1, 2, 3]);
    cache.touch(&1);
    assert_eq!(keys_of(&cache), vec![2, 3, 1]);
    cache.touch(&42);
    assert_eq!(keys_of(&cache), vec![2, 3, 1]);
}

#[test]
fn remove_of_absent_changes_nothing() {
    let mut cache = filled();
    let size = cache.current_size();
    assert_eq!(cache.remove(&42), None);
    assert_eq!(cache.remove_entry(&42), None);
    assert_eq!(keys_of(&cache), vec![1, 2, 3]);
    assert_eq!(cache.current_size(), size);
}

#[test]
fn remove_present_debits_ledger() {
    let mut cache = filled();
    let size = cache.current_size();
    assert_eq!(cache.remove(&2), Some("two".to_string()));
    assert_eq!(cache.current_size(), size - (8 + 3 + overhead()));
    assert_eq!(cache.remove_entry(&3), Some((3, "three".to_string())));
    assert_eq!(keys_of(&cache), vec![1]);
}

#[test]
fn clone_is_equivalent_and_independent() {
    let mut cache = filled();
    let mut copy = cache.clone();
    assert_eq!(keys_of(&copy), keys_of(&cache));
    assert_eq!(copy.current_size(), cache.current_size());
    assert_eq!(copy.max_size(), cache.max_size());
    copy.insert(4, "four".to_string()).ok();
    copy.mutate(&1, |v: &mut String| v.push('!')).ok();
    assert_eq!(keys_of(&cache), vec![1, 2, 3]);
    assert_eq!(cache.peek(&1), Some(&"one".to_string()));
    cache.remove(&2);
    assert_eq!(keys_of(&copy), vec![2, 3, 4, 1]);
}

#[test]
fn lru_and_mru_ends() {
    let mut cache = filled();
    assert_eq!(cache.peek_lru(), Some((&1, &"one".to_string())));
    assert_eq!(cache.peek_mru(), Some((&3, &"three".to_string())));
    assert_eq!(cache.get_lru(), Some((&1, &"one".to_string())));
    assert_eq!(keys_of(&cache), vec![2, 3, 1]);
    assert_eq!(cache.remove_mru(), Some((1, "one".to_string())));
    assert_eq!(cache.remove_lru(), Some((2, "two".to_string())));
    assert_eq!(keys_of(&cache), vec![3]);
}

#[test]
fn empty_cache_ends_are_absent() {
    let mut cache: LruCache<u64, String> = LruCache::new(100);
    assert_eq!(cache.remove_lru(), None);
    assert_eq!(cache.remove_mru(), None);
    assert_eq!(cache.get_lru(), None);
    assert_eq!(cache.get(&1), None);
    assert!(cache.drain().is_empty());
}

#[test]
fn mutate_on_miss_does_not_call() {
    let mut cache = filled();
    let calls = Cell::new(0u32);
    let r = cache.mutate(&42, |v: &mut String| {
        calls.set(calls.get() + 1);
        v.len()
    });
    assert!(matches!(r, Ok(None)));
    assert_eq!(calls.get(), 0);
    let r = cache.mutate(&2, |v: &mut String| {
        calls.set(calls.get() + 1);
        v.len()
    });
    assert!(matches!(r, Ok(Some(3))));
    assert_eq!(calls.get(), 1);
}

#[test]
fn mutate_shrinking_debits_and_promotes() {
    let mut cache = filled();
    let size = cache.current_size();
    let r = cache.mutate(&1, |v: &mut String| v.truncate(1));
    assert!(r.is_ok());
    assert_eq!(cache.current_size(), size - 2);
    assert_eq!(keys_of(&cache), vec![2, 3, 1]);
    assert_eq!(cache.peek(&1), Some(&"o".to_string()));
}

#[test]
fn mutate_growth_evicts_others() {
    let e = 8 + 1 + overhead();
    let mut cache: LruCache<u64, String> = LruCache::new(3 * e);
    cache.insert(1, "a".to_string()).ok();
    cache.insert(2, "b".to_string()).ok();
    cache.insert(3, "c".to_string()).ok();
    let r = cache.mutate(&3, |v: &mut String| v.push_str("cc"));
    assert!(r.is_ok());
    assert_eq!(keys_of(&cache), vec![2, 3]);
    assert_eq!(cache.current_size(), e + e + 2);
}

#[test]
fn capacity_management_keeps_entries() {
    let mut cache = filled();
    let size = cache.current_size();
    assert!(cache.try_reserve(100).is_ok());
    assert!(cache.capacity() >= 103);
    cache.shrink_to(10);
    assert_eq!(keys_of(&cache), vec![1, 2, 3]);
    cache.shrink_to_fit();
    assert!(cache.capacity() >= 3);
    assert_eq!(keys_of(&cache), vec![1, 2, 3]);
    assert_eq!(cache.current_size(), size);
    assert!(cache.try_reserve(usize::MAX).is_err());
    assert_eq!(keys_of(&cache), vec![1, 2, 3]);
}

#[test]
fn constructors_start_empty() {
    let a: LruCache<u64, String> = LruCache::with_capacity(50, 16);
    assert!(a.is_empty());
    assert!(a.capacity() >= 16);
    assert_eq!(a.max_size(), 50);
    let b: LruCache<u64, String, RandomState> = LruCache::with_hasher(60, RandomState::new());
    assert!(b.is_empty());
    assert_eq!(b.max_size(), 60);
    let c: LruCache<u64, String, RandomState> = LruCache::with_capacity_and_hasher(70, 8, RandomState::new());
    assert!(c.is_empty());
    assert!(c.capacity() >= 8);
    assert_eq!(c.current_size(), 0);
}

#[test]
fn hasher_backed_cache_works() {
    let mut cache: LruCache<u64, String, RandomState> = LruCache::with_hasher(10_000, RandomState::new());
    cache.insert(5, "five".to_string()).ok();
    cache.insert(6, "six".to_string()).ok();
    assert_eq!(cache.get(&5), Some(&"five".to_string()));
    assert_eq!(keys_of_hashed(&cache), vec![6, 5]);
}

fn keys_of_hashed(cache: &LruCache<u64, String, RandomState>) -> Vec<u64> {
    cache.keys().into_iter().copied().collect()
}

#[test]
fn entry_size_counts_key_value_and_overhead() {
    let e = Entry::new(3u64, "hello".to_string());
    assert_eq!(e.size, 8 + 5 + overhead());
    assert_eq!(e.key, 3);
    assert_eq!(e.value, "hello");
    let big = Entry::new(usize::MAX, 1u8);
    assert_eq!(big.size, 8 + 1 + overhead());
}

#[test]
fn string_size_is_utf8_bytes() {
    assert_eq!("héllo".to_string().mem_size(), 6);
    assert_eq!(String::new().mem_size(), 0);
    assert_eq!(7u64.mem_size(), 8);
    assert_eq!('x'.mem_size(), 4);
}

#[test]
fn key_equivalence_and_hashing() {
    let e = Entry::new(11u64, "v".to_string());
    assert!(equivalent_key(&11u64, &e));
    assert!(!equivalent_key(&12u64, &e));
    let s = RandomState::new();
    assert_eq!(make_hash(&s, &11u64), make_insert_hash(&s, &11u64));
    assert_eq!(make_hash(&s, &11u64), make_hash(&s, &11u64));
}

#[test]
fn into_iter_yields_oldest_first() {
    let mut cache = filled();
    cache.get(&2);
    let all: Vec<(u64, String)> = cache.into_iter();
    assert_eq!(
        all,
        vec![(1, "one".to_string()), (3, "three".to_string()), (2, "two".to_string())]
    );
}
