use vstd::prelude::*;

use crate::cache::{entry_overhead, LruCache};
use crate::mem_size::MemSize;
use crate::model::{
    after_insert, deref_opt, entry_size, evict_to, has_key, key_pos, lemma_evict_keeps_absent, lemma_key_pos,
    lemma_without_key, lookup, promote, without_key,
};

verus! {

/// Storing a value whose entry fits under the ceiling and then reading its
/// key gives back that value, and the read leaves the entry where the
/// insertion put it: at the most recently used end.
pub proof fn lemma_insert_then_get<K: Clone + MemSize, V: MemSize, S>(c: &LruCache<K, V, S>, k: K, v: V)
    requires
        c.wf(),
        entry_size(k.spec_mem_size(), v.spec_mem_size(), entry_overhead()) <= c.ceiling(),
    ensures
        ({
            let size = entry_size(k.spec_mem_size(), v.spec_mem_size(), entry_overhead());
            let s2 = after_insert(c.entries(), k, v, size, c.ceiling());
            &&& lookup(s2, k) == Some(v)
            &&& key_pos(s2, k) == s2.len() - 1
            &&& promote(s2, key_pos(s2, k)) == s2
        }),
{
    let size = entry_size(k.spec_mem_size(), v.spec_mem_size(), entry_overhead());
    let s = c.entries();
    c.lemma_index_bijection();
    lemma_without_key(s, k);
    let t = (c.ceiling() - size) as nat;
    lemma_evict_keeps_absent(without_key(s, k), t, k);
    let s2 = after_insert(s, k, v, size, c.ceiling());
    let last = s2.len() - 1;
    assert(s2[last].0 == k);
    assert(has_key(s2, k));
    let p = key_pos(s2, k);
    if p != last {
        assert(evict_to(without_key(s, k), t)[p].0 == k);
    }
    assert(promote(s2, last) =~= s2);
}

/// Two peeks in a row give the same answer. A peek borrows the cache
/// immutably, so the recency order is the same before and after.
pub proof fn lemma_peek_twice<K: Clone + MemSize, V: MemSize, S>(c: &LruCache<K, V, S>, k: K, r1: Option<&V>, r2: Option<&V>)
    requires
        c.wf(),
        deref_opt(r1) == lookup(c.entries(), k),
        deref_opt(r2) == lookup(c.entries(), k),
    ensures
        deref_opt(r1) == deref_opt(r2),
{
}

/// Touching the key that is already the most recently used leaves the
/// recency order as it was.
pub proof fn lemma_touch_head<K: Clone + MemSize, V: MemSize, S>(c: &LruCache<K, V, S>, k: K)
    requires
        c.wf(),
        c.entries().len() > 0,
        c.entries().last().0 == k,
    ensures
        has_key(c.entries(), k),
        promote(c.entries(), key_pos(c.entries(), k)) == c.entries(),
{
    let s = c.entries();
    c.lemma_index_bijection();
    lemma_key_pos(s, s.len() - 1);
    assert(promote(s, s.len() - 1) =~= s);
}

} // verus!
