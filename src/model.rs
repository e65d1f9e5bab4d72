use vstd::prelude::*;

verus! {

/// Total of the recorded sizes of a sequence of `(key, value, size)` records.
pub open spec fn size_sum<K, V>(s: Seq<(K, V, usize)>) -> nat
    decreases s.len(),
{
    if s.len() == 0 {
        0
    } else {
        s[0].2 as nat + size_sum(s.drop_first())
    }
}

/// Whether some record of `s` carries the key `k`.
pub open spec fn has_key<K, V>(s: Seq<(K, V, usize)>, k: K) -> bool {
    exists|i: int| 0 <= i < s.len() && s[i].0 == k
}

/// The position of the record that carries `k` (meaningful when `has_key`).
pub open spec fn key_pos<K, V>(s: Seq<(K, V, usize)>, k: K) -> int {
    choose|i: int| 0 <= i < s.len() && s[i].0 == k
}

/// The value recorded under `k`, if any.
pub open spec fn lookup<K, V>(s: Seq<(K, V, usize)>, k: K) -> Option<V> {
    if has_key(s, k) {
        Some(s[key_pos(s, k)].1)
    } else {
        None
    }
}

/// The value behind an optional reference.
pub open spec fn deref_opt<V>(r: Option<&V>) -> Option<V> {
    match r {
        Some(v) => Some(*v),
        None => None,
    }
}

/// No two records carry the same key.
pub open spec fn unique_keys<K, V>(s: Seq<(K, V, usize)>) -> bool {
    forall|i: int, j: int|
        0 <= i < s.len() && 0 <= j < s.len() && #[trigger] s[i].0 == #[trigger] s[j].0 ==> i == j
}

/// The record at position `i` moved to the most recently used end.
pub open spec fn promote<E>(s: Seq<E>, i: int) -> Seq<E> {
    s.remove(i).push(s[i])
}

/// What is left after dropping records from the least recently used end
/// until the total size is at most `target`.
pub open spec fn evict_to<K, V>(s: Seq<(K, V, usize)>, target: nat) -> Seq<(K, V, usize)>
    decreases s.len(),
{
    if s.len() == 0 || size_sum(s) <= target {
        s
    } else {
        evict_to(s.drop_first(), target)
    }
}

/// The records of `s` without the one for `k`, if there is one.
pub open spec fn without_key<K, V>(s: Seq<(K, V, usize)>, k: K) -> Seq<(K, V, usize)> {
    if has_key(s, k) {
        s.remove(key_pos(s, k))
    } else {
        s
    }
}

/// The records after `k` is stored with value `v` and size `size` in a
/// cache with ceiling `ceiling`: any old record for `k` goes, least recently
/// used records are dropped until the new one fits, and it becomes the most
/// recently used.
pub open spec fn after_insert<K, V>(s: Seq<(K, V, usize)>, k: K, v: V, size: usize, ceiling: usize) -> Seq<(K, V, usize)> {
    evict_to(without_key(s, k), (ceiling - size) as nat).push((k, v, size))
}

/// The key and value of each record, in the same order.
pub open spec fn pairs<K, V>(s: Seq<(K, V, usize)>) -> Seq<(K, V)> {
    s.map_values(|e: (K, V, usize)| (e.0, e.1))
}

/// The keys of the records, in the same order.
pub open spec fn keys_in<K, V>(s: Seq<(K, V, usize)>) -> Seq<K> {
    s.map_values(|e: (K, V, usize)| e.0)
}

/// The size charged for an entry: key, value and bookkeeping, saturating at
/// the largest `usize`.
pub open spec fn entry_size(key_size: usize, value_size: usize, overhead: usize) -> usize {
    if key_size + value_size + overhead <= usize::MAX {
        (key_size + value_size + overhead) as usize
    } else {
        usize::MAX
    }
}

pub proof fn lemma_size_sum_push<K, V>(s: Seq<(K, V, usize)>, x: (K, V, usize))
    ensures
        size_sum(s.push(x)) == size_sum(s) + x.2,
    decreases s.len(),
{
    if s.len() > 0 {
        assert(s.push(x).drop_first() =~= s.drop_first().push(x));
        lemma_size_sum_push(s.drop_first(), x);
        assert(s.push(x)[0] == s[0]);
    } else {
        assert(s.push(x).drop_first() =~= Seq::<(K, V, usize)>::empty());
        assert(size_sum(Seq::<(K, V, usize)>::empty()) == 0);
    }
}

pub proof fn lemma_size_sum_remove<K, V>(s: Seq<(K, V, usize)>, i: int)
    requires
        0 <= i < s.len(),
    ensures
        size_sum(s.remove(i)) + s[i].2 == size_sum(s),
    decreases s.len(),
{
    if i == 0 {
        assert(s.remove(0) =~= s.drop_first());
    } else {
        assert(s.remove(i).drop_first() =~= s.drop_first().remove(i - 1));
        lemma_size_sum_remove(s.drop_first(), i - 1);
    }
}

pub proof fn lemma_size_sum_promote<K, V>(s: Seq<(K, V, usize)>, i: int)
    requires
        0 <= i < s.len(),
    ensures
        size_sum(promote(s, i)) == size_sum(s),
{
    lemma_size_sum_remove(s, i);
    lemma_size_sum_push(s.remove(i), s[i]);
}

/// Eviction leaves a suffix of the records whose total is within the target.
pub proof fn lemma_evict_suffix<K, V>(s: Seq<(K, V, usize)>, target: nat)
    ensures
        size_sum(evict_to(s, target)) <= target,
        exists|d: int| 0 <= d <= s.len() && evict_to(s, target) == s.subrange(d, s.len() as int),
    decreases s.len(),
{
    if s.len() == 0 || size_sum(s) <= target {
        assert(s.subrange(0, s.len() as int) =~= s);
    } else {
        lemma_evict_suffix(s.drop_first(), target);
        let t = s.drop_first();
        let d = choose|d: int| 0 <= d <= t.len() && evict_to(t, target) == t.subrange(d, t.len() as int);
        assert(t.subrange(d, t.len() as int) =~= s.subrange(d + 1, s.len() as int));
    }
}

/// When keys are unique, the record found by key is the one at that position.
pub proof fn lemma_key_pos<K, V>(s: Seq<(K, V, usize)>, i: int)
    requires
        unique_keys(s),
        0 <= i < s.len(),
    ensures
        has_key(s, s[i].0),
        key_pos(s, s[i].0) == i,
{
    let k = s[i].0;
    assert(has_key(s, k));
    let p = key_pos(s, k);
    assert(s[p].0 == s[i].0);
}

/// Two sequences with the same sizes, position by position, have the same
/// total.
pub proof fn lemma_size_sum_same_sizes<K, V>(a: Seq<(K, V, usize)>, b: Seq<(K, V, usize)>)
    requires
        a.len() == b.len(),
        forall|i: int| 0 <= i < a.len() ==> #[trigger] a[i].2 == b[i].2,
    ensures
        size_sum(a) == size_sum(b),
    decreases a.len(),
{
    if a.len() > 0 {
        assert(a[0].2 == b[0].2);
        lemma_size_sum_same_sizes(a.drop_first(), b.drop_first());
    }
}

/// A key absent from a sequence stays absent from what eviction leaves.
pub proof fn lemma_evict_keeps_absent<K, V>(s: Seq<(K, V, usize)>, target: nat, k: K)
    requires
        !has_key(s, k),
    ensures
        !has_key(evict_to(s, target), k),
{
    lemma_evict_suffix(s, target);
    let d = choose|d: int| 0 <= d <= s.len() && evict_to(s, target) == s.subrange(d, s.len() as int);
    let t = evict_to(s, target);
    if has_key(t, k) {
        let q = choose|q: int| 0 <= q < t.len() && t[q].0 == k;
        assert(s[q + d].0 == k);
    }
}

/// Once the record for `k` is taken out, no record for `k` is left.
pub proof fn lemma_without_key<K, V>(s: Seq<(K, V, usize)>, k: K)
    requires
        unique_keys(s),
    ensures
        !has_key(without_key(s, k), k),
{
    let w = without_key(s, k);
    if has_key(s, k) && has_key(w, k) {
        let p = key_pos(s, k);
        let q = choose|q: int| 0 <= q < w.len() && w[q].0 == k;
        if q < p {
            assert(s[q].0 == s[p].0);
        } else {
            assert(s[q + 1].0 == s[p].0);
        }
    }
}

/// Moving one element to the end keeps the same elements.
pub proof fn lemma_promote_contains<E>(o: Seq<E>, i: int)
    requires
        0 <= i < o.len(),
    ensures
        forall|x: E| o.contains(x) <==> #[trigger] promote(o, i).contains(x),
        promote(o, i).len() == o.len(),
{
    let p = promote(o, i);
    assert forall|x: E| o.contains(x) implies #[trigger] p.contains(x) by {
        let idx = choose|idx: int| 0 <= idx < o.len() && o[idx] == x;
        if idx < i {
            assert(p[idx] == x);
        } else if idx == i {
            assert(p[o.len() - 1] == x);
        } else {
            assert(p[idx - 1] == x);
        }
    }
    assert forall|x: E| #[trigger] p.contains(x) implies o.contains(x) by {
        let idx = choose|idx: int| 0 <= idx < p.len() && p[idx] == x;
        if idx < i {
            assert(o[idx] == x);
        } else if idx == o.len() - 1 {
            assert(o[i] == x);
        } else {
            assert(o[idx + 1] == x);
        }
    }
}

} // verus!
