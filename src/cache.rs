use vstd::prelude::*;

use crate::error::{LruError, LruResult};
use crate::mem_size::MemSize;
use crate::model::{
    after_insert, deref_opt, entry_size, evict_to, has_key, key_pos, keys_in, lemma_evict_keeps_absent,
    lemma_evict_suffix, lemma_key_pos, lemma_promote_contains, lemma_size_sum_promote, lemma_size_sum_push,
    lemma_size_sum_remove, lemma_size_sum_same_sizes, lemma_without_key, lookup, pairs, promote, size_sum,
    unique_keys, without_key,
};
use std::collections::hash_map::RandomState;
use std::collections::HashMap;
use std::collections::TryReserveError;
use std::hash::BuildHasher;
use std::hash::Hash;
use vstd::std_specs::cmp::PartialEqSpec;
use vstd::std_specs::hash::builds_valid_hashers;
use vstd::std_specs::hash::obeys_key_model;

verus! {

broadcast use vstd::std_specs::hash::group_hash_axioms;

/// Neighbours of an entry in the recency list, as slot numbers: `newer` is
/// the entry used just after it (toward the head), `older` the one used just
/// before it (toward the tail).
#[derive(Clone, Copy)]
pub struct Link {
    pub newer: Option<usize>,
    pub older: Option<usize>,
}

/// A cached record: key, value and the size charged for it.
pub struct Entry<K, V> {
    pub size: usize,
    pub key: K,
    pub value: V,
}

/// The size charged per entry for its bookkeeping: two neighbour links and
/// a size counter, one machine word each.
pub open spec fn entry_overhead() -> usize {
    (3 * vstd::layout::size_of::<usize>()) as usize
}

/// The bookkeeping overhead as a number.
fn overhead_bytes() -> (r: usize)
    ensures
        r == entry_overhead(),
        r > 0,
{
    proof {
        broadcast use vstd::layout::layout_of_primitives;
    }
    core::mem::size_of::<usize>() * 3
}

/// Every record's size is what the estimator gives for its key and value
/// plus the bookkeeping overhead.
pub open spec fn sizes_measured<K: MemSize, V: MemSize>(s: Seq<(K, V, usize)>) -> bool {
    forall|i: int|
        0 <= i < s.len() ==> (#[trigger] s[i]).2 == entry_size(
            s[i].0.spec_mem_size(),
            s[i].1.spec_mem_size(),
            entry_overhead(),
        )
}

proof fn lemma_measured_remove<K: MemSize, V: MemSize>(s: Seq<(K, V, usize)>, i: int)
    requires
        sizes_measured(s),
        0 <= i < s.len(),
    ensures
        sizes_measured(s.remove(i)),
{
    let t = s.remove(i);
    assert forall|m: int| 0 <= m < t.len() implies (#[trigger] t[m]).2 == entry_size(
        t[m].0.spec_mem_size(),
        t[m].1.spec_mem_size(),
        entry_overhead(),
    ) by {
        if m < i {
            assert(t[m] == s[m]);
        } else {
            assert(t[m] == s[m + 1]);
        }
    }
}

proof fn lemma_measured_push<K: MemSize, V: MemSize>(s: Seq<(K, V, usize)>, x: (K, V, usize))
    requires
        sizes_measured(s),
        x.2 == entry_size(x.0.spec_mem_size(), x.1.spec_mem_size(), entry_overhead()),
    ensures
        sizes_measured(s.push(x)),
{
    let t = s.push(x);
    assert forall|m: int| 0 <= m < t.len() implies (#[trigger] t[m]).2 == entry_size(
        t[m].0.spec_mem_size(),
        t[m].1.spec_mem_size(),
        entry_overhead(),
    ) by {
        if m < s.len() {
            assert(t[m] == s[m]);
        }
    }
}

/// A charged entry size is never below the overhead, which is positive.
pub proof fn lemma_entry_size_positive(key_size: usize, value_size: usize)
    ensures
        entry_size(key_size, value_size, entry_overhead()) >= entry_overhead(),
        entry_overhead() > 0,
{
    broadcast use vstd::layout::layout_of_primitives;

}

impl<K: MemSize, V: MemSize> Entry<K, V> {
    /// An entry for `key` and `value`, measured: the estimated sizes of key
    /// and value plus the bookkeeping overhead, saturating at `usize::MAX`.
    pub fn new(key: K, value: V) -> (r: Entry<K, V>)
        ensures
            r.key == key,
            r.value == value,
            r.size == entry_size(key.spec_mem_size(), value.spec_mem_size(), entry_overhead()),
    {
        let key_size = key.mem_size();
        let value_size = value.mem_size();
        let meta_size = overhead_bytes();
        let size = key_size.saturating_add(value_size).saturating_add(meta_size);
        Entry { size, key, value }
    }
}

/// Cloning a key gives a key equal to it.
pub open spec fn clone_is_exact<K: Clone>() -> bool {
    forall|a: K, b: K| #[trigger] vstd::pervasive::strictly_cloned(a, b) ==> a == b
}

/// The links of a list with the slot numbers `o`, oldest first, agree with
/// `o`, and the head and tail name its two ends.
pub open spec fn list_ok(links: Seq<Link>, o: Seq<usize>, head: Option<usize>, tail: Option<usize>) -> bool {
    &&& o.no_duplicates()
    &&& forall|i: int| 0 <= i < o.len() ==> (#[trigger] o[i] as int) < links.len()
    &&& forall|i: int|
        #![trigger links[o[i] as int]]
        0 <= i < o.len() ==> links[o[i] as int].older == (if i == 0 {
            None
        } else {
            Some(o[i - 1])
        })
    &&& forall|i: int|
        #![trigger links[o[i] as int]]
        0 <= i < o.len() ==> links[o[i] as int].newer == (if i == o.len() - 1 {
            None
        } else {
            Some(o[i + 1])
        })
    &&& tail == (if o.len() == 0 {
        None
    } else {
        Some(o[0])
    })
    &&& head == (if o.len() == 0 {
        None
    } else {
        Some(o.last())
    })
}

/// A least-recently-used cache bounded by the total estimated size of its
/// entries.
///
/// Entries live in slots of an arena; the recency list threads the occupied
/// slots by slot number, and the lookup table maps each key to its slot.
/// Slot numbers stay valid when the table grows or shrinks, so resizing it
/// never touches the list. The table is std's `HashMap`, whose behaviour
/// vstd specifies for keys that follow its key model.
#[verifier::reject_recursive_types(K)]
#[verifier::reject_recursive_types(S)]
pub struct LruCache<K, V, S = RandomState> {
    table: HashMap<K, usize, S>,
    slots: Vec<Option<Entry<K, V>>>,
    links: Vec<Link>,
    free: Vec<usize>,
    head: Option<usize>,
    tail: Option<usize>,
    current_size: usize,
    max_size: usize,
    order: Ghost<Seq<usize>>,
}

impl<K: Clone + MemSize, V: MemSize, S> LruCache<K, V, S> {
    spec fn rec_at(&self, j: usize) -> (K, V, usize) {
        let e = self.slots@[j as int]->Some_0;
        (e.key, e.value, e.size)
    }

    /// The entries from least to most recently used, each as
    /// `(key, value, size)`.
    pub closed spec fn entries(&self) -> Seq<(K, V, usize)> {
        self.order@.map_values(|j: usize| self.rec_at(j))
    }

    /// The configured ceiling on the total size.
    pub closed spec fn ceiling(&self) -> usize {
        self.max_size
    }

    /// The recorded total size of the live entries.
    pub closed spec fn ledger(&self) -> usize {
        self.current_size
    }

    /// The keys the lookup table holds.
    pub closed spec fn table_keys(&self) -> Set<K> {
        self.table@.dom()
    }

    /// The recency list is well formed: acyclic, the head has no newer
    /// neighbour, the tail no older one, and each link is mirrored by its
    /// neighbour's.
    pub closed spec fn list_well_formed(&self) -> bool {
        list_ok(self.links@, self.order@, self.head, self.tail)
    }

    /// Whether the recency list has no head (most recently used end).
    pub closed spec fn head_absent(&self) -> bool {
        self.head is None
    }

    /// Whether the recency list has no tail (least recently used end).
    pub closed spec fn tail_absent(&self) -> bool {
        self.tail is None
    }

    spec fn store_ok(&self) -> bool {
        let o = self.order@;
        let n = self.slots@.len();
        &&& self.links@.len() == n
        &&& forall|i: int| 0 <= i < o.len() ==> (#[trigger] o[i] as int) < n && self.slots@[o[i] as int] is Some
        &&& forall|j: usize| (j as int) < n && (#[trigger] self.slots@[j as int]) is Some ==> o.contains(j)
        &&& self.free@.no_duplicates()
        &&& forall|i: int|
            0 <= i < self.free@.len() ==> (#[trigger] self.free@[i] as int) < n && self.slots@[self.free@[i] as int] is None
        &&& forall|i: int|
            #![trigger o[i]]
            0 <= i < o.len() ==> self.table@.contains_key(self.rec_at(o[i]).0) && self.table@[self.rec_at(o[i]).0] == o[i]
        &&& forall|k: K|
            #[trigger] self.table@.contains_key(k) ==> {
                let j = self.table@[k];
                &&& (j as int) < n
                &&& self.slots@[j as int] is Some
                &&& self.rec_at(j).0 == k
            }
    }

    /// The invariant of the cache.
    pub closed spec fn wf(&self) -> bool {
        &&& obeys_key_model::<K>()
        &&& clone_is_exact::<K>()
        &&& builds_valid_hashers::<S>()
        &&& self.list_well_formed()
        &&& self.store_ok()
        &&& self.table@.dom().finite()
        &&& self.table@.len() == self.order@.len()
        &&& self.current_size as nat == size_sum(self.entries())
        &&& self.current_size <= self.max_size
        &&& sizes_measured(self.entries())
    }

    /// Unlinks the entry in slot `j`, which stands at position `i` of the
    /// recency list. Only the links, the ends and the list itself change.
    fn unhinge(&mut self, j: usize, Ghost(i): Ghost<int>)
        requires
            list_ok(old(self).links@, old(self).order@, old(self).head, old(self).tail),
            0 <= i < old(self).order@.len(),
            old(self).order@[i] == j,
        ensures
            list_ok(final(self).links@, final(self).order@, final(self).head, final(self).tail),
            final(self).order@ == old(self).order@.remove(i),
            final(self).links@.len() == old(self).links@.len(),
            final(self).slots == old(self).slots,
            final(self).table == old(self).table,
            final(self).free == old(self).free,
            final(self).current_size == old(self).current_size,
            final(self).max_size == old(self).max_size,
    {
        let ghost o = self.order@;
        let ghost links0 = self.links@;
        let l = self.links[j];
        proof {
            assert(links0[o[i] as int] == l);
        }
        match l.newer {
            Some(nw) => {
                proof {
                    assert(o[i + 1] == nw);
                }
                let mut x = self.links[nw];
                x.older = l.older;
                self.links[nw] = x;
            },
            None => {
                self.head = l.older;
            },
        }
        match l.older {
            Some(od) => {
                proof {
                    assert(o[i - 1] == od);
                }
                let mut x = self.links[od];
                x.newer = l.newer;
                self.links[od] = x;
            },
            None => {
                self.tail = l.newer;
            },
        }
        self.order = Ghost(o.remove(i));
        proof {
            let o2 = self.order@;
            let ls = self.links@;
            assert forall|m: int| 0 <= m < o2.len() implies #[trigger] ls[o2[m] as int]
                == (if m < i - 1 || m > i {
                links0[o2[m] as int]
            } else if m == i - 1 {
                Link { newer: l.newer, older: links0[o[i - 1] as int].older }
            } else {
                Link { newer: links0[o[i + 1] as int].newer, older: l.older }
            }) by {
                if m < i {
                    assert(o2[m] == o[m]);
                } else {
                    assert(o2[m] == o[m + 1]);
                }
                if m != i - 1 && i > 0 {
                    assert(o2[m] != o[i - 1]);
                }
                if m != i && i + 1 < o.len() {
                    assert(o2[m] != o[i + 1]);
                }
            }
            assert(o2.no_duplicates());
            if o2.len() > 0 {
                if i == 0 {
                    assert(o2[0] == o[1]);
                }
                if i == o.len() - 1 {
                    assert(o2.last() == o[i - 1]);
                } else {
                    assert(o2.last() == o.last());
                }
            }
        }
    }

    /// Splices the entry in slot `j`, which is not in the recency list, in as
    /// the most recently used.
    fn set_head(&mut self, j: usize)
        requires
            list_ok(old(self).links@, old(self).order@, old(self).head, old(self).tail),
            !old(self).order@.contains(j),
            (j as int) < old(self).links@.len(),
        ensures
            list_ok(final(self).links@, final(self).order@, final(self).head, final(self).tail),
            final(self).order@ == old(self).order@.push(j),
            final(self).links@.len() == old(self).links@.len(),
            final(self).slots == old(self).slots,
            final(self).table == old(self).table,
            final(self).free == old(self).free,
            final(self).current_size == old(self).current_size,
            final(self).max_size == old(self).max_size,
    {
        let ghost o = self.order@;
        let ghost links0 = self.links@;
        let h = self.head;
        match h {
            Some(hh) => {
                let mut x = self.links[hh];
                x.newer = Some(j);
                self.links[hh] = x;
            },
            None => {
                self.tail = Some(j);
            },
        }
        self.links[j] = Link { newer: None, older: h };
        self.head = Some(j);
        self.order = Ghost(o.push(j));
        proof {
            let o2 = self.order@;
            let ls = self.links@;
            assert forall|m: int| 0 <= m < o.len() - 1 implies #[trigger] ls[o2[m] as int] == links0[o[m] as int] by {
                assert(o2[m] == o[m]);
                assert(o[m] != o.last());
            }
            assert(o2.no_duplicates()) by {
                assert forall|a: int, b: int| 0 <= a < b < o2.len() implies o2[a] != o2[b] by {
                    if b == o.len() {
                        assert(o.contains(o[a]));
                    }
                }
            }
            if o.len() > 0 {
                assert(o2[o.len() - 1] == o.last());
                assert(o2[0] == o[0]);
            }
        }
    }

    /// The recorded total size is the sum of the sizes of the live entries,
    /// it never exceeds the ceiling, and each entry is charged the estimated
    /// size of its key and value plus the bookkeeping overhead.
    pub proof fn lemma_ledger(&self)
        requires
            self.wf(),
        ensures
            self.ledger() as nat == size_sum(self.entries()),
            self.ledger() <= self.ceiling(),
            sizes_measured(self.entries()),
    {
    }

    /// The keys in the lookup table are exactly the keys met when walking the
    /// recency list, and each of those keys is met once.
    pub proof fn lemma_index_bijection(&self)
        requires
            self.wf(),
        ensures
            self.table_keys() == keys_in(self.entries()).to_set(),
            unique_keys(self.entries()),
    {
        self.lemma_wf_unique();
        let s = self.entries();
        let o = self.order@;
        assert forall|k: K| self.table_keys().contains(k) <==> keys_in(s).to_set().contains(k) by {
            if self.table_keys().contains(k) {
                let j = self.table@[k];
                assert(o.contains(j));
                let q = choose|q: int| 0 <= q < o.len() && o[q] == j;
                assert(keys_in(s)[q] == k);
                assert(keys_in(s).contains(k));
            }
            if keys_in(s).to_set().contains(k) {
                assert(keys_in(s).contains(k));
                let q = choose|q: int| 0 <= q < keys_in(s).len() && keys_in(s)[q] == k;
                assert(self.table@.contains_key(self.rec_at(o[q]).0));
            }
        }
        assert(self.table_keys() =~= keys_in(s).to_set());
    }

    /// The recency list is well formed after every operation.
    pub proof fn lemma_list_well_formed(&self)
        requires
            self.wf(),
        ensures
            self.list_well_formed(),
    {
    }

    /// An empty cache is one with no head, one with no tail, and one whose
    /// total size is zero.
    pub proof fn lemma_emptiness(&self)
        requires
            self.wf(),
        ensures
            (self.entries().len() == 0) == self.head_absent(),
            (self.entries().len() == 0) == self.tail_absent(),
            (self.entries().len() == 0) == (self.ledger() == 0),
    {
        let s = self.entries();
        if s.len() > 0 {
            lemma_entry_size_positive(s[0].0.spec_mem_size(), s[0].1.spec_mem_size());
            assert(s[0].2 > 0);
        } else {
            assert(size_sum(s) == 0);
        }
    }

    proof fn lemma_wf_unique(&self)
        requires
            self.wf(),
        ensures
            unique_keys(self.entries()),
            forall|i: int| 0 <= i < self.entries().len() ==> #[trigger] self.entries()[i] == self.rec_at(self.order@[i]),
    {
        let s = self.entries();
        let o = self.order@;
        assert forall|i: int, j: int|
            0 <= i < s.len() && 0 <= j < s.len() && #[trigger] s[i].0 == #[trigger] s[j].0 implies i == j by {
            assert(self.table@[self.rec_at(o[i]).0] == o[i]);
            assert(self.table@[self.rec_at(o[j]).0] == o[j]);
        }
    }
}

/// The view of a lookup table with no key.
pub open spec fn empty_table<K>() -> Map<K, usize> {
    Map::empty()
}

/// Relies on `HashMap::with_hasher`: the map it creates is empty.
#[verifier::external_body]
fn table_with_hasher<K, S>(hash_builder: S) -> (r: HashMap<K, usize, S>)
    ensures
        r@ == empty_table::<K>(),
{
    HashMap::with_hasher(hash_builder)
}

/// Relies on `HashMap::with_capacity_and_hasher`: the map it creates is empty.
#[verifier::external_body]
fn table_with_capacity_and_hasher<K, S>(capacity: usize, hash_builder: S) -> (r: HashMap<K, usize, S>)
    ensures
        r@ == empty_table::<K>(),
{
    HashMap::with_capacity_and_hasher(capacity, hash_builder)
}

/// Relies on `HashMap::capacity`: the map can hold at least this many
/// entries without reallocating, so never fewer than it holds now.
#[verifier::external_body]
fn table_capacity<K, S>(table: &HashMap<K, usize, S>) -> (r: usize)
    ensures
        r >= table@.len(),
{
    table.capacity()
}

/// Relies on `HashMap::try_reserve`: whether or not it succeeds, the
/// entries of the map stay as they were.
#[verifier::external_body]
fn table_try_reserve<K: Eq + Hash, S: BuildHasher>(table: &mut HashMap<K, usize, S>, additional: usize) -> (r: Result<(), TryReserveError>)
    ensures
        final(table)@ == old(table)@,
        old(table)@.len() + additional > usize::MAX ==> r is Err,
{
    table.try_reserve(additional)
}

/// Relies on `HashMap::shrink_to`: the entries of the map stay as they were.
#[verifier::external_body]
fn table_shrink_to<K: Eq + Hash, S: BuildHasher>(table: &mut HashMap<K, usize, S>, min_capacity: usize)
    ensures
        final(table)@ == old(table)@,
{
    table.shrink_to(min_capacity)
}

/// Relies on `BuildHasher::hash_one`: the hash that a hasher built by
/// `hash_builder` gives `val`. Hashers may be seeded per process, so nothing
/// is stated of the number.
#[verifier::external_body]
pub fn make_hash<Q: Hash + ?Sized, S: BuildHasher>(hash_builder: &S, val: &Q) -> u64 {
    hash_builder.hash_one(val)
}

/// The hash under which a key is stored, as `make_hash` gives it.
pub fn make_insert_hash<K: Hash, S: BuildHasher>(hash_builder: &S, val: &K) -> u64 {
    make_hash(hash_builder, val)
}

/// Whether `entry` is stored under a key equal to `k`.
pub fn equivalent_key<K: PartialEq, V>(k: &K, entry: &Entry<K, V>) -> (r: bool)
    ensures
        K::obeys_eq_spec() ==> r == k.eq_spec(&entry.key),
{
    k.eq(&entry.key)
}

/// Cloning a value gives one of the same estimated size.
pub open spec fn clone_keeps_size<V: Clone + MemSize>() -> bool {
    forall|a: V, b: V| #[trigger] vstd::pervasive::strictly_cloned(a, b) ==> b.spec_mem_size() == a.spec_mem_size()
}

/// Both slots are empty, or both hold the same key and size and the second
/// value is a clone of the first.
pub open spec fn slot_cloned<K, V: Clone>(a: Option<Entry<K, V>>, b: Option<Entry<K, V>>) -> bool {
    match a {
        Some(x) => b is Some && b->Some_0.key == x.key && b->Some_0.size == x.size && cloned(x.value, b->Some_0.value),
        None => b is None,
    }
}

impl<K: Clone + MemSize, V: MemSize> LruCache<K, V> {
    /// An empty cache with the given ceiling and the default hasher.
    pub fn new(max_size: usize) -> (r: LruCache<K, V>)
        requires
            obeys_key_model::<K>(),
            clone_is_exact::<K>(),
        ensures
            r.wf(),
            r.entries() == Seq::<(K, V, usize)>::empty(),
            r.ceiling() == max_size,
            r.ledger() == 0,
    {
        LruCache::with_table_and_hasher(max_size, HashMap::new())
    }

    /// An empty cache with the given ceiling whose lookup table is prepared
    /// for at least `capacity` entries.
    pub fn with_capacity(max_size: usize, capacity: usize) -> (r: LruCache<K, V>)
        requires
            obeys_key_model::<K>(),
            clone_is_exact::<K>(),
        ensures
            r.wf(),
            r.entries() == Seq::<(K, V, usize)>::empty(),
            r.ceiling() == max_size,
            r.ledger() == 0,
    {
        LruCache::with_table_and_hasher(max_size, HashMap::with_capacity(capacity))
    }
}

impl<K: Clone + MemSize, V: MemSize, S> LruCache<K, V, S> {
    fn with_table_and_hasher(max_size: usize, table: HashMap<K, usize, S>) -> (r: LruCache<K, V, S>)
        requires
            obeys_key_model::<K>(),
            clone_is_exact::<K>(),
            builds_valid_hashers::<S>(),
            table@ == Map::<K, usize>::empty(),
        ensures
            r.wf(),
            r.entries() == Seq::<(K, V, usize)>::empty(),
            r.ceiling() == max_size,
            r.ledger() == 0,
    {
        let r = LruCache {
            table,
            slots: Vec::new(),
            links: Vec::new(),
            free: Vec::new(),
            head: None,
            tail: None,
            current_size: 0,
            max_size,
            order: Ghost(Seq::empty()),
        };
        proof {
            assert(r.entries() =~= Seq::<(K, V, usize)>::empty());
            assert(size_sum(r.entries()) == 0);
        }
        r
    }

    /// An empty cache with the given ceiling and hasher.
    pub fn with_hasher(max_size: usize, hash_builder: S) -> (r: LruCache<K, V, S>)
        requires
            obeys_key_model::<K>(),
            clone_is_exact::<K>(),
            builds_valid_hashers::<S>(),
        ensures
            r.wf(),
            r.entries() == Seq::<(K, V, usize)>::empty(),
            r.ceiling() == max_size,
            r.ledger() == 0,
    {
        LruCache::with_table_and_hasher(max_size, table_with_hasher(hash_builder))
    }

    /// An empty cache with the given ceiling and hasher whose lookup table
    /// is prepared for at least `capacity` entries.
    pub fn with_capacity_and_hasher(max_size: usize, capacity: usize, hash_builder: S) -> (r: LruCache<K, V, S>)
        requires
            obeys_key_model::<K>(),
            clone_is_exact::<K>(),
            builds_valid_hashers::<S>(),
        ensures
            r.wf(),
            r.entries() == Seq::<(K, V, usize)>::empty(),
            r.ceiling() == max_size,
            r.ledger() == 0,
    {
        LruCache::with_table_and_hasher(max_size, table_with_capacity_and_hasher(capacity, hash_builder))
    }

    /// The ceiling on the total size of the entries.
    pub fn max_size(&self) -> (r: usize)
        ensures
            r == self.ceiling(),
    {
        self.max_size
    }

    /// The total size of the entries.
    pub fn current_size(&self) -> (r: usize)
        requires
            self.wf(),
        ensures
            r == self.ledger(),
            r == size_sum(self.entries()),
    {
        self.current_size
    }

    /// The number of entries.
    pub fn len(&self) -> (r: usize)
        requires
            self.wf(),
        ensures
            r == self.entries().len(),
    {
        self.table.len()
    }

    /// Whether the cache holds no entry.
    pub fn is_empty(&self) -> (r: bool)
        requires
            self.wf(),
        ensures
            r == (self.entries().len() == 0),
    {
        self.len() == 0
    }

    /// How many entries the lookup table can hold without growing; never
    /// fewer than it holds.
    pub fn capacity(&self) -> (r: usize)
        requires
            self.wf(),
        ensures
            r >= self.entries().len(),
    {
        table_capacity(&self.table)
    }
}

impl<K: Clone + Eq + Hash + MemSize, V: MemSize, S: BuildHasher> LruCache<K, V, S> {
    /// The slot of the entry with the given key, if there is one.
    fn get_slot(&self, key: &K) -> (r: Option<usize>)
        requires
            self.wf(),
        ensures
            match r {
                Some(j) => {
                    &&& has_key(self.entries(), *key)
                    &&& 0 <= key_pos(self.entries(), *key) < self.entries().len()
                    &&& self.order@[key_pos(self.entries(), *key)] == j
                },
                None => !has_key(self.entries(), *key),
            },
    {
        proof {
            self.lemma_wf_unique();
        }
        match self.table.get(key) {
            Some(j) => {
                proof {
                    let o = self.order@;
                    assert(o.contains(*j));
                    let i = choose|i: int| 0 <= i < o.len() && o[i] == *j;
                    assert(self.entries()[i].0 == *key);
                    lemma_key_pos(self.entries(), i);
                }
                Some(*j)
            },
            None => {
                proof {
                    if has_key(self.entries(), *key) {
                        let i = choose|i: int| 0 <= i < self.entries().len() && self.entries()[i].0 == *key;
                        assert(self.table@.contains_key(self.rec_at(self.order@[i]).0));
                    }
                }
                None
            },
        }
    }

    /// Moves the entry in slot `j`, at position `i` of the recency list, to
    /// the most recently used end.
    fn touch_slot(&mut self, j: usize, Ghost(i): Ghost<int>)
        requires
            old(self).wf(),
            0 <= i < old(self).order@.len(),
            old(self).order@[i] == j,
        ensures
            final(self).wf(),
            final(self).entries() == promote(old(self).entries(), i),
            final(self).ceiling() == old(self).ceiling(),
            final(self).ledger() == old(self).ledger(),
            final(self).order@ == promote(old(self).order@, i),
            final(self).slots == old(self).slots,
    {
        let ghost o = self.order@;
        let ghost s = self.entries();
        self.unhinge(j, Ghost(i));
        self.set_head(j);
        proof {
            let o2 = self.order@;
            assert(o2 =~= promote(o, i));
            lemma_promote_contains(o, i);
            assert(self.entries() =~= promote(s, i));
            lemma_size_sum_promote(s, i);
            assert forall|m: int| 0 <= m < o2.len() implies (#[trigger] o2[m] as int) < self.slots@.len() && self.slots@[o2[m] as int] is Some by {
                assert(o.contains(o2[m]));
            }
            assert forall|m: int|
                #![trigger o2[m]]
                0 <= m < o2.len() implies self.table@.contains_key(self.rec_at(o2[m]).0) && self.table@[self.rec_at(o2[m]).0] == o2[m] by {
                assert(o.contains(o2[m]));
                let q = choose|q: int| 0 <= q < o.len() && o[q] == o2[m];
                assert(o[q] == o2[m]);
            }
        }
    }

    /// Moves the entry with the given key, if any, to the most recently used
    /// end; nothing else changes.
    pub fn touch(&mut self, key: &K)
        requires
            old(self).wf(),
        ensures
            final(self).wf(),
            final(self).ceiling() == old(self).ceiling(),
            final(self).ledger() == old(self).ledger(),
            has_key(old(self).entries(), *key) ==> final(self).entries() == promote(
                old(self).entries(),
                key_pos(old(self).entries(), *key),
            ),
            !has_key(old(self).entries(), *key) ==> final(self).entries() == old(self).entries(),
    {
        match self.get_slot(key) {
            Some(j) => {
                let ghost i = key_pos(self.entries(), *key);
                self.touch_slot(j, Ghost(i));
            },
            None => {},
        }
    }

    /// The value stored under `key`, if any; a hit makes the entry the most
    /// recently used.
    pub fn get(&mut self, key: &K) -> (r: Option<&V>)
        requires
            old(self).wf(),
        ensures
            final(self).wf(),
            final(self).ceiling() == old(self).ceiling(),
            final(self).ledger() == old(self).ledger(),
            match r {
                Some(v) => {
                    &&& has_key(old(self).entries(), *key)
                    &&& *v == old(self).entries()[key_pos(old(self).entries(), *key)].1
                    &&& final(self).entries() == promote(old(self).entries(), key_pos(old(self).entries(), *key))
                },
                None => {
                    &&& !has_key(old(self).entries(), *key)
                    &&& final(self).entries() == old(self).entries()
                },
            },
            deref_opt(r) == lookup(old(self).entries(), *key),
    {
        match self.get_slot(key) {
            Some(j) => {
                let ghost i = key_pos(self.entries(), *key);
                self.touch_slot(j, Ghost(i));
                proof {
                    assert(self.order@.last() == j);
                    assert(self.entries().last() == self.rec_at(j));
                }
                match &self.slots[j] {
                    Some(e) => Some(&e.value),
                    None => None,
                }
            },
            None => None,
        }
    }

    /// The value stored under `key`, if any, without touching recency.
    pub fn peek(&self, key: &K) -> (r: Option<&V>)
        requires
            self.wf(),
        ensures
            deref_opt(r) == lookup(self.entries(), *key),
    {
        match self.get_slot(key) {
            Some(j) => {
                match &self.slots[j] {
                    Some(e) => Some(&e.value),
                    None => None,
                }
            },
            None => None,
        }
    }

    /// Takes the entry in slot `j`, at position `i` of the recency list, out
    /// of the cache and hands back its key and value.
    fn remove_slot(&mut self, j: usize, Ghost(i): Ghost<int>) -> (r: Entry<K, V>)
        requires
            old(self).wf(),
            0 <= i < old(self).order@.len(),
            old(self).order@[i] == j,
        ensures
            final(self).wf(),
            final(self).entries() == old(self).entries().remove(i),
            (r.key, r.value, r.size) == old(self).entries()[i],
            final(self).ceiling() == old(self).ceiling(),
            final(self).ledger() == old(self).ledger() - old(self).entries()[i].2,
    {
        let ghost s = self.entries();
        let ghost o = self.order@;
        let ghost old_self = *self;
        proof {
            self.lemma_wf_unique();
            lemma_size_sum_remove(s, i);
        }
        self.unhinge(j, Ghost(i));
        let mut t: Option<Entry<K, V>> = None;
        std::mem::swap(&mut self.slots[j], &mut t);
        let e = t.unwrap();
        let ghost k = e.key;
        self.table.remove(&e.key);
        proof {
            assert(s[i].0 == k);
            assert(old_self.table@.contains_key(k));
            old_self.table@.lemma_remove_key_len(k);
            assert(self.table@ == old_self.table@.remove(k));
            assert(!self.free@.contains(j)) by {
                if self.free@.contains(j) {
                    let q = choose|q: int| 0 <= q < self.free@.len() && self.free@[q] == j;
                    assert(old_self.slots@[self.free@[q] as int] is None);
                }
            }
        }
        self.free.push(j);
        self.current_size = self.current_size - e.size;
        proof {
            let o2 = self.order@;
            assert(o2 =~= o.remove(i));
            assert forall|m: int| 0 <= m < o2.len() implies #[trigger] o2[m] != j by {
                if m < i {
                    assert(o2[m] == o[m]);
                } else {
                    assert(o2[m] == o[m + 1]);
                }
            }
            assert forall|m: int| 0 <= m < o2.len() implies #[trigger] self.rec_at(o2[m]) == old_self.rec_at(o2[m]) by {
                assert(o2[m] != j);
            }
            assert(self.entries() =~= s.remove(i));
            assert forall|m: int| 0 <= m < o2.len() implies (#[trigger] o2[m] as int) < self.slots@.len() && self.slots@[o2[m] as int] is Some by {
                assert(o2[m] != j);
                if m < i {
                    assert(o2[m] == o[m]);
                } else {
                    assert(o2[m] == o[m + 1]);
                }
            }
            assert forall|x: usize| (x as int) < self.slots@.len() && (#[trigger] self.slots@[x as int]) is Some implies o2.contains(x) by {
                assert(x != j);
                assert(o.contains(x));
                let q = choose|q: int| 0 <= q < o.len() && o[q] == x;
                if q < i {
                    assert(o2[q] == x);
                } else {
                    assert(q != i);
                    assert(o2[q - 1] == x);
                }
            }
            assert forall|m: int|
                #![trigger o2[m]]
                0 <= m < o2.len() implies self.table@.contains_key(self.rec_at(o2[m]).0) && self.table@[self.rec_at(o2[m]).0] == o2[m] by {
                let q = if m < i { m } else { m + 1 };
                assert(o2[m] == o[q]);
                assert(q != i);
                assert(s[q].0 != s[i].0);
            }
            assert forall|kk: K| #[trigger] self.table@.contains_key(kk) implies {
                let jj = self.table@[kk];
                &&& (jj as int) < self.slots@.len()
                &&& self.slots@[jj as int] is Some
                &&& self.rec_at(jj).0 == kk
            } by {
                assert(old_self.table@.contains_key(kk));
                assert(kk != k);
            }
            assert forall|q: int| 0 <= q < self.free@.len() implies (#[trigger] self.free@[q] as int) < self.slots@.len() && self.slots@[self.free@[q] as int] is None by {
                if q < self.free@.len() - 1 {
                    assert(self.free@[q] == old_self.free@[q]);
                }
            }
            assert(self.free@.no_duplicates()) by {
                assert forall|a: int, b: int| 0 <= a < b < self.free@.len() implies self.free@[a] != self.free@[b] by {
                    if b == self.free@.len() - 1 {
                        assert(old_self.free@.contains(old_self.free@[a]));
                    }
                }
            }
        }
        e
    }

    /// Removes and returns the least recently used entry.
    pub fn remove_lru(&mut self) -> (r: Option<(K, V)>)
        requires
            old(self).wf(),
        ensures
            final(self).wf(),
            final(self).ceiling() == old(self).ceiling(),
            match r {
                Some(kv) => {
                    &&& old(self).entries().len() > 0
                    &&& kv == pairs(old(self).entries())[0]
                    &&& final(self).entries() == old(self).entries().drop_first()
                },
                None => {
                    &&& old(self).entries().len() == 0
                    &&& final(self).entries() == old(self).entries()
                },
            },
    {
        match self.tail {
            Some(j) => {
                let ghost s = self.entries();
                let e = self.remove_slot(j, Ghost(0));
                proof {
                    assert(s.remove(0) =~= s.drop_first());
                }
                Some((e.key, e.value))
            },
            None => None,
        }
    }

    /// Removes and returns the most recently used entry.
    pub fn remove_mru(&mut self) -> (r: Option<(K, V)>)
        requires
            old(self).wf(),
        ensures
            final(self).wf(),
            final(self).ceiling() == old(self).ceiling(),
            match r {
                Some(kv) => {
                    &&& old(self).entries().len() > 0
                    &&& kv == pairs(old(self).entries()).last()
                    &&& final(self).entries() == old(self).entries().drop_last()
                },
                None => {
                    &&& old(self).entries().len() == 0
                    &&& final(self).entries() == old(self).entries()
                },
            },
    {
        match self.head {
            Some(j) => {
                let ghost s = self.entries();
                let e = self.remove_slot(j, Ghost(s.len() - 1));
                proof {
                    assert(s.remove(s.len() - 1) =~= s.drop_last());
                }
                Some((e.key, e.value))
            },
            None => None,
        }
    }

    /// The least recently used entry, without touching recency.
    pub fn peek_lru(&self) -> (r: Option<(&K, &V)>)
        requires
            self.wf(),
        ensures
            match r {
                Some(kv) => self.entries().len() > 0 && (*kv.0, *kv.1) == pairs(self.entries())[0],
                None => self.entries().len() == 0,
            },
    {
        match self.tail {
            Some(j) => match &self.slots[j] {
                Some(e) => Some((&e.key, &e.value)),
                None => None,
            },
            None => None,
        }
    }

    /// The most recently used entry, without touching recency.
    pub fn peek_mru(&self) -> (r: Option<(&K, &V)>)
        requires
            self.wf(),
        ensures
            match r {
                Some(kv) => self.entries().len() > 0 && (*kv.0, *kv.1) == pairs(self.entries()).last(),
                None => self.entries().len() == 0,
            },
    {
        match self.head {
            Some(j) => match &self.slots[j] {
                Some(e) => Some((&e.key, &e.value)),
                None => None,
            },
            None => None,
        }
    }

    /// The least recently used entry, which then becomes the most recently
    /// used.
    pub fn get_lru(&mut self) -> (r: Option<(&K, &V)>)
        requires
            old(self).wf(),
        ensures
            final(self).wf(),
            final(self).ceiling() == old(self).ceiling(),
            final(self).ledger() == old(self).ledger(),
            match r {
                Some(kv) => {
                    &&& old(self).entries().len() > 0
                    &&& (*kv.0, *kv.1) == pairs(old(self).entries())[0]
                    &&& final(self).entries() == promote(old(self).entries(), 0)
                },
                None => {
                    &&& old(self).entries().len() == 0
                    &&& final(self).entries() == old(self).entries()
                },
            },
    {
        match self.tail {
            Some(j) => {
                self.touch_slot(j, Ghost(0));
                proof {
                    assert(self.order@.last() == j);
                    assert(self.entries().last() == self.rec_at(j));
                }
                match &self.slots[j] {
                    Some(e) => Some((&e.key, &e.value)),
                    None => None,
                }
            },
            None => None,
        }
    }

    /// Drops least recently used entries until the total size is at most
    /// `target`.
    fn eject_to_target(&mut self, target: usize)
        requires
            old(self).wf(),
        ensures
            final(self).wf(),
            final(self).entries() == evict_to(old(self).entries(), target as nat),
            final(self).ceiling() == old(self).ceiling(),
    {
        let ghost s0 = self.entries();
        while self.current_size > target
            invariant
                self.wf(),
                evict_to(self.entries(), target as nat) == evict_to(s0, target as nat),
                self.ceiling() == old(self).ceiling(),
            decreases self.entries().len(),
        {
            let ghost s = self.entries();
            proof {
                if s.len() == 0 {
                    assert(size_sum(s) == 0);
                }
            }
            self.remove_lru();
        }
        proof {
            let s = self.entries();
            assert(size_sum(s) <= target);
        }
    }

    /// Changes the ceiling, first dropping least recently used entries until
    /// the total size fits under it.
    pub fn set_max_size(&mut self, max_size: usize)
        requires
            old(self).wf(),
        ensures
            final(self).wf(),
            final(self).entries() == evict_to(old(self).entries(), max_size as nat),
            final(self).ceiling() == max_size,
    {
        let ghost s0 = self.entries();
        if self.current_size > max_size {
            self.eject_to_target(max_size);
        }
        let ghost s1 = self.entries();
        proof {
            lemma_evict_suffix(s0, max_size as nat);
            assert(size_sum(self.entries()) <= max_size);
        }
        self.max_size = max_size;
        proof {
            assert(self.entries() =~= s1);
        }
    }

    /// Removes the entry with the given key and returns its key and value.
    pub fn remove_entry(&mut self, key: &K) -> (r: Option<(K, V)>)
        requires
            old(self).wf(),
        ensures
            final(self).wf(),
            final(self).ceiling() == old(self).ceiling(),
            match r {
                Some(kv) => {
                    &&& has_key(old(self).entries(), *key)
                    &&& kv == pairs(old(self).entries())[key_pos(old(self).entries(), *key)]
                    &&& final(self).entries() == old(self).entries().remove(key_pos(old(self).entries(), *key))
                },
                None => {
                    &&& !has_key(old(self).entries(), *key)
                    &&& final(self).entries() == old(self).entries()
                    &&& final(self).ledger() == old(self).ledger()
                },
            },
    {
        match self.get_slot(key) {
            Some(j) => {
                let ghost i = key_pos(self.entries(), *key);
                let e = self.remove_slot(j, Ghost(i));
                Some((e.key, e.value))
            },
            None => None,
        }
    }

    /// Removes the entry with the given key and returns its value.
    pub fn remove(&mut self, key: &K) -> (r: Option<V>)
        requires
            old(self).wf(),
        ensures
            final(self).wf(),
            final(self).ceiling() == old(self).ceiling(),
            match r {
                Some(v) => {
                    &&& has_key(old(self).entries(), *key)
                    &&& v == old(self).entries()[key_pos(old(self).entries(), *key)].1
                    &&& final(self).entries() == old(self).entries().remove(key_pos(old(self).entries(), *key))
                },
                None => {
                    &&& !has_key(old(self).entries(), *key)
                    &&& final(self).entries() == old(self).entries()
                    &&& final(self).ledger() == old(self).ledger()
                },
            },
    {
        match self.remove_entry(key) {
            Some(kv) => Some(kv.1),
            None => None,
        }
    }

    /// Drops every entry.
    pub fn clear(&mut self)
        requires
            old(self).wf(),
        ensures
            final(self).wf(),
            final(self).entries() == Seq::<(K, V, usize)>::empty(),
            final(self).ceiling() == old(self).ceiling(),
            final(self).ledger() == 0,
    {
        self.table.clear();
        self.slots.clear();
        self.links.clear();
        self.free.clear();
        self.head = None;
        self.tail = None;
        self.current_size = 0;
        self.order = Ghost(Seq::empty());
        proof {
            assert(self.entries() =~= Seq::<(K, V, usize)>::empty());
            assert(size_sum(self.entries()) == 0);
        }
    }

    /// Stores `entry`, whose key is absent, in a free slot and makes it the
    /// most recently used.
    fn push_head(&mut self, entry: Entry<K, V>)
        requires
            old(self).wf(),
            !has_key(old(self).entries(), entry.key),
            old(self).current_size + entry.size <= old(self).max_size,
            entry.size == entry_size(entry.key.spec_mem_size(), entry.value.spec_mem_size(), entry_overhead()),
        ensures
            final(self).wf(),
            final(self).entries() == old(self).entries().push((entry.key, entry.value, entry.size)),
            final(self).ceiling() == old(self).ceiling(),
            final(self).ledger() == old(self).ledger() + entry.size,
    {
        let ghost old_self = *self;
        let ghost s = self.entries();
        let ghost o = self.order@;
        let ghost rec = (entry.key, entry.value, entry.size);
        let k = entry.key.clone();
        proof {
            assert(vstd::pervasive::strictly_cloned(entry.key, k));
        }
        let size = entry.size;
        proof {
            if self.table@.contains_key(k) {
                let jj = self.table@[k];
                assert(o.contains(jj));
                let q = choose|q: int| 0 <= q < o.len() && o[q] == jj;
                assert(s[q].0 == k);
            }
        }
        let j: usize;
        match self.free.pop() {
            Some(f) => {
                j = f;
                proof {
                    assert(old_self.free@.last() == f);
                    assert(self.slots@[j as int] is None);
                    assert(!o.contains(j));
                }
                self.slots[j] = Some(entry);
            },
            None => {
                j = self.slots.len();
                proof {
                    assert(!o.contains(j)) by {
                        if o.contains(j) {
                            let q = choose|q: int| 0 <= q < o.len() && o[q] == j;
                            assert((o[q] as int) < self.slots@.len());
                        }
                    }
                }
                self.slots.push(Some(entry));
                self.links.push(Link { newer: None, older: None });
            },
        }
        self.table.insert(k, j);
        self.set_head(j);
        self.current_size = self.current_size + size;
        proof {
            let o2 = self.order@;
            assert(o2 == o.push(j));
            assert forall|m: int| 0 <= m < o.len() implies #[trigger] o[m] != j by {
                assert(o.contains(o[m]));
            }
            assert forall|m: int| 0 <= m < o.len() implies #[trigger] self.rec_at(o[m]) == old_self.rec_at(o[m]) by {
                assert(o[m] != j);
            }
            assert(self.rec_at(j) == rec);
            assert(self.entries() =~= s.push(rec));
            lemma_size_sum_push(s, rec);
            lemma_measured_push(s, rec);
            assert forall|m: int| 0 <= m < o2.len() implies (#[trigger] o2[m] as int) < self.slots@.len() && self.slots@[o2[m] as int] is Some by {
                if m < o.len() {
                    assert(o2[m] == o[m]);
                    assert(o[m] != j);
                }
            }
            assert forall|x: usize| (x as int) < self.slots@.len() && (#[trigger] self.slots@[x as int]) is Some implies o2.contains(x) by {
                if x == j {
                    assert(o2[o.len() as int] == j);
                } else {
                    assert(o.contains(x));
                    let q = choose|q: int| 0 <= q < o.len() && o[q] == x;
                    assert(o2[q] == x);
                }
            }
            assert forall|m: int|
                #![trigger o2[m]]
                0 <= m < o2.len() implies self.table@.contains_key(self.rec_at(o2[m]).0) && self.table@[self.rec_at(o2[m]).0] == o2[m] by {
                if m < o.len() {
                    assert(o2[m] == o[m]);
                    assert(s[m].0 != k);
                }
            }
            assert forall|kk: K| #[trigger] self.table@.contains_key(kk) implies {
                let jj = self.table@[kk];
                &&& (jj as int) < self.slots@.len()
                &&& self.slots@[jj as int] is Some
                &&& self.rec_at(jj).0 == kk
            } by {
                if kk != k {
                    assert(old_self.table@.contains_key(kk));
                    let jj = old_self.table@[kk];
                    assert(old_self.slots@[jj as int] is Some);
                    assert(jj != j);
                }
            }
            assert forall|q: int| 0 <= q < self.free@.len() implies (#[trigger] self.free@[q] as int) < self.slots@.len() && self.slots@[self.free@[q] as int] is None by {
                assert(self.free@[q] == old_self.free@[q]);
                assert(self.free@[q] != j);
            }
        }
    }

    /// Stores `value` under `key` as the most recently used entry, returning
    /// the value it replaces. Least recently used entries are dropped to make
    /// room. An entry larger than the ceiling is refused, and the cache is
    /// left unchanged.
    pub fn insert(&mut self, key: K, value: V) -> (r: LruResult<Option<V>, K, V>)
        requires
            old(self).wf(),
        ensures
            final(self).wf(),
            final(self).ceiling() == old(self).ceiling(),
            ({
                let size = entry_size(key.spec_mem_size(), value.spec_mem_size(), entry_overhead());
                let s = old(self).entries();
                if size > old(self).ceiling() {
                    &&& r == Err::<Option<V>, LruError<K, V>>(
                        LruError::EntryTooLarge { key, value, entry_size: size, max_size: old(self).ceiling() },
                    )
                    &&& final(self).entries() == s
                } else {
                    &&& final(self).entries() == after_insert(s, key, value, size, old(self).ceiling())
                    &&& r == Ok::<Option<V>, LruError<K, V>>(
                        if has_key(s, key) {
                            Some(s[key_pos(s, key)].1)
                        } else {
                            None
                        },
                    )
                }
            }),
    {
        let ghost s = self.entries();
        let entry = Entry::new(key, value);
        if entry.size > self.max_size {
            return Err(
                LruError::EntryTooLarge {
                    key: entry.key,
                    value: entry.value,
                    entry_size: entry.size,
                    max_size: self.max_size,
                },
            );
        }
        let result = match self.get_slot(&entry.key) {
            Some(j) => {
                let ghost i = key_pos(self.entries(), entry.key);
                let e = self.remove_slot(j, Ghost(i));
                Some(e.value)
            },
            None => None,
        };
        let ghost rest = self.entries();
        proof {
            assert(rest == without_key(s, key));
            self.lemma_wf_unique();
            lemma_without_key(s, key);
        }
        self.eject_to_target(self.max_size - entry.size);
        proof {
            lemma_evict_suffix(rest, (self.max_size - entry.size) as nat);
            lemma_evict_keeps_absent(rest, (self.max_size - entry.size) as nat, key);
        }
        self.push_head(entry);
        Ok(result)
    }

    /// Applies `op` to the value stored under `key`, once, and returns what it
    /// returns; on a miss `op` is not called and the result is `None`.
    ///
    /// The value is measured again after the call: the entry is charged its
    /// key, its new value and the overhead, so its size changes by exactly
    /// the change in the value's size, and it becomes the most recently used. If it
    /// grew past the ceiling it is removed and handed back in the error;
    /// otherwise least recently used entries are dropped until all fits.
    pub fn mutate<R, F>(&mut self, key: &K, op: F) -> (r: LruResult<Option<R>, K, V>)
        where
            F: Fn(&mut V) -> R,
        requires
            old(self).wf(),
            forall|x: &mut V| call_requires(op, (x,)),
        ensures
            final(self).wf(),
            final(self).ceiling() == old(self).ceiling(),
            !has_key(old(self).entries(), *key) ==> {
                &&& r is Ok
                &&& r->Ok_0 is None
                &&& final(self).entries() == old(self).entries()
            },
            has_key(old(self).entries(), *key) ==> ({
                let s = old(self).entries();
                let i = key_pos(s, *key);
                match r {
                    Ok(res) => {
                        let t = final(self).entries();
                        &&& res is Some
                        &&& t.len() > 0
                        &&& exists|x: &mut V|
                            mut_ref_current(x) == s[i].1 && mut_ref_future(x) == t.last().1 && call_ensures(
                                op,
                                (x,),
                                res->Some_0,
                            )
                        &&& t.last().0 == *key
                        &&& t.last().2 == entry_size(key.spec_mem_size(), t.last().1.spec_mem_size(), entry_overhead())
                        &&& t.last().2 <= old(self).ceiling()
                        &&& t == evict_to(s.remove(i), (old(self).ceiling() - t.last().2) as nat).push(t.last())
                    },
                    Err(LruError::EntryTooLarge { key: k, value: v, entry_size, max_size }) => {
                        &&& k == *key
                        &&& exists|x: &mut V, res: R|
                            mut_ref_current(x) == s[i].1 && mut_ref_future(x) == v && call_ensures(op, (x,), res)
                        &&& entry_size == crate::model::entry_size(key.spec_mem_size(), v.spec_mem_size(), entry_overhead())
                        &&& entry_size > old(self).ceiling()
                        &&& max_size == old(self).ceiling()
                        &&& final(self).entries() == s.remove(i)
                    },
                }
            }),
    {
        let max_size = self.max_size;
        match self.get_slot(key) {
            Some(j) => {
                let ghost s = self.entries();
                let ghost i = key_pos(s, *key);
                let mut e = self.remove_slot(j, Ghost(i));
                let result = op(&mut e.value);
                let key_size = e.key.mem_size();
                let new_value_size = e.value.mem_size();
                let new_entry_size = key_size.saturating_add(new_value_size).saturating_add(overhead_bytes());
                if new_entry_size > max_size {
                    return Err(
                        LruError::EntryTooLarge {
                            key: e.key,
                            value: e.value,
                            entry_size: new_entry_size,
                            max_size,
                        },
                    );
                }
                e.size = new_entry_size;
                let ghost rest = self.entries();
                proof {
                    self.lemma_wf_unique();
                    lemma_without_key(s, *key);
                }
                self.eject_to_target(max_size - new_entry_size);
                proof {
                    lemma_evict_suffix(rest, (max_size - new_entry_size) as nat);
                    lemma_evict_keeps_absent(rest, (max_size - new_entry_size) as nat, *key);
                }
                self.push_head(e);
                Ok(Some(result))
            },
            None => Ok(None),
        }
    }

    /// Makes room in the lookup table for at least `additional` more
    /// entries. The entries and their order are unchanged.
    pub fn reserve(&mut self, additional: usize)
        requires
            old(self).wf(),
        ensures
            final(self).wf(),
            final(self).entries() == old(self).entries(),
            final(self).ceiling() == old(self).ceiling(),
            final(self).ledger() == old(self).ledger(),
    {
        let ghost s = self.entries();
        self.table.reserve(additional);
        proof {
            assert(self.entries() =~= s);
        }
    }

    /// Like `reserve`, but an allocation failure is reported instead of
    /// aborting. Either way the entries and their order are unchanged.
    pub fn try_reserve(&mut self, additional: usize) -> (r: Result<(), TryReserveError>)
        requires
            old(self).wf(),
        ensures
            final(self).wf(),
            old(self).entries().len() + additional > usize::MAX ==> r is Err,
            final(self).entries() == old(self).entries(),
            final(self).ceiling() == old(self).ceiling(),
            final(self).ledger() == old(self).ledger(),
    {
        let ghost s = self.entries();
        let r = table_try_reserve(&mut self.table, additional);
        proof {
            assert(self.entries() =~= s);
        }
        r
    }

    /// Lets the lookup table give back room beyond `min_capacity` (or the
    /// number of entries, if larger). The entries and their order are
    /// unchanged.
    pub fn shrink_to(&mut self, min_capacity: usize)
        requires
            old(self).wf(),
        ensures
            final(self).wf(),
            final(self).entries() == old(self).entries(),
            final(self).ceiling() == old(self).ceiling(),
            final(self).ledger() == old(self).ledger(),
    {
        let ghost s = self.entries();
        table_shrink_to(&mut self.table, min_capacity);
        proof {
            assert(self.entries() =~= s);
        }
    }

    /// Lets the lookup table give back all room beyond the entries it holds.
    pub fn shrink_to_fit(&mut self)
        requires
            old(self).wf(),
        ensures
            final(self).wf(),
            final(self).entries() == old(self).entries(),
            final(self).ceiling() == old(self).ceiling(),
            final(self).ledger() == old(self).ledger(),
    {
        self.shrink_to(0)
    }

    /// The entries from least to most recently used; recency is untouched.
    pub fn iter(&self) -> (r: Vec<(&K, &V)>)
        requires
            self.wf(),
        ensures
            r@.len() == self.entries().len(),
            forall|i: int| 0 <= i < r@.len() ==> (*(#[trigger] r@[i]).0, *r@[i].1) == pairs(self.entries())[i],
    {
        let ghost o = self.order@;
        let mut out: Vec<(&K, &V)> = Vec::new();
        let mut cursor = self.tail;
        while cursor.is_some()
            invariant
                self.wf(),
                o == self.order@,
                out@.len() <= o.len(),
                cursor == (if out@.len() < o.len() {
                    Some(o[out@.len() as int])
                } else {
                    None::<usize>
                }),
                forall|i: int| 0 <= i < out@.len() ==> (*(#[trigger] out@[i]).0, *out@[i].1) == pairs(self.entries())[i],
            decreases o.len() - out@.len(),
        {
            let j = cursor.unwrap();
            proof {
                let n = out@.len() as int;
                self.lemma_wf_unique();
                assert(o[n] == j);
                assert(self.entries()[n] == self.rec_at(j));
            }
            match &self.slots[j] {
                Some(e) => {
                    out.push((&e.key, &e.value));
                },
                None => {
                    proof {
                        assert(false);
                    }
                },
            }
            cursor = self.links[j].newer;
        }
        out
    }

    /// The keys from least to most recently used; recency is untouched.
    pub fn keys(&self) -> (r: Vec<&K>)
        requires
            self.wf(),
        ensures
            r@.len() == self.entries().len(),
            forall|i: int| 0 <= i < r@.len() ==> *(#[trigger] r@[i]) == keys_in(self.entries())[i],
    {
        let ghost o = self.order@;
        let mut out: Vec<&K> = Vec::new();
        let mut cursor = self.tail;
        while cursor.is_some()
            invariant
                self.wf(),
                o == self.order@,
                out@.len() <= o.len(),
                cursor == (if out@.len() < o.len() {
                    Some(o[out@.len() as int])
                } else {
                    None::<usize>
                }),
                forall|i: int| 0 <= i < out@.len() ==> *(#[trigger] out@[i]) == keys_in(self.entries())[i],
            decreases o.len() - out@.len(),
        {
            let j = cursor.unwrap();
            proof {
                let n = out@.len() as int;
                self.lemma_wf_unique();
                assert(o[n] == j);
                assert(self.entries()[n] == self.rec_at(j));
            }
            match &self.slots[j] {
                Some(e) => {
                    out.push(&e.key);
                },
                None => {
                    proof {
                        assert(false);
                    }
                },
            }
            cursor = self.links[j].newer;
        }
        out
    }

    /// The values from least to most recently used; recency is untouched.
    pub fn values(&self) -> (r: Vec<&V>)
        requires
            self.wf(),
        ensures
            r@.len() == self.entries().len(),
            forall|i: int| 0 <= i < r@.len() ==> *(#[trigger] r@[i]) == self.entries()[i].1,
    {
        let ghost o = self.order@;
        let mut out: Vec<&V> = Vec::new();
        let mut cursor = self.tail;
        while cursor.is_some()
            invariant
                self.wf(),
                o == self.order@,
                out@.len() <= o.len(),
                cursor == (if out@.len() < o.len() {
                    Some(o[out@.len() as int])
                } else {
                    None::<usize>
                }),
                forall|i: int| 0 <= i < out@.len() ==> *(#[trigger] out@[i]) == self.entries()[i].1,
            decreases o.len() - out@.len(),
        {
            let j = cursor.unwrap();
            proof {
                let n = out@.len() as int;
                self.lemma_wf_unique();
                assert(o[n] == j);
                assert(self.entries()[n] == self.rec_at(j));
            }
            match &self.slots[j] {
                Some(e) => {
                    out.push(&e.value);
                },
                None => {
                    proof {
                        assert(false);
                    }
                },
            }
            cursor = self.links[j].newer;
        }
        out
    }

    /// Takes every entry out of the cache, from least to most recently used,
    /// leaving it empty.
    pub fn drain(&mut self) -> (r: Vec<(K, V)>)
        requires
            old(self).wf(),
        ensures
            final(self).wf(),
            r@ == pairs(old(self).entries()),
            final(self).entries() == Seq::<(K, V, usize)>::empty(),
            final(self).ceiling() == old(self).ceiling(),
            final(self).ledger() == 0,
    {
        let ghost s0 = self.entries();
        let mut out: Vec<(K, V)> = Vec::new();
        loop
            invariant
                self.wf(),
                s0 == old(self).entries(),
                pairs(s0) == out@ + pairs(self.entries()),
                self.ceiling() == old(self).ceiling(),
            decreases self.entries().len(),
        {
            let ghost s = self.entries();
            match self.remove_lru() {
                Some(kv) => {
                    proof {
                        assert(pairs(s) =~= seq![kv] + pairs(self.entries()));
                        assert(out@.push(kv) + pairs(self.entries()) =~= out@ + pairs(s));
                    }
                    out.push(kv);
                },
                None => {
                    proof {
                        assert(pairs(s) =~= Seq::<(K, V)>::empty());
                        assert(out@ + pairs(s) =~= out@);
                        assert(s =~= Seq::<(K, V, usize)>::empty());
                        assert(size_sum(s) == 0);
                    }
                    return out;
                },
            }
        }
    }

    /// Consumes the cache and returns its entries from least to most
    /// recently used.
    pub fn into_iter(self) -> (r: Vec<(K, V)>)
        requires
            self.wf(),
        ensures
            r@ == pairs(self.entries()),
    {
        let mut cache = self;
        cache.drain()
    }

    /// An independent copy with the same ceiling, total size, hasher and
    /// entries in the same recency order; each value is cloned.
    pub fn clone(&self) -> (r: Self)
        where
            V: Clone,
            S: Clone,
        requires
            self.wf(),
            clone_keeps_size::<V>(),
        ensures
            r.wf(),
            r.ceiling() == self.ceiling(),
            r.ledger() == self.ledger(),
            r.entries().len() == self.entries().len(),
            forall|i: int|
                0 <= i < self.entries().len() ==> {
                    &&& (#[trigger] r.entries()[i]).0 == self.entries()[i].0
                    &&& r.entries()[i].2 == self.entries()[i].2
                    &&& cloned(self.entries()[i].1, r.entries()[i].1)
                },
    {
        let table = self.table.clone();
        let mut slots: Vec<Option<Entry<K, V>>> = Vec::new();
        let mut links: Vec<Link> = Vec::new();
        let mut x: usize = 0;
        while x < self.slots.len()
            invariant
                self.wf(),
                x <= self.slots@.len(),
                slots@.len() == x,
                links@.len() == x,
                forall|y: int| 0 <= y < x ==> slot_cloned(self.slots@[y], #[trigger] slots@[y]),
                forall|y: int| 0 <= y < x ==> #[trigger] links@[y] == self.links@[y],
            decreases self.slots@.len() - x,
        {
            match &self.slots[x] {
                Some(e) => {
                    let key = e.key.clone();
                    proof {
                        assert(vstd::pervasive::strictly_cloned(e.key, key));
                    }
                    slots.push(Some(Entry { size: e.size, key, value: e.value.clone() }));
                },
                None => {
                    slots.push(None);
                },
            }
            links.push(self.links[x]);
            x = x + 1;
        }
        let mut free: Vec<usize> = Vec::new();
        let mut y: usize = 0;
        while y < self.free.len()
            invariant
                y <= self.free@.len(),
                free@ == self.free@.subrange(0, y as int),
            decreases self.free@.len() - y,
        {
            free.push(self.free[y]);
            y = y + 1;
            proof {
                assert(free@ =~= self.free@.subrange(0, y as int));
            }
        }
        proof {
            assert(links@ =~= self.links@);
            assert(free@ =~= self.free@);
        }
        let r = LruCache {
            table,
            slots,
            links,
            free,
            head: self.head,
            tail: self.tail,
            current_size: self.current_size,
            max_size: self.max_size,
            order: Ghost(self.order@),
        };
        proof {
            let o = self.order@;
            assert forall|jj: usize| (jj as int) < self.slots@.len() && self.slots@[jj as int] is Some implies r.rec_at(jj).0 == self.rec_at(jj).0 && r.rec_at(jj).2 == self.rec_at(jj).2 && cloned(self.rec_at(jj).1, r.rec_at(jj).1) by {
                assert(slot_cloned(self.slots@[jj as int], r.slots@[jj as int]));
            }
            assert forall|jj: usize| (jj as int) < r.slots@.len() && (#[trigger] r.slots@[jj as int]) is Some implies o.contains(jj) by {
                assert(slot_cloned(self.slots@[jj as int], r.slots@[jj as int]));
            }
            assert forall|q: int| 0 <= q < o.len() implies (#[trigger] o[q] as int) < r.slots@.len() && r.slots@[o[q] as int] is Some by {
                assert(slot_cloned(self.slots@[o[q] as int], r.slots@[o[q] as int]));
            }
            assert forall|q: int| 0 <= q < r.free@.len() implies (#[trigger] r.free@[q] as int) < r.slots@.len() && r.slots@[r.free@[q] as int] is None by {
                assert(slot_cloned(self.slots@[r.free@[q] as int], r.slots@[r.free@[q] as int]));
            }
            assert forall|kk: K| #[trigger] r.table@.contains_key(kk) implies {
                let jj = r.table@[kk];
                &&& (jj as int) < r.slots@.len()
                &&& r.slots@[jj as int] is Some
                &&& r.rec_at(jj).0 == kk
            } by {
                let jj = r.table@[kk];
                assert(slot_cloned(self.slots@[jj as int], r.slots@[jj as int]));
            }
            assert forall|q: int| #![trigger o[q]] 0 <= q < o.len() implies r.table@.contains_key(r.rec_at(o[q]).0) && r.table@[r.rec_at(o[q]).0] == o[q] by {
                assert(slot_cloned(self.slots@[o[q] as int], r.slots@[o[q] as int]));
            }
            assert forall|i: int| 0 <= i < self.entries().len() implies {
                &&& (#[trigger] r.entries()[i]).0 == self.entries()[i].0
                &&& r.entries()[i].2 == self.entries()[i].2
                &&& cloned(self.entries()[i].1, r.entries()[i].1)
            } by {
                assert(slot_cloned(self.slots@[o[i] as int], r.slots@[o[i] as int]));
            }
            lemma_size_sum_same_sizes(self.entries(), r.entries());
            assert forall|i: int| 0 <= i < r.entries().len() implies (#[trigger] r.entries()[i]).2 == entry_size(
                r.entries()[i].0.spec_mem_size(),
                r.entries()[i].1.spec_mem_size(),
                entry_overhead(),
            ) by {
                assert(self.entries()[i].2 == entry_size(
                    self.entries()[i].0.spec_mem_size(),
                    self.entries()[i].1.spec_mem_size(),
                    entry_overhead(),
                ));
                assert(slot_cloned(self.slots@[o[i] as int], r.slots@[o[i] as int]));
            }
        }
        r
    }

    /// Whether an entry with the given key is present; recency is untouched.
    pub fn contains(&self, key: &K) -> (r: bool)
        requires
            self.wf(),
        ensures
            r == has_key(self.entries(), *key),
    {
        self.get_slot(key).is_some()
    }
}

} // verus!
