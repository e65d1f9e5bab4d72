use vstd::prelude::*;

verus! {

/// The one way in which a cache operation can be refused.
pub enum LruError<K, V> {
    /// An entry would not fit into the cache even if it were the only entry.
    /// The rejected key and value are handed back together with the size the
    /// entry would have had and the ceiling of the cache.
    EntryTooLarge { key: K, value: V, entry_size: usize, max_size: usize },
}

/// Result of a cache operation that may be refused with an [`LruError`].
pub type LruResult<T, K, V> = Result<T, LruError<K, V>>;

} // verus!
