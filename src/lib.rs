//! A least-recently-used cache bounded by the estimated byte size of its
//! entries rather than by their number.
//!
//! Every entry is charged the estimated size of its key and value (see
//! [`MemSize`]) plus a fixed bookkeeping overhead. When an insertion would
//! push the total past the ceiling, the least recently used entries are
//! dropped until the new one fits; an entry that could never fit is refused
//! with [`LruError::EntryTooLarge`].

pub mod cache;
pub mod error;
pub mod laws;
pub mod mem_size;
pub mod model;

pub use cache::{equivalent_key, make_hash, make_insert_hash, Entry, Link, LruCache};
pub use error::{LruError, LruResult};
pub use mem_size::MemSize;
