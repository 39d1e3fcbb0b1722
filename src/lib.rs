//! In-memory data structures of a key-value store: a growable byte string
//! (`sds`), a chained hash table (`hashtable`) and the incrementally rehashing
//! dictionary built from two of them (`dict`), a skip list ranked by score
//! (`skiplist`), and a compact list of strings and integers in one byte buffer
//! (`ziplist`).

pub mod dict;
pub mod error;
pub mod hashtable;
pub mod sds;
pub mod skiplist;
pub mod ziplist;
