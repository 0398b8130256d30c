//! A small key-value container: a hash map with a fixed, prime number of
//! buckets, where each bucket stores its chain in one flat slot array that
//! grows on demand to the next prime size.  Removal leaves tombstones that
//! later insertions reuse; the bucket count never changes after creation.

pub mod hashmap;
pub mod prime;
pub mod slots;

pub use hashmap::Hashmap;
