//! Fixed-capacity key/value tables behind one interface, with three ways of
//! resolving collisions: linear probing, chaining and cuckoo hashing.

pub mod hash_table;
pub mod simple_hash;
pub mod chained_hash;
pub mod cuckoo_hash;
