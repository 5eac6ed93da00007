//! Keys for a store of keys and values that holds the parts of an index.

pub mod key;

pub use key::{BlockID, DBKey, IndexKey, PartitionID, PartitionKey, TrigramPostingKey};
