//! Core data structures of a TxFlow node: the nibble view used to address trie keys
//! and the message DAG with its misbehaviour log.

pub mod nibble_slice;
pub mod reporter;
pub mod types;
pub mod witness;
pub mod message;
pub mod dag;
