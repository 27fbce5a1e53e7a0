//! Read-path primitives of a log-structured merge-tree storage engine:
//! the sorted block format, the sorted string table (SST) builder and
//! iterator, and the k-way merge iterator that unifies several ordered
//! sources into one sorted stream with duplicate-key precedence.

pub mod block;
pub mod block_builder;
pub mod block_iterator;
pub mod error;
pub mod iterators;
pub mod keys;
pub mod merge_iterator;
pub mod table;
pub mod table_builder;
pub mod table_iterator;
