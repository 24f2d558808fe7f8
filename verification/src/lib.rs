//! Read path of a log-structured merge tree: sorted string table (SST) blocks,
//! their builders and iterators, and a k-way merging iterator.

pub mod block;
pub mod block_builder;
pub mod block_iter;
pub mod bytes_ext;
pub mod iterators;
pub mod keys;
pub mod merge_iterator;
pub mod meta;
pub mod table;
pub mod table_builder;
pub mod table_iter;
pub mod wire;
