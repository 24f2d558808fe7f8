//! Positions within one block: seek to the first entry, seek to the first
//! entry with key `>=` a probe, and advance.
//!
//! An empty current key marks the iterator invalid (exhausted or sought past
//! the last entry).

use crate::block::Block;
use crate::keys::{lex_le, lex_lt};
use vstd::prelude::*;
use vstd::slice::slice_subrange;
use std::sync::Arc;

verus! {

/// Iterates over one block.
pub struct BlockIterator {
    /// The shared block.
    pub block: Arc<Block>,
    /// The current key; empty when the iterator is invalid.
    pub key: Vec<u8>,
    /// The byte range of the current value within the block's data region.
    pub value_range: (usize, usize),
    /// The current entry index.
    pub idx: usize,
    /// The first key of the block.
    pub first_key: Vec<u8>,
}

impl BlockIterator {
    /// The underlying block is well-formed, sorted, and non-empty.
    pub open spec fn block_ok(&self) -> bool {
        &&& (*self.block).wf()
        &&& (*self.block).sorted()
        &&& (*self.block).keys_nonempty()
        &&& (*self.block).num_entries() > 0
    }

    /// Well-formed iterator: when valid, the cursor fields describe entry
    /// `idx` of the block.
    pub open spec fn wf(&self) -> bool {
        &&& self.block_ok()
        &&& self.first_key@ == (*self.block).spec_key_at(0)
        &&& self.key@.len() > 0 ==> {
            &&& self.idx < (*self.block).num_entries()
            &&& self.key@ == (*self.block).spec_key_at(self.idx as int)
            &&& self.value_range.0 <= self.value_range.1 <= (*self.block).data@.len()
            &&& (*self.block).data@.subrange(
                self.value_range.0 as int,
                self.value_range.1 as int,
            ) == (*self.block).spec_val_at(self.idx as int)
        }
    }

    /// The iterator points at an entry.
    pub open spec fn spec_valid(&self) -> bool {
        self.key@.len() > 0
    }

    /// The iterator points at entry `i`.
    pub open spec fn at(&self, i: int) -> bool {
        &&& self.spec_valid()
        &&& self.idx == i
    }

    /// Moves the cursor to entry `i`.
    fn seek_to_idx(&mut self, i: usize)
        requires
            old(self).wf(),
            i < (*old(self).block).num_entries(),
        ensures
            final(self).wf(),
            final(self).block == old(self).block,
            final(self).at(i as int),
    {
        self.idx = i;
        self.key = self.block.key(i);
        self.value_range = self.block.value_range(i);
    }

    fn new(block: Arc<Block>) -> (r: BlockIterator)
        requires
            (*block).wf(),
            (*block).sorted(),
            (*block).keys_nonempty(),
            (*block).num_entries() > 0,
        ensures
            r.wf(),
            r.block == block,
            !r.spec_valid(),
    {
        let first_key = block.key(0);
        BlockIterator { block, key: Vec::new(), value_range: (0, 0), idx: 0, first_key }
    }

    /// Creates an iterator positioned at the first entry.
    pub fn create_and_seek_to_first(block: Arc<Block>) -> (r: BlockIterator)
        requires
            (*block).wf(),
            (*block).sorted(),
            (*block).keys_nonempty(),
            (*block).num_entries() > 0,
        ensures
            r.wf(),
            r.block == block,
            r.at(0),
    {
        let mut ret = BlockIterator::new(block);
        ret.seek_to_first();
        ret
    }

    /// Creates an iterator positioned at the first entry whose key is `>=`
    /// the probe, invalid when every key is smaller.
    pub fn create_and_seek_to_key(block: Arc<Block>, key: &[u8]) -> (r: BlockIterator)
        requires
            (*block).wf(),
            (*block).sorted(),
            (*block).keys_nonempty(),
            (*block).num_entries() > 0,
        ensures
            r.wf(),
            r.block == block,
            r.spec_valid() ==> {
                &&& r.at(r.idx as int)
                &&& lex_le(key@, (*block).spec_key_at(r.idx as int))
                &&& forall|j: int|
                    0 <= j < r.idx ==> lex_lt(#[trigger] (*block).spec_key_at(j), key@)
            },
            !r.spec_valid() ==> forall|j: int|
                0 <= j < (*block).num_entries() ==> lex_lt(
                    #[trigger] (*block).spec_key_at(j),
                    key@,
                ),
    {
        let mut ret = BlockIterator::new(block);
        ret.seek_to_key(key);
        ret
    }

    /// The current key.
    pub fn key(&self) -> (r: &[u8])
        requires
            self.wf(),
            self.spec_valid(),
        ensures
            r@ == (*self.block).spec_key_at(self.idx as int),
            r@.len() > 0,
    {
        self.key.as_slice()
    }

    /// The current value.
    pub fn value(&self) -> (r: &[u8])
        requires
            self.wf(),
            self.spec_valid(),
        ensures
            r@ == (*self.block).spec_val_at(self.idx as int),
    {
        slice_subrange(self.block.data.as_slice(), self.value_range.0, self.value_range.1)
    }

    /// Whether the iterator points at an entry.
    pub fn is_valid(&self) -> (r: bool)
        requires
            self.wf(),
        ensures
            r == self.spec_valid(),
    {
        !self.key.is_empty()
    }

    /// Positions at the first entry.
    pub fn seek_to_first(&mut self)
        requires
            old(self).wf(),
        ensures
            final(self).wf(),
            final(self).block == old(self).block,
            final(self).at(0),
    {
        self.seek_to_idx(0);
    }

    /// Positions at the first entry whose key is `>=` the probe; invalid when
    /// every key is smaller.
    pub fn seek_to_key(&mut self, key: &[u8])
        requires
            old(self).wf(),
        ensures
            final(self).wf(),
            final(self).block == old(self).block,
            final(self).spec_valid() ==> {
                &&& final(self).at(final(self).idx as int)
                &&& lex_le(key@, (*old(self).block).spec_key_at(final(self).idx as int))
                &&& forall|j: int|
                    0 <= j < final(self).idx ==> lex_lt(
                        #[trigger] (*old(self).block).spec_key_at(j),
                        key@,
                    )
            },
            !final(self).spec_valid() ==> forall|j: int|
                0 <= j < (*old(self).block).num_entries() ==> lex_lt(
                    #[trigger] (*old(self).block).spec_key_at(j),
                    key@,
                ),
    {
        let i = self.block.seek_index(key);
        if i == self.block.offsets.len() {
            self.key = Vec::new();
            return ;
        }
        self.seek_to_idx(i);
    }

    /// Advances to the next entry; past the last entry the iterator becomes
    /// invalid. Requires a valid position.
    pub fn next(&mut self)
        requires
            old(self).wf(),
            old(self).spec_valid(),
        ensures
            final(self).wf(),
            final(self).block == old(self).block,
            old(self).idx + 1 < (*old(self).block).num_entries() ==> final(self).at(
                old(self).idx + 1,
            ),
            old(self).idx + 1 == (*old(self).block).num_entries() ==> !final(self).spec_valid(),
    {
        if self.idx == self.block.offsets.len() - 1 {
            self.key = Vec::new();
            return ;
        }
        let i = self.idx + 1;
        self.seek_to_idx(i);
    }
}

} // verus!
