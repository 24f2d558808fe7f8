//! Accumulates strictly-increasing key/value entries into one size-bounded
//! block.
//!
//! The size budget is soft: the first entry is always accepted, so a single
//! entry larger than the budget still yields a valid one-entry block.

use crate::block::{
    block_entries, block_keys_nonempty, block_sorted, block_wf, entry_encoding, entry_end,
    entry_fits, entry_key, entry_key_len, entry_val, entry_val_len, key_at,
    lemma_block_size_bounds, lemma_entry_stable_under_extension, Block,
};
use crate::keys::{lemma_lex_lt_trans, lex_lt};
use crate::wire::{lemma_u16_le_round_trip, put_bytes, put_u16_le, u16_le_bytes};
use vstd::prelude::*;
use vstd::slice::slice_to_vec;

verus! {

/// Builds a block.
pub struct BlockBuilder {
    /// Offsets of each serialized entry.
    pub offsets: Vec<u16>,
    /// All serialized key/value pairs.
    pub data: Vec<u8>,
    /// The soft size budget in bytes.
    pub block_size: usize,
    /// The first key accepted, empty while no entry has been accepted.
    pub first_key: Vec<u8>,
}

impl BlockBuilder {
    /// Well-formed builder state.
    pub open spec fn wf(&self) -> bool {
        &&& block_wf(self.data@, self.offsets@)
        &&& block_sorted(self.data@, self.offsets@)
        &&& block_keys_nonempty(self.data@, self.offsets@)
        &&& (self.offsets@.len() == 0 <==> self.first_key@.len() == 0)
        &&& self.offsets@.len() > 0 ==> self.first_key@ == key_at(self.data@, self.offsets@, 0)
        &&& self.block_size <= 0x10000
    }

    /// No entry accepted yet.
    pub open spec fn spec_is_empty(&self) -> bool {
        self.offsets@.len() == 0
    }

    /// Current estimated size: data bytes plus the offset table plus the
    /// trailing entry count.
    pub open spec fn spec_size(&self) -> int {
        self.data@.len() + 2 * (self.offsets@.len() + 1) as int
    }

    /// Whether an entry of the given key and value is accepted: the first
    /// entry always is, later ones only within the budget.
    pub open spec fn spec_accepts(&self, key: Seq<u8>, value: Seq<u8>) -> bool {
        self.spec_is_empty() || self.spec_size() + key.len() + value.len() + 2
            <= self.block_size
    }

    /// The entries accepted so far.
    pub open spec fn spec_entries(&self) -> Seq<(Seq<u8>, Seq<u8>)> {
        block_entries(self.data@, self.offsets@)
    }

    /// The key of the most recently accepted entry.
    pub open spec fn spec_last_key(&self) -> Seq<u8> {
        key_at(self.data@, self.offsets@, self.offsets@.len() - 1)
    }

    /// Creates an empty builder with the given soft size budget.
    pub fn new(block_size: usize) -> (r: BlockBuilder)
        requires
            block_size <= 0x10000,
        ensures
            r.wf(),
            r.spec_is_empty(),
            r.block_size == block_size,
    {
        BlockBuilder {
            offsets: Vec::new(),
            data: Vec::new(),
            block_size,
            first_key: Vec::new(),
        }
    }

    /// The current serialized size of the block under construction.
    fn size(&self) -> (r: usize)
        requires
            self.wf(),
        ensures
            r == self.spec_size(),
    {
        proof {
            lemma_block_size_bounds(self.data@, self.offsets@);
        }
        self.data.len() + 2 * (self.offsets.len() + 1)
    }

    /// Checks if no entry has been accepted.
    pub fn is_empty(&self) -> (r: bool)
        requires
            self.wf(),
        ensures
            r == self.spec_is_empty(),
    {
        self.offsets.is_empty()
    }

    /// Appends an entry. Returns `false`, leaving the builder unchanged, when
    /// the entry would exceed the budget and the builder already holds one.
    /// Keys must arrive in strictly increasing order; the builder does not
    /// validate that.
    #[verifier::rlimit(60)]
    pub fn add(&mut self, key: &[u8], value: &[u8]) -> (r: bool)
        requires
            old(self).wf(),
            1 <= key@.len() <= 0xFFFF,
            value@.len() <= 0xFFFF,
            !old(self).spec_is_empty() ==> lex_lt(old(self).spec_last_key(), key@),
        ensures
            final(self).wf(),
            final(self).block_size == old(self).block_size,
            r == old(self).spec_accepts(key@, value@),
            r ==> {
                &&& final(self).data@ == old(self).data@ + entry_encoding(key@, value@)
                &&& final(self).offsets@ == old(self).offsets@.push(
                    old(self).data@.len() as u16,
                )
                &&& final(self).spec_entries() == old(self).spec_entries().push((key@, value@))
                &&& final(self).first_key@ == if old(self).spec_is_empty() {
                    key@
                } else {
                    old(self).first_key@
                }
            },
            !r ==> *final(self) == *old(self),
    {
        proof {
            lemma_block_size_bounds(self.data@, self.offsets@);
        }
        let key_len: usize = key.len();
        let val_len: usize = value.len();
        if !self.first_key.is_empty() && self.size() + key_len + val_len + 2 > self.block_size {
            return false;
        }
        proof {
            // An accepted entry of a non-empty builder fits the budget, so the
            // new entry's offset fits in sixteen bits.
            assert(self.data@.len() <= 0xFFFF);
        }
        let ghost old_data = self.data@;
        let ghost old_offsets = self.offsets@;
        let ghost n = old_offsets.len() as int;
        if self.first_key.is_empty() {
            self.first_key = slice_to_vec(key);
        }
        let off: u16 = self.data.len() as u16;
        self.offsets.push(off);
        put_u16_le(&mut self.data, key_len as u16);
        put_bytes(&mut self.data, key);
        put_u16_le(&mut self.data, val_len as u16);
        put_bytes(&mut self.data, value);
        proof {
            let d = self.data@;
            let o = self.offsets@;
            let start = old_data.len() as int;
            let enc = entry_encoding(key@, value@);
            assert(d =~= old_data + enc);
            lemma_u16_le_round_trip(key_len as u16);
            lemma_u16_le_round_trip(val_len as u16);
            // The freshly appended entry parses back to (key, value).
            assert(d.subrange(start, start + 2) =~= u16_le_bytes(key_len as u16));
            assert(entry_key_len(d, start) == key@.len());
            assert(d.subrange(start + 2, start + 2 + key@.len()) =~= key@);
            assert(entry_key(d, start) == key@);
            assert(d.subrange(
                start + 2 + key@.len(),
                start + 4 + key@.len(),
            ) =~= u16_le_bytes(val_len as u16));
            assert(entry_val_len(d, start) == value@.len());
            assert(entry_end(d, start) == d.len());
            assert(d.subrange(start + 4 + key@.len(), d.len() as int) =~= value@);
            assert(entry_val(d, start) == value@);
            // Entries already present are untouched.
            assert forall|i: int| 0 <= i < n implies {
                &&& entry_fits(d, #[trigger] o[i] as int)
                &&& entry_key(d, o[i] as int) == entry_key(old_data, o[i] as int)
                &&& entry_val(d, o[i] as int) == entry_val(old_data, o[i] as int)
                &&& entry_end(d, o[i] as int) == entry_end(old_data, o[i] as int)
            } by {
                assert(o[i] == old_offsets[i]);
                lemma_entry_stable_under_extension(old_data, d, old_offsets[i] as int);
            }
            assert(block_wf(d, o)) by {
                if n > 0 {
                    assert(o[n] as int == entry_end(d, o[n - 1] as int));
                }
            }
            assert(block_sorted(d, o)) by {
                assert forall|i: int, j: int| 0 <= i < j < o.len() implies lex_lt(
                    #[trigger] key_at(d, o, i),
                    #[trigger] key_at(d, o, j),
                ) by {
                    if j < n {
                        assert(key_at(old_data, old_offsets, i) == key_at(d, o, i));
                        assert(key_at(old_data, old_offsets, j) == key_at(d, o, j));
                    } else {
                        assert(key_at(d, o, j) == key@);
                        assert(key_at(d, o, i) == key_at(old_data, old_offsets, i));
                        if i < n - 1 {
                            lemma_lex_lt_trans(
                                key_at(old_data, old_offsets, i),
                                key_at(old_data, old_offsets, n - 1),
                                key@,
                            );
                        }
                    }
                }
            }
            assert(block_keys_nonempty(d, o)) by {
                assert forall|i: int| 0 <= i < o.len() implies #[trigger] key_at(
                    d,
                    o,
                    i,
                ).len() > 0 by {
                    if i < n {
                        assert(key_at(old_data, old_offsets, i).len() > 0);
                    } else {
                        assert(key_at(d, o, i) == key@);
                    }
                }
            }
            assert(self.spec_entries() =~= block_entries(old_data, old_offsets).push(
                (key@, value@),
            ));
            if n > 0 {
                assert(key_at(d, o, 0) == key_at(old_data, old_offsets, 0));
            }
        }
        true
    }

    /// Finalizes the block, consuming the builder.
    pub fn build(self) -> (r: Block)
        requires
            self.wf(),
        ensures
            r.data@ == self.data@,
            r.offsets@ == self.offsets@,
            r.wf(),
            r.sorted(),
            r.keys_nonempty(),
            r.spec_entries() == self.spec_entries(),
    {
        Block { data: self.data, offsets: self.offsets }
    }
}

} // verus!
