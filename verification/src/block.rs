//! The block: the smallest unit of read and caching. A packed, sorted run of
//! key/value entries over a contiguous `data` region, indexed by an `offsets`
//! table of 16-bit entry starts.
//!
//! Wire layout of an encoded block:
//!
//! ```text
//! entry_0 .. entry_{n-1}   (data region)
//! u16_le offset_0 .. u16_le offset_{n-1}
//! u16_le n
//! ```
//!
//! Each entry is `u16_le key_len, key bytes, u16_le value_len, value bytes`.

use crate::bytes_ext::{bytes_copy_from_slice, bytes_view};
use crate::keys::{compare_keys, lemma_lex_le_lt_trans, lex_le, lex_lt, KeyOrdering};
use crate::wire::{
    get_u16_le, lemma_u16_le_round_trip, put_u16_le, u16_le_bytes, u16_of_le,
};
use vstd::prelude::*;
use vstd::slice::{slice_subrange, slice_to_vec};

verus! {

/// Key length stored in the entry header at byte offset `o` of `data`.
pub open spec fn entry_key_len(data: Seq<u8>, o: int) -> int {
    u16_of_le(data.subrange(o, o + 2))
}

/// Value length stored in the entry header at byte offset `o` of `data`.
pub open spec fn entry_val_len(data: Seq<u8>, o: int) -> int {
    u16_of_le(
        data.subrange(o + 2 + entry_key_len(data, o), o + 4 + entry_key_len(data, o)),
    )
}

/// One past the last byte of the entry starting at `o`.
pub open spec fn entry_end(data: Seq<u8>, o: int) -> int {
    o + 4 + entry_key_len(data, o) + entry_val_len(data, o)
}

/// The key of the entry starting at `o`.
pub open spec fn entry_key(data: Seq<u8>, o: int) -> Seq<u8> {
    data.subrange(o + 2, o + 2 + entry_key_len(data, o))
}

/// The value of the entry starting at `o`.
pub open spec fn entry_val(data: Seq<u8>, o: int) -> Seq<u8> {
    data.subrange(o + 4 + entry_key_len(data, o), entry_end(data, o))
}

/// The entry starting at `o` lies entirely within `data`.
pub open spec fn entry_fits(data: Seq<u8>, o: int) -> bool {
    &&& 0 <= o
    &&& o + 2 <= data.len()
    &&& o + 4 + entry_key_len(data, o) <= data.len()
    &&& entry_end(data, o) <= data.len()
}

/// The serialized form of one entry.
pub open spec fn entry_encoding(key: Seq<u8>, value: Seq<u8>) -> Seq<u8>
    recommends
        key.len() <= 0xFFFF,
        value.len() <= 0xFFFF,
{
    u16_le_bytes(key.len() as u16) + key + u16_le_bytes(value.len() as u16) + value
}

/// Well-formed block contents: `offsets` lists the starts of consecutive
/// entries that exactly tile `data`.
pub open spec fn block_wf(data: Seq<u8>, offsets: Seq<u16>) -> bool {
    &&& forall|i: int| 0 <= i < offsets.len() ==> entry_fits(data, #[trigger] offsets[i] as int)
    &&& offsets.len() > 0 ==> offsets[0] == 0
    &&& forall|i: int|
        0 <= i < offsets.len() - 1 ==> (#[trigger] offsets[i + 1]) as int == entry_end(
            data,
            offsets[i] as int,
        )
    &&& if offsets.len() == 0 {
        data.len() == 0
    } else {
        entry_end(data, offsets[offsets.len() - 1] as int) == data.len()
    }
}

/// The key of entry `i`.
pub open spec fn key_at(data: Seq<u8>, offsets: Seq<u16>, i: int) -> Seq<u8> {
    entry_key(data, offsets[i] as int)
}

/// The value of entry `i`.
pub open spec fn val_at(data: Seq<u8>, offsets: Seq<u16>, i: int) -> Seq<u8> {
    entry_val(data, offsets[i] as int)
}

/// All entries of the block, in index order.
pub open spec fn block_entries(data: Seq<u8>, offsets: Seq<u16>) -> Seq<(Seq<u8>, Seq<u8>)> {
    Seq::new(offsets.len(), |i: int| (key_at(data, offsets, i), val_at(data, offsets, i)))
}

/// Entries are strictly sorted by key.
pub open spec fn block_sorted(data: Seq<u8>, offsets: Seq<u16>) -> bool {
    forall|i: int, j: int|
        0 <= i < j < offsets.len() ==> lex_lt(
            #[trigger] key_at(data, offsets, i),
            #[trigger] key_at(data, offsets, j),
        )
}

/// Every entry carries a non-empty key (the empty key is the iterator's
/// "invalid" sentinel).
pub open spec fn block_keys_nonempty(data: Seq<u8>, offsets: Seq<u16>) -> bool {
    forall|i: int| 0 <= i < offsets.len() ==> #[trigger] key_at(data, offsets, i).len() > 0
}

/// The little-endian bytes of the offset table.
pub open spec fn offsets_bytes(offsets: Seq<u16>) -> Seq<u8>
    decreases offsets.len(),
{
    if offsets.len() == 0 {
        Seq::empty()
    } else {
        u16_le_bytes(offsets[0]) + offsets_bytes(offsets.skip(1))
    }
}

/// The full encoding of a block: data region, offset table, entry count.
pub open spec fn block_encoding(data: Seq<u8>, offsets: Seq<u16>) -> Seq<u8>
    recommends
        offsets.len() <= 0xFFFF,
{
    data + offsets_bytes(offsets) + u16_le_bytes(offsets.len() as u16)
}

/// The entry count read from the tail of an encoded block.
pub open spec fn enc_count(b: Seq<u8>) -> int
    recommends
        b.len() >= 2,
{
    u16_of_le(b.subrange(b.len() - 2, b.len() as int))
}

/// The length of the data region of an encoded block.
pub open spec fn enc_data_len(b: Seq<u8>) -> int {
    b.len() - 2 - 2 * enc_count(b)
}

/// The data region of an encoded block.
pub open spec fn enc_data(b: Seq<u8>) -> Seq<u8> {
    b.subrange(0, enc_data_len(b))
}

/// The offset table of an encoded block.
pub open spec fn enc_offsets(b: Seq<u8>) -> Seq<u16> {
    Seq::new(
        enc_count(b) as nat,
        |i: int| u16_of_le(b.subrange(enc_data_len(b) + 2 * i, enc_data_len(b) + 2 * i + 2)) as u16,
    )
}

/// `b` is the encoding of some well-formed block (namely of
/// `enc_data(b)` / `enc_offsets(b)`).
#[verifier::opaque]
pub open spec fn is_block_encoding(b: Seq<u8>) -> bool {
    &&& b.len() >= 2
    &&& enc_data_len(b) >= 0
    &&& block_wf(enc_data(b), enc_offsets(b))
    &&& b == block_encoding(enc_data(b), enc_offsets(b))
}

/// The offset table's encoding is two bytes per offset.
pub proof fn lemma_offsets_bytes_len(offsets: Seq<u16>)
    ensures
        offsets_bytes(offsets).len() == 2 * offsets.len(),
    decreases offsets.len(),
{
    if offsets.len() > 0 {
        lemma_offsets_bytes_len(offsets.skip(1));
    }
}

/// Offset `i` occupies bytes `2*i .. 2*i + 2` of the offset table.
pub proof fn lemma_offsets_bytes_at(offsets: Seq<u16>, i: int)
    requires
        0 <= i < offsets.len(),
    ensures
        offsets_bytes(offsets).subrange(2 * i, 2 * i + 2) == u16_le_bytes(offsets[i]),
    decreases i,
{
    lemma_offsets_bytes_len(offsets);
    lemma_offsets_bytes_len(offsets.skip(1));
    if i == 0 {
        assert(offsets_bytes(offsets).subrange(0, 2) =~= u16_le_bytes(offsets[0]));
    } else {
        lemma_offsets_bytes_at(offsets.skip(1), i - 1);
        assert(offsets_bytes(offsets).subrange(2 * i, 2 * i + 2) =~= offsets_bytes(
            offsets.skip(1),
        ).subrange(2 * (i - 1), 2 * (i - 1) + 2));
        assert(offsets.skip(1)[i - 1] == offsets[i]);
    }
}

/// Appending one offset appends its two bytes.
pub proof fn lemma_offsets_bytes_snoc(offsets: Seq<u16>)
    requires
        offsets.len() > 0,
    ensures
        offsets_bytes(offsets) == offsets_bytes(offsets.drop_last()) + u16_le_bytes(
            offsets.last(),
        ),
    decreases offsets.len(),
{
    if offsets.len() == 1 {
        assert(offsets.drop_last() =~= Seq::<u16>::empty());
        assert(offsets.skip(1) =~= Seq::<u16>::empty());
        assert(offsets_bytes(Seq::<u16>::empty()) =~= Seq::<u8>::empty());
        assert(offsets_bytes(offsets) =~= offsets_bytes(offsets.drop_last()) + u16_le_bytes(
            offsets.last(),
        ));
    } else {
        lemma_offsets_bytes_snoc(offsets.skip(1));
        assert(offsets.skip(1).drop_last() =~= offsets.drop_last().skip(1));
        assert(offsets.skip(1).last() == offsets.last());
        assert(offsets_bytes(offsets) =~= offsets_bytes(offsets.drop_last()) + u16_le_bytes(
            offsets.last(),
        ));
    }
}

/// Entry starts grow by at least four bytes per entry.
pub proof fn lemma_offset_lower_bound(data: Seq<u8>, offsets: Seq<u16>, i: int)
    requires
        block_wf(data, offsets),
        0 <= i < offsets.len(),
    ensures
        offsets[i] as int >= 4 * i,
    decreases i,
{
    if i > 0 {
        lemma_offset_lower_bound(data, offsets, i - 1);
        assert(offsets[(i - 1) + 1] as int == entry_end(data, offsets[i - 1] as int));
    }
}

/// A well-formed block has at most 0x4000 entries and a bounded data region,
/// so its encoding fits comfortably in memory and its count fits in 16 bits.
pub proof fn lemma_block_size_bounds(data: Seq<u8>, offsets: Seq<u16>)
    requires
        block_wf(data, offsets),
    ensures
        offsets.len() <= 0x4000,
        data.len() <= 0x3_0003,
{
    if offsets.len() > 0 {
        let n = offsets.len() as int;
        lemma_offset_lower_bound(data, offsets, n - 1);
        assert(4 * (n - 1) <= 0xFFFF);
        let last = offsets[n - 1] as int;
        assert(data.len() == entry_end(data, last));
        assert(entry_key_len(data, last) <= 0xFFFF);
        assert(entry_val_len(data, last) <= 0xFFFF);
    }
}

/// Extending the data region to the right does not disturb an entry that
/// already fits.
pub proof fn lemma_entry_stable_under_extension(d1: Seq<u8>, d2: Seq<u8>, o: int)
    requires
        entry_fits(d1, o),
        d1.len() <= d2.len(),
        forall|j: int| 0 <= j < d1.len() ==> d1[j] == #[trigger] d2[j],
    ensures
        entry_fits(d2, o),
        entry_key_len(d2, o) == entry_key_len(d1, o),
        entry_val_len(d2, o) == entry_val_len(d1, o),
        entry_end(d2, o) == entry_end(d1, o),
        entry_key(d2, o) == entry_key(d1, o),
        entry_val(d2, o) == entry_val(d1, o),
{
    assert(d2.subrange(o, o + 2) =~= d1.subrange(o, o + 2));
    let kl = entry_key_len(d1, o);
    assert(d2.subrange(o + 2 + kl, o + 4 + kl) =~= d1.subrange(o + 2 + kl, o + 4 + kl));
    let vl = entry_val_len(d1, o);
    assert(d2.subrange(o + 2, o + 2 + kl) =~= d1.subrange(o + 2, o + 2 + kl));
    assert(d2.subrange(o + 4 + kl, o + 4 + kl + vl) =~= d1.subrange(o + 4 + kl, o + 4 + kl + vl));
}

/// Round trip at the format level: the encoding of a well-formed block parses
/// back to exactly the same data region and offset table.
pub proof fn lemma_block_encode_round_trip(data: Seq<u8>, offsets: Seq<u16>)
    requires
        block_wf(data, offsets),
    ensures
        is_block_encoding(block_encoding(data, offsets)),
        enc_data(block_encoding(data, offsets)) == data,
        enc_offsets(block_encoding(data, offsets)) == offsets,
{
    reveal(is_block_encoding);
    lemma_block_size_bounds(data, offsets);
    lemma_offsets_bytes_len(offsets);
    let n = offsets.len() as int;
    let b = block_encoding(data, offsets);
    lemma_u16_le_round_trip(n as u16);
    assert(b.len() == data.len() + 2 * n + 2);
    assert(b.subrange(b.len() - 2, b.len() as int) =~= u16_le_bytes(n as u16));
    assert(enc_count(b) == n);
    assert(enc_data_len(b) == data.len());
    assert(enc_data(b) =~= data);
    assert forall|i: int| 0 <= i < n implies enc_offsets(b)[i] == offsets[i] by {
        lemma_offsets_bytes_at(offsets, i);
        lemma_u16_le_round_trip(offsets[i]);
        assert(b.subrange(data.len() + 2 * i, data.len() + 2 * i + 2) =~= offsets_bytes(
            offsets,
        ).subrange(2 * i, 2 * i + 2));
    }
    assert(enc_offsets(b) =~= offsets);
}

/// A block: a contiguous `data` region of concatenated encoded entries and the
/// `offsets` of each entry's start, sorted by key.
pub struct Block {
    pub data: Vec<u8>,
    pub offsets: Vec<u16>,
}

impl Block {
    /// Well-formed contents.
    pub open spec fn wf(&self) -> bool {
        block_wf(self.data@, self.offsets@)
    }

    /// Entries strictly sorted by key.
    pub open spec fn sorted(&self) -> bool {
        block_sorted(self.data@, self.offsets@)
    }

    /// All keys non-empty.
    pub open spec fn keys_nonempty(&self) -> bool {
        block_keys_nonempty(self.data@, self.offsets@)
    }

    /// Number of entries.
    pub open spec fn num_entries(&self) -> int {
        self.offsets@.len() as int
    }

    /// The key of entry `i`.
    pub open spec fn spec_key_at(&self, i: int) -> Seq<u8> {
        key_at(self.data@, self.offsets@, i)
    }

    /// The value of entry `i`.
    pub open spec fn spec_val_at(&self, i: int) -> Seq<u8> {
        val_at(self.data@, self.offsets@, i)
    }

    /// All entries in index order.
    pub open spec fn spec_entries(&self) -> Seq<(Seq<u8>, Seq<u8>)> {
        block_entries(self.data@, self.offsets@)
    }

    /// Serializes the block: data region, little-endian offsets, entry count.
    pub fn encode_vec(&self) -> (r: Vec<u8>)
        requires
            self.wf(),
        ensures
            r@ == block_encoding(self.data@, self.offsets@),
            is_block_encoding(r@),
    {
        proof {
            lemma_block_size_bounds(self.data@, self.offsets@);
            lemma_block_encode_round_trip(self.data@, self.offsets@);
        }
        let mut content = self.data.clone();
        proof {
            assert(content@ =~= self.data@);
        }
        let num: usize = self.offsets.len();
        let mut i: usize = 0;
        while i < num
            invariant
                0 <= i <= num,
                num == self.offsets@.len(),
                self.offsets@.len() <= 0x4000,
                content@ == self.data@ + offsets_bytes(self.offsets@.take(i as int)),
            decreases num - i,
        {
            put_u16_le(&mut content, self.offsets[i]);
            proof {
                lemma_offsets_bytes_snoc(self.offsets@.take(i as int + 1));
                assert(self.offsets@.take(i as int + 1).drop_last() =~= self.offsets@.take(
                    i as int,
                ));
                assert(self.offsets@.take(i as int + 1).last() == self.offsets@[i as int]);
            }
            i = i + 1;
        }
        proof {
            assert(self.offsets@.take(num as int) =~= self.offsets@);
        }
        put_u16_le(&mut content, num as u16);
        content
    }

    /// Serializes the block into a shared immutable buffer.
    pub fn encode(&self) -> (r: bytes::Bytes)
        requires
            self.wf(),
        ensures
            bytes_view(r) == block_encoding(self.data@, self.offsets@),
            is_block_encoding(bytes_view(r)),
    {
        let content = self.encode_vec();
        bytes_copy_from_slice(content.as_slice())
    }

    /// Rebuilds a block from its encoding. Reads the trailing entry count,
    /// scans the entries to recover the data region length, then reads the
    /// offset table. Callers pass only builder-produced bytes; malformed input
    /// is outside the contract.
    pub fn decode(data: &[u8]) -> (r: Block)
        requires
            is_block_encoding(data@),
        ensures
            r.data@ == enc_data(data@),
            r.offsets@ == enc_offsets(data@),
            r.wf(),
            data@ == block_encoding(r.data@, r.offsets@),
    {
        let ghost d = enc_data(data@);
        let ghost o = enc_offsets(data@);
        proof {
            reveal(is_block_encoding);
            lemma_offsets_bytes_len(o);
            assert(forall|j: int|
                0 <= j < d.len() ==> data@[j] == #[trigger] d[j]) by {
                assert(forall|j: int| 0 <= j < d.len() ==> d[j] == data@.subrange(
                    0,
                    enc_data_len(data@),
                )[j]);
            }
        }
        let total: usize = data.len();
        let num = get_u16_le(data, total - 2) as usize;
        proof {
            assert(data@.subrange(total - 2, total as int) =~= data@.subrange(
                data@.len() - 2,
                data@.len() as int,
            ));
            assert(num == o.len());
            assert(d.len() == total - 2 - 2 * num);
        }
        // Scan the entries to find the end of the data region.
        let mut pos: usize = 0;
        let mut i: usize = 0;
        while i < num
            invariant
                0 <= i <= num,
                num == o.len(),
                total == data@.len(),
                d == enc_data(data@),
                o == enc_offsets(data@),
                is_block_encoding(data@),
                d.len() == total - 2 - 2 * num,
                forall|j: int| 0 <= j < d.len() ==> data@[j] == #[trigger] d[j],
                pos == if i < num {
                    o[i as int] as int
                } else {
                    d.len() as int
                },
            decreases num - i,
        {
            proof {
                reveal(is_block_encoding);
                assert(entry_fits(d, o[i as int] as int));
                lemma_entry_stable_under_extension(d, data@, o[i as int] as int);
            }
            let key_len = get_u16_le(data, pos) as usize;
            proof {
                assert(data@.subrange(pos as int, pos as int + 2) == data@.subrange(
                    o[i as int] as int,
                    o[i as int] as int + 2,
                ));
                assert(key_len == entry_key_len(data@, pos as int));
            }
            let val_len = get_u16_le(data, pos + 2 + key_len) as usize;
            proof {
                assert(val_len == entry_val_len(data@, pos as int));
                assert(entry_end(d, pos as int) <= d.len());
            }
            pos = pos + 4 + key_len + val_len;
            proof {
                assert(pos == entry_end(d, o[i as int] as int));
                if i as int + 1 < num {
                    assert(o[i as int + 1] as int == entry_end(d, o[i as int] as int));
                } else {
                    assert(entry_end(d, o[num - 1] as int) == d.len());
                }
            }
            i = i + 1;
        }
        let data_vec = slice_to_vec(slice_subrange(data, 0, pos));
        proof {
            if num == 0 {
                assert(d.len() == 0);
            }
            assert(data_vec@ =~= d);
        }
        let mut offsets_vec: Vec<u16> = Vec::new();
        let mut i: usize = 0;
        while i < num
            invariant
                0 <= i <= num,
                num == o.len(),
                total == data@.len(),
                o == enc_offsets(data@),
                is_block_encoding(data@),
                pos == enc_data_len(data@),
                pos + 2 * num + 2 == total,
                offsets_vec@ == o.take(i as int),
            decreases num - i,
        {
            let off = get_u16_le(data, pos + 2 * i);
            proof {
                reveal(is_block_encoding);
                assert(off as int == u16_of_le(
                    data@.subrange(
                        enc_data_len(data@) + 2 * (i as int),
                        enc_data_len(data@) + 2 * (i as int) + 2,
                    ),
                ));
                assert(o[i as int] as int == off as int);
            }
            offsets_vec.push(off);
            proof {
                assert(offsets_vec@ =~= o.take(i as int + 1));
            }
            i = i + 1;
        }
        proof {
            assert(o.take(num as int) =~= o);
        }
        Block { data: data_vec, offsets: offsets_vec }
    }

    /// The key of entry `idx`, copied out of the data region.
    pub fn key(&self, idx: usize) -> (r: Vec<u8>)
        requires
            self.wf(),
            idx < self.offsets@.len(),
        ensures
            r@ == self.spec_key_at(idx as int),
    {
        let offset = self.offsets[idx] as usize;
        let key_len = get_u16_le(self.data.as_slice(), offset) as usize;
        slice_to_vec(slice_subrange(self.data.as_slice(), offset + 2, offset + 2 + key_len))
    }

    /// The byte range of entry `idx`'s value within the data region.
    pub fn value_range(&self, idx: usize) -> (r: (usize, usize))
        requires
            self.wf(),
            idx < self.offsets@.len(),
        ensures
            r.0 <= r.1 <= self.data@.len(),
            self.data@.subrange(r.0 as int, r.1 as int) == self.spec_val_at(idx as int),
    {
        let offset = self.offsets[idx] as usize;
        let key_len = get_u16_le(self.data.as_slice(), offset) as usize;
        let val_len = get_u16_le(self.data.as_slice(), offset + 2 + key_len) as usize;
        (offset + 4 + key_len, offset + 4 + key_len + val_len)
    }

    /// The smallest entry index whose key is `>=` the probe, or the entry
    /// count when every key is smaller.
    pub fn seek_index(&self, key: &[u8]) -> (r: usize)
        requires
            self.wf(),
            self.sorted(),
        ensures
            0 <= r <= self.num_entries(),
            forall|j: int| 0 <= j < r ==> lex_lt(#[trigger] self.spec_key_at(j), key@),
            r < self.num_entries() ==> lex_le(key@, self.spec_key_at(r as int)),
    {
        let num: usize = self.offsets.len();
        let mut lo: usize = 0;
        let mut hi: usize = num;
        while lo < hi
            invariant
                0 <= lo <= hi <= num,
                num == self.offsets@.len(),
                self.wf(),
                self.sorted(),
                lo > 0 ==> lex_lt(self.spec_key_at(lo as int - 1), key@),
                hi < num ==> lex_le(key@, self.spec_key_at(hi as int)),
            decreases hi - lo,
        {
            let mid = lo + (hi - lo) / 2;
            let mid_key = self.key(mid);
            match compare_keys(mid_key.as_slice(), key) {
                KeyOrdering::Less => {
                    lo = mid + 1;
                },
                _ => {
                    hi = mid;
                },
            }
        }
        proof {
            assert forall|j: int| 0 <= j < lo implies lex_lt(
                #[trigger] self.spec_key_at(j),
                key@,
            ) by {
                if j < lo - 1 {
                    lemma_lex_le_lt_trans(
                        self.spec_key_at(j),
                        self.spec_key_at(lo as int - 1),
                        key@,
                    );
                }
            }
        }
        lo
    }
}

} // verus!
