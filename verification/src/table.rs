//! The sorted string table (SST): a file image holding encoded blocks, a meta
//! section indexing them, and a four-byte footer with the meta section's
//! offset.
//!
//! ```text
//! block_0 .. block_{m-1}    (each a block encoding)
//! meta section              (count and per-block records)
//! u32_le meta_offset        (footer)
//! ```

use crate::block::{
    block_entries, block_keys_nonempty, block_sorted, enc_data, enc_offsets, is_block_encoding,
    key_at, Block,
};
use crate::bytes_ext::{bytes_as_slice, bytes_clone, bytes_view};
use crate::keys::{
    compare_keys, lemma_lex_le_lt_trans, lemma_lex_lt_trans, lex_le, lex_lt, KeyOrdering,
};
use crate::meta::{metas_view, parse_meta_section, BlockMeta, BlockMetaView};
use crate::wire::{get_u32_le, u32_of_le};
use vstd::prelude::*;
use std::sync::Arc;

verus! {

/// A file image: the bytes, or none for a metadata-only stand-in, plus the
/// size the file reports.
pub struct FileObject(pub Option<Vec<u8>>, pub u64);

impl FileObject {
    /// The bytes held, empty for a metadata-only stand-in.
    pub open spec fn spec_data(&self) -> Seq<u8> {
        match self.0 {
            Option::Some(d) => d@,
            Option::None => Seq::empty(),
        }
    }

    /// The reported size matches the bytes held.
    pub open spec fn wf(&self) -> bool {
        self.0 is Some ==> self.spec_data().len() == self.1
    }

    /// Wraps a byte image.
    pub fn from_vec(data: Vec<u8>) -> (r: FileObject)
        ensures
            r.wf(),
            r.0 is Some,
            r.spec_data() == data@,
            r.1 == data@.len(),
    {
        let size = data.len() as u64;
        FileObject(Some(data), size)
    }

    /// Reads `len` bytes starting at `offset`.
    pub fn read(&self, offset: u64, len: u64) -> (r: Vec<u8>)
        requires
            self.wf(),
            self.0 is Some,
            offset + len <= self.1,
        ensures
            r@ == self.spec_data().subrange(offset as int, offset as int + len as int),
    {
        match &self.0 {
            Some(d) => {
                let dlen: usize = d.len();
                proof {
                    assert(offset + len <= dlen);
                }
                let start = offset as usize;
                let end = (offset + len) as usize;
                let mut out: Vec<u8> = Vec::new();
                let mut i: usize = start;
                while i < end
                    invariant
                        start <= i <= end,
                        end <= d@.len(),
                        d@ == self.spec_data(),
                        out@ == self.spec_data().subrange(start as int, i as int),
                    decreases end - i,
                {
                    out.push(d[i]);
                    proof {
                        assert(out@ =~= self.spec_data().subrange(start as int, i as int + 1));
                    }
                    i = i + 1;
                }
                proof {
                    if start == end {
                        assert(out@ =~= self.spec_data().subrange(start as int, end as int));
                    }
                }
                out
            },
            None => {
                proof {
                    assert(false);
                }
                Vec::new()
            },
        }
    }

    /// The size the file reports.
    pub fn size(&self) -> (r: u64)
        ensures
            r == self.1,
    {
        self.1
    }
}

/// The meta-section offset read from the image's footer.
pub open spec fn image_footer(b: Seq<u8>) -> int
    recommends
        b.len() >= 4,
{
    u32_of_le(b.subrange(b.len() - 4, b.len() as int))
}

/// The serialized meta section of the image.
pub open spec fn image_meta_bytes(b: Seq<u8>) -> Seq<u8> {
    b.subrange(image_footer(b), b.len() - 4)
}

/// The block meta records of the image.
pub open spec fn image_metas(b: Seq<u8>) -> Seq<BlockMetaView> {
    parse_meta_section(image_meta_bytes(b)).unwrap()
}

/// Where block `i`'s encoding ends: the next block's offset, or the meta
/// section for the last block.
pub open spec fn image_block_end(b: Seq<u8>, i: int) -> int {
    if i + 1 < image_metas(b).len() {
        image_metas(b)[i + 1].offset
    } else {
        image_footer(b)
    }
}

/// The bytes of block `i`'s encoding.
pub open spec fn image_block_bytes(b: Seq<u8>, i: int) -> Seq<u8> {
    b.subrange(image_metas(b)[i].offset, image_block_end(b, i))
}

/// Block `i` of the image is a well-formed sorted block whose first and last
/// keys are the ones its meta record carries.
pub open spec fn image_block_ok(b: Seq<u8>, i: int) -> bool {
    let bb = image_block_bytes(b, i);
    let m = image_metas(b)[i];
    &&& 0 <= m.offset <= image_block_end(b, i) <= image_footer(b)
    &&& is_block_encoding(bb)
    &&& enc_offsets(bb).len() > 0
    &&& block_sorted(enc_data(bb), enc_offsets(bb))
    &&& block_keys_nonempty(enc_data(bb), enc_offsets(bb))
    &&& m.first_key == key_at(enc_data(bb), enc_offsets(bb), 0)
    &&& m.last_key == key_at(enc_data(bb), enc_offsets(bb), enc_offsets(bb).len() - 1)
}

/// A well-formed table image: a parsable meta section indexing sorted,
/// pairwise-ordered blocks.
pub open spec fn is_table_image(b: Seq<u8>) -> bool {
    &&& b.len() >= 12
    &&& 0 <= image_footer(b) <= b.len() - 4
    &&& parse_meta_section(image_meta_bytes(b)) is Some
    &&& image_metas(b).len() >= 1
    &&& forall|i: int| 0 <= i < image_metas(b).len() ==> image_block_ok(b, i)
    &&& forall|i: int|
        0 <= i < image_metas(b).len() - 1 ==> lex_lt(
            (#[trigger] image_metas(b)[i]).last_key,
            image_metas(b)[i + 1].first_key,
        )
}

/// An SSTable: the file image, its decoded block meta, and the cached first
/// and last key of the whole table.
pub struct SsTable {
    /// The backing file image.
    pub file: FileObject,
    /// The decoded per-block meta records.
    pub block_meta: Vec<BlockMeta>,
    /// Where the meta section starts in the file.
    pub block_meta_offset: usize,
    /// The table id.
    pub id: usize,
    /// The first key of the table.
    pub first_key: bytes::Bytes,
    /// The last key of the table.
    pub last_key: bytes::Bytes,
    /// The maximum timestamp stored in this table.
    pub max_ts: u64,
}

impl SsTable {
    /// Well-formed table: the image is well-formed and the decoded fields
    /// match it.
    pub open spec fn wf(&self) -> bool {
        &&& self.file.wf()
        &&& self.file.0 is Some
        &&& is_table_image(self.file.spec_data())
        &&& metas_view(self.block_meta@) == image_metas(self.file.spec_data())
        &&& self.block_meta_offset as int == image_footer(self.file.spec_data())
        &&& bytes_view(self.first_key) == image_metas(self.file.spec_data())[0].first_key
        &&& bytes_view(self.last_key) == image_metas(self.file.spec_data())[image_metas(
            self.file.spec_data(),
        ).len() - 1].last_key
    }

    /// Number of data blocks.
    pub open spec fn spec_num_blocks(&self) -> int {
        self.block_meta@.len() as int
    }

    /// The data region of block `i`.
    pub open spec fn spec_block_data(&self, i: int) -> Seq<u8> {
        enc_data(image_block_bytes(self.file.spec_data(), i))
    }

    /// The offset table of block `i`.
    pub open spec fn spec_block_offsets(&self, i: int) -> Seq<u16> {
        enc_offsets(image_block_bytes(self.file.spec_data(), i))
    }

    /// The entries of block `i`.
    pub open spec fn spec_block_entries(&self, i: int) -> Seq<(Seq<u8>, Seq<u8>)> {
        block_entries(self.spec_block_data(i), self.spec_block_offsets(i))
    }

    /// Opens a table from a file image: reads the footer, then decodes the
    /// meta section, and caches the first and last key. Callers pass only
    /// builder-produced images.
    pub fn open(id: usize, file: FileObject) -> (r: SsTable)
        requires
            file.wf(),
            file.0 is Some,
            is_table_image(file.spec_data()),
            forall|i: int|
                0 <= i < image_metas(file.spec_data()).len() ==> (#[trigger] image_metas(
                    file.spec_data(),
                )[i]).offset <= usize::MAX,
        ensures
            r.wf(),
            r.id == id,
            r.file == file,
            r.max_ts == 0,
            metas_view(r.block_meta@) == image_metas(file.spec_data()),
            r.block_meta_offset as int == image_footer(file.spec_data()),
    {
        let ghost data = file.spec_data();
        let size = file.size();
        let footer = file.read(size - 4, 4);
        let meta_off32 = get_u32_le(footer.as_slice(), 0);
        proof {
            assert(footer@.subrange(0, 4) =~= footer@);
            assert(footer@ == data.subrange(data.len() - 4, data.len() as int));
            assert(meta_off32 as int == image_footer(data));
        }
        let meta_off = meta_off32 as usize;
        let meta_bytes = file.read(meta_off as u64, size - 4 - meta_off as u64);
        proof {
            assert(meta_bytes@ =~= image_meta_bytes(data));
        }
        let metas = BlockMeta::decode_block_meta(meta_bytes.as_slice());
        proof {
            assert(metas_view(metas@) == image_metas(data));
            assert(metas@.len() == image_metas(data).len());
            assert(metas@[0]@ == image_metas(data)[0]);
            assert(metas@[metas@.len() - 1]@ == image_metas(data)[image_metas(data).len() - 1]);
        }
        let first_key = bytes_clone(&metas[0].first_key);
        let last_idx = metas.len() - 1;
        let last_key = bytes_clone(&metas[last_idx].last_key);
        SsTable {
            file,
            block_meta: metas,
            block_meta_offset: meta_off,
            id,
            first_key,
            last_key,
            max_ts: 0,
        }
    }

    /// A metadata-only stand-in carrying just a size and the key range.
    pub fn create_meta_only(
        id: usize,
        file_size: u64,
        first_key: bytes::Bytes,
        last_key: bytes::Bytes,
    ) -> (r: SsTable)
        ensures
            r.id == id,
            r.file.1 == file_size,
            r.file.0 is None,
            r.block_meta@.len() == 0,
            bytes_view(r.first_key) == bytes_view(first_key),
            bytes_view(r.last_key) == bytes_view(last_key),
            r.max_ts == 0,
    {
        SsTable {
            file: FileObject(None, file_size),
            block_meta: Vec::new(),
            block_meta_offset: 0,
            id,
            first_key,
            last_key,
            max_ts: 0,
        }
    }

    /// Reads block `block_idx` out of the file image and decodes it. The
    /// block's byte length is the gap to the next block, or to the meta
    /// section for the last block.
    pub fn read_block(&self, block_idx: usize) -> (r: Arc<Block>)
        requires
            self.wf(),
            block_idx < self.spec_num_blocks(),
        ensures
            (*r).wf(),
            (*r).sorted(),
            (*r).keys_nonempty(),
            (*r).data@ == self.spec_block_data(block_idx as int),
            (*r).offsets@ == self.spec_block_offsets(block_idx as int),
            (*r).num_entries() > 0,
    {
        let ghost data = self.file.spec_data();
        proof {
            assert(image_block_ok(data, block_idx as int));
            assert(self.block_meta@[block_idx as int]@ == image_metas(data)[block_idx as int]);
            if block_idx as int + 1 < self.spec_num_blocks() {
                assert(self.block_meta@[block_idx as int + 1]@ == image_metas(
                    data,
                )[block_idx as int + 1]);
            }
        }
        let num: usize = self.block_meta.len();
        let offset = self.block_meta[block_idx].offset;
        let end = if block_idx + 1 < num {
            self.block_meta[block_idx + 1].offset
        } else {
            self.block_meta_offset
        };
        let bytes = self.file.read(offset as u64, (end - offset) as u64);
        proof {
            assert(bytes@ =~= image_block_bytes(data, block_idx as int));
        }
        let block = Block::decode(bytes.as_slice());
        Arc::new(block)
    }

    /// Reads a block through the block cache. The cache itself is an outside
    /// collaborator of the engine; without one attached this reads directly.
    pub fn read_block_cached(&self, block_idx: usize) -> (r: Arc<Block>)
        requires
            self.wf(),
            block_idx < self.spec_num_blocks(),
        ensures
            (*r).wf(),
            (*r).sorted(),
            (*r).keys_nonempty(),
            (*r).data@ == self.spec_block_data(block_idx as int),
            (*r).offsets@ == self.spec_block_offsets(block_idx as int),
            (*r).num_entries() > 0,
    {
        self.read_block(block_idx)
    }

    /// Finds the rightmost block whose first key is `<=` the probe, clamped
    /// to block zero: the only block that may contain the probe.
    #[verifier::rlimit(60)]
    pub fn find_block_idx(&self, key: &[u8]) -> (r: usize)
        requires
            self.wf(),
        ensures
            r < self.spec_num_blocks(),
            r > 0 ==> lex_le(self.block_meta@[r as int]@.first_key, key@),
            forall|j: int|
                r < j < self.spec_num_blocks() ==> lex_lt(
                    key@,
                    (#[trigger] self.block_meta@[j]@).first_key,
                ),
    {
        proof {
            lemma_table_first_keys_sorted(self);
        }
        let num = self.block_meta.len();
        let mut lo: usize = 0;
        let mut hi: usize = num;
        while lo < hi
            invariant
                0 <= lo <= hi <= num,
                num == self.spec_num_blocks(),
                lo > 0 ==> lex_le(self.block_meta@[lo as int - 1]@.first_key, key@),
                hi < num ==> lex_lt(key@, self.block_meta@[hi as int]@.first_key),
                forall|i: int, j: int|
                    0 <= i < j < self.spec_num_blocks() ==> lex_lt(
                        (#[trigger] self.block_meta@[i]@).first_key,
                        (#[trigger] self.block_meta@[j]@).first_key,
                    ),
            decreases hi - lo,
        {
            let mid = lo + (hi - lo) / 2;
            let fk = bytes_as_slice(&self.block_meta[mid].first_key);
            match compare_keys(fk, key) {
                KeyOrdering::Greater => {
                    hi = mid;
                },
                _ => {
                    lo = mid + 1;
                },
            }
        }
        proof {
            assert forall|j: int| lo <= j < self.spec_num_blocks() implies lex_lt(
                key@,
                (#[trigger] self.block_meta@[j]@).first_key,
            ) by {
                if j > lo as int {
                    lemma_lex_lt_trans(
                        key@,
                        self.block_meta@[lo as int]@.first_key,
                        self.block_meta@[j]@.first_key,
                    );
                }
            }
        }
        if lo == 0 {
            0
        } else {
            lo - 1
        }
    }

    /// Number of data blocks.
    pub fn num_of_blocks(&self) -> (r: usize)
        ensures
            r == self.spec_num_blocks(),
    {
        self.block_meta.len()
    }

    /// The first key of the table.
    pub fn first_key(&self) -> (r: &bytes::Bytes)
        ensures
            bytes_view(*r) == bytes_view(self.first_key),
    {
        &self.first_key
    }

    /// The last key of the table.
    pub fn last_key(&self) -> (r: &bytes::Bytes)
        ensures
            bytes_view(*r) == bytes_view(self.last_key),
    {
        &self.last_key
    }

    /// The table file's size in bytes.
    pub fn table_size(&self) -> (r: u64)
        ensures
            r == self.file.1,
    {
        self.file.1
    }

    /// The table id.
    pub fn sst_id(&self) -> (r: usize)
        ensures
            r == self.id,
    {
        self.id
    }

    /// The maximum timestamp stored in this table.
    pub fn max_ts(&self) -> (r: u64)
        ensures
            r == self.max_ts,
    {
        self.max_ts
    }
}

/// All entries of the table from block `i` on, in order.
pub open spec fn entries_from_block(t: SsTable, i: int) -> Seq<(Seq<u8>, Seq<u8>)>
    decreases t.spec_num_blocks() - i,
{
    if i < 0 || i >= t.spec_num_blocks() {
        Seq::empty()
    } else {
        t.spec_block_entries(i) + entries_from_block(t, i + 1)
    }
}

/// Within one block, the first key is `<=` the last key.
pub proof fn lemma_block_first_le_last(t: &SsTable, i: int)
    requires
        t.wf(),
        0 <= i < t.spec_num_blocks(),
    ensures
        lex_le(t.block_meta@[i]@.first_key, t.block_meta@[i]@.last_key),
{
    let data = t.file.spec_data();
    assert(image_block_ok(data, i));
    assert(t.block_meta@[i]@ == image_metas(data)[i]);
    let bb = image_block_bytes(data, i);
    let n = enc_offsets(bb).len() as int;
    if n > 1 {
        assert(lex_lt(
            key_at(enc_data(bb), enc_offsets(bb), 0),
            key_at(enc_data(bb), enc_offsets(bb), n - 1),
        ));
    }
}

/// The blocks' first keys are strictly increasing.
pub proof fn lemma_table_first_keys_sorted(t: &SsTable)
    requires
        t.wf(),
    ensures
        forall|i: int, j: int|
            0 <= i < j < t.spec_num_blocks() ==> lex_lt(
                (#[trigger] t.block_meta@[i]@).first_key,
                (#[trigger] t.block_meta@[j]@).first_key,
            ),
{
    let data = t.file.spec_data();
    assert forall|i: int, j: int| 0 <= i < j < t.spec_num_blocks() implies lex_lt(
        (#[trigger] t.block_meta@[i]@).first_key,
        (#[trigger] t.block_meta@[j]@).first_key,
    ) by {
        lemma_first_key_chain(t, i, j);
    }
}

proof fn lemma_first_key_chain(t: &SsTable, i: int, j: int)
    requires
        t.wf(),
        0 <= i < j < t.spec_num_blocks(),
    ensures
        lex_lt(t.block_meta@[i]@.first_key, t.block_meta@[j]@.first_key),
    decreases j - i,
{
    let data = t.file.spec_data();
    assert(t.block_meta@[i]@ == image_metas(data)[i]);
    assert(t.block_meta@[i + 1]@ == image_metas(data)[i + 1]);
    lemma_block_first_le_last(t, i);
    assert(lex_lt(image_metas(data)[i].last_key, image_metas(data)[i + 1].first_key));
    lemma_lex_le_lt_trans(
        t.block_meta@[i]@.first_key,
        t.block_meta@[i]@.last_key,
        t.block_meta@[i + 1]@.first_key,
    );
    if i + 1 < j {
        lemma_first_key_chain(t, i + 1, j);
        lemma_lex_lt_trans(
            t.block_meta@[i]@.first_key,
            t.block_meta@[i + 1]@.first_key,
            t.block_meta@[j]@.first_key,
        );
    }
}

/// Every key of block `i` lies in the closed interval of its meta record's
/// first and last key.
pub proof fn lemma_block_keys_within_meta(t: &SsTable, i: int, j: int)
    requires
        t.wf(),
        0 <= i < t.spec_num_blocks(),
        0 <= j < t.spec_block_entries(i).len(),
    ensures
        lex_le(t.block_meta@[i]@.first_key, t.spec_block_entries(i)[j].0),
        lex_le(t.spec_block_entries(i)[j].0, t.block_meta@[i]@.last_key),
{
    let data = t.file.spec_data();
    assert(image_block_ok(data, i));
    assert(t.block_meta@[i]@ == image_metas(data)[i]);
    let bb = image_block_bytes(data, i);
    let n = enc_offsets(bb).len() as int;
    assert(t.spec_block_entries(i)[j].0 == key_at(enc_data(bb), enc_offsets(bb), j));
    if j > 0 {
        assert(lex_lt(
            key_at(enc_data(bb), enc_offsets(bb), 0),
            key_at(enc_data(bb), enc_offsets(bb), j),
        ));
    }
    if j < n - 1 {
        assert(lex_lt(
            key_at(enc_data(bb), enc_offsets(bb), j),
            key_at(enc_data(bb), enc_offsets(bb), n - 1),
        ));
    }
}

} // verus!
