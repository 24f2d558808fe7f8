//! Streams strictly-increasing entries into blocks and assembles the table
//! file image: encoded blocks, then the meta section, then the footer.

use crate::block::{
    block_encoding, block_entries, block_keys_nonempty, block_sorted, enc_data, enc_offsets,
    is_block_encoding, key_at, lemma_block_encode_round_trip, lemma_block_size_bounds,
};
use crate::block_builder::BlockBuilder;
use crate::bytes_ext::{bytes_copy_from_slice, bytes_view};
use crate::keys::lex_lt;
use crate::meta::{
    lemma_meta_section_round_trip, meta_bounded, meta_section_encoding, metas_view, BlockMeta,
    BlockMetaView,
};
use crate::table::{
    entries_from_block, image_block_bytes, image_block_ok, image_footer, image_meta_bytes,
    image_metas, is_table_image, FileObject, SsTable,
};
use crate::wire::{lemma_u32_le_round_trip, u32_le_bytes};
use vstd::prelude::*;
use vstd::slice::slice_to_vec;

verus! {

/// Where built block `i` ends: the next record's offset, or the end of the
/// accumulated data for the most recently finished block.
pub open spec fn built_block_end(data: Seq<u8>, metas: Seq<BlockMetaView>, i: int) -> int {
    if i + 1 < metas.len() {
        metas[i + 1].offset
    } else {
        data.len() as int
    }
}

/// The bytes of built block `i`.
pub open spec fn built_block_bytes(data: Seq<u8>, metas: Seq<BlockMetaView>, i: int) -> Seq<u8> {
    data.subrange(metas[i].offset, built_block_end(data, metas, i))
}

/// Built block `i` is a well-formed sorted block encoding matching its meta
/// record.
pub open spec fn built_block_ok(data: Seq<u8>, metas: Seq<BlockMetaView>, i: int) -> bool {
    let bb = built_block_bytes(data, metas, i);
    let m = metas[i];
    &&& 0 <= m.offset <= built_block_end(data, metas, i) <= data.len()
    &&& is_block_encoding(bb)
    &&& enc_offsets(bb).len() > 0
    &&& block_sorted(enc_data(bb), enc_offsets(bb))
    &&& block_keys_nonempty(enc_data(bb), enc_offsets(bb))
    &&& m.first_key == key_at(enc_data(bb), enc_offsets(bb), 0)
    &&& m.last_key == key_at(enc_data(bb), enc_offsets(bb), enc_offsets(bb).len() - 1)
}

/// The entries of the first `k` built blocks, in order.
pub open spec fn built_entries(data: Seq<u8>, metas: Seq<BlockMetaView>, k: int) -> Seq<
    (Seq<u8>, Seq<u8>),
>
    decreases k,
{
    if k <= 0 {
        Seq::empty()
    } else {
        let bb = built_block_bytes(data, metas, k - 1);
        built_entries(data, metas, k - 1) + block_entries(enc_data(bb), enc_offsets(bb))
    }
}

/// Entry lists depend only on the block bytes, not on the surrounding state.
pub proof fn lemma_built_entries_stable(
    d1: Seq<u8>,
    m1: Seq<BlockMetaView>,
    d2: Seq<u8>,
    m2: Seq<BlockMetaView>,
    k: int,
)
    requires
        forall|i: int|
            0 <= i < k ==> built_block_bytes(d2, m2, i) == #[trigger] built_block_bytes(d1, m1, i),
    ensures
        built_entries(d2, m2, k) == built_entries(d1, m1, k),
    decreases k,
{
    if k > 0 {
        lemma_built_entries_stable(d1, m1, d2, m2, k - 1);
    }
}

/// Builds an SSTable from strictly-increasing key/value entries.
pub struct SsTableBuilder {
    /// The block under construction.
    pub builder: BlockBuilder,
    /// The first key of the whole table, empty while nothing was added.
    pub first_key: Vec<u8>,
    /// The most recently added key.
    pub last_key: Vec<u8>,
    /// The encoded finished blocks.
    pub data: Vec<u8>,
    /// One record per started block.
    pub meta: Vec<BlockMeta>,
    /// The per-block soft size budget.
    pub block_size: usize,
}

impl SsTableBuilder {
    /// Number of blocks already encoded into `data`.
    pub open spec fn finished_count(&self) -> int {
        if self.builder.spec_is_empty() {
            self.meta@.len() as int
        } else {
            self.meta@.len() - 1
        }
    }

    /// All entries accepted so far, in order.
    pub open spec fn spec_entries(&self) -> Seq<(Seq<u8>, Seq<u8>)> {
        built_entries(self.data@, metas_view(self.meta@), self.finished_count())
            + self.builder.spec_entries()
    }

    /// Well-formed builder state.
    pub open spec fn wf(&self) -> bool {
        let metas = metas_view(self.meta@);
        &&& self.builder.wf()
        &&& self.builder.block_size == self.block_size
        &&& self.block_size <= 0x10000
        &&& forall|i: int|
            0 <= i < self.finished_count() ==> #[trigger] built_block_ok(self.data@, metas, i)
        &&& forall|i: int| 0 <= i < metas.len() ==> meta_bounded(#[trigger] metas[i])
        &&& forall|i: int|
            0 <= i < metas.len() - 1 ==> lex_lt(
                (#[trigger] metas[i]).last_key,
                metas[i + 1].first_key,
            )
        &&& !self.builder.spec_is_empty() ==> {
            &&& self.meta@.len() >= 1
            &&& metas[metas.len() - 1].offset == self.data@.len()
            &&& metas[metas.len() - 1].first_key == self.builder.first_key@
            &&& metas[metas.len() - 1].last_key == self.builder.spec_last_key()
        }
        &&& (self.meta@.len() == 0 <==> self.first_key@.len() == 0)
        &&& self.meta@.len() == 0 ==> {
            &&& self.builder.spec_is_empty()
            &&& self.data@.len() == 0
            &&& self.last_key@.len() == 0
        }
        &&& self.meta@.len() > 0 ==> {
            &&& self.first_key@ == metas[0].first_key
            &&& self.last_key@ == metas[metas.len() - 1].last_key
            &&& self.last_key@.len() > 0
            &&& self.first_key@.len() > 0
        }
    }

    /// Creates a builder with the given per-block size budget.
    pub fn new(block_size: usize) -> (r: SsTableBuilder)
        requires
            block_size <= 0x10000,
        ensures
            r.wf(),
            r.block_size == block_size,
            r.spec_entries().len() == 0,
            r.meta@.len() == 0,
    {
        SsTableBuilder {
            builder: BlockBuilder::new(block_size),
            first_key: Vec::new(),
            last_key: Vec::new(),
            data: Vec::new(),
            meta: Vec::new(),
            block_size,
        }
    }

    /// The size of the encoded finished blocks.
    pub fn estimated_size(&self) -> (r: usize)
        ensures
            r == self.data@.len(),
    {
        self.data.len()
    }

    /// Encodes the block under construction and appends it to `data`,
    /// leaving a fresh empty block builder.
    fn flush(&mut self)
        requires
            old(self).wf(),
            !old(self).builder.spec_is_empty(),
            old(self).data@.len() + 0x40000 <= 0xFFFF_FFFF,
        ensures
            final(self).wf(),
            final(self).builder.spec_is_empty(),
            final(self).block_size == old(self).block_size,
            final(self).meta@ == old(self).meta@,
            final(self).first_key@ == old(self).first_key@,
            final(self).last_key@ == old(self).last_key@,
            final(self).spec_entries() == old(self).spec_entries(),
            old(self).data@.len() <= final(self).data@.len() <= old(self).data@.len() + 0x40000,
    {
        let ghost old_data = self.data@;
        let ghost metas = metas_view(self.meta@);
        let ghost nm = self.meta@.len() as int;
        let mut fin = BlockBuilder::new(self.block_size);
        core::mem::swap(&mut self.builder, &mut fin);
        proof {
            lemma_block_size_bounds(fin.data@, fin.offsets@);
        }
        let block = fin.build();
        let mut enc = block.encode_vec();
        self.data.append(&mut enc);
        proof {
            let data1 = self.data@;
            let bb_new = built_block_bytes(data1, metas, nm - 1);
            assert(bb_new =~= data1.subrange(old_data.len() as int, data1.len() as int));
            assert(data1 == old_data + block_encoding(block.data@, block.offsets@));
            assert(bb_new =~= block_encoding(block.data@, block.offsets@));
            lemma_block_encode_round_trip(block.data@, block.offsets@);
            assert(enc_data(bb_new) == block.data@);
            assert(enc_offsets(bb_new) == block.offsets@);
            assert(built_block_ok(data1, metas, nm - 1));
            // Earlier blocks are untouched: their byte ranges lie within the
            // old data.
            assert forall|i: int| 0 <= i < nm - 1 implies built_block_bytes(data1, metas, i)
                == #[trigger] built_block_bytes(old_data, metas, i) by {
                assert(built_block_ok(old_data, metas, i));
                assert(built_block_bytes(data1, metas, i) =~= built_block_bytes(
                    old_data,
                    metas,
                    i,
                ));
            }
            assert forall|i: int| 0 <= i < nm implies #[trigger] built_block_ok(
                data1,
                metas,
                i,
            ) by {
                if i < nm - 1 {
                    assert(built_block_ok(old_data, metas, i));
                    assert(built_block_bytes(data1, metas, i) == built_block_bytes(
                        old_data,
                        metas,
                        i,
                    ));
                }
            }
            lemma_built_entries_stable(old_data, metas, data1, metas, nm - 1);
            assert(block_entries(enc_data(bb_new), enc_offsets(bb_new))
                == fin.spec_entries());
            assert(self.spec_entries() =~= old(self).spec_entries());
        }
    }

    /// Starts a new block with this entry: records its meta, adds the entry
    /// to the fresh block builder, and notes the new last key.
    fn start_new_block(&mut self, key: &[u8], value: &[u8])
        requires
            old(self).wf(),
            old(self).builder.spec_is_empty(),
            1 <= key@.len() <= 0xFFFF,
            value@.len() <= 0xFFFF,
            old(self).meta@.len() > 0 ==> lex_lt(old(self).last_key@, key@),
        ensures
            final(self).wf(),
            final(self).block_size == old(self).block_size,
            final(self).data@ == old(self).data@,
            final(self).spec_entries() == old(self).spec_entries().push((key@, value@)),
            final(self).meta@.len() == old(self).meta@.len() + 1,
            final(self).first_key@ == if old(self).meta@.len() == 0 {
                key@
            } else {
                old(self).first_key@
            },
            final(self).last_key@ == key@,
    {
        if self.first_key.is_empty() {
            self.first_key = slice_to_vec(key);
        }
        let off = self.data.len();
        self.meta.push(
            BlockMeta {
                offset: off,
                first_key: bytes_copy_from_slice(key),
                last_key: bytes_copy_from_slice(key),
            },
        );
        let ok = self.builder.add(key, value);
        self.last_key = slice_to_vec(key);
        proof {
            assert(ok);
            let metas1 = metas_view(old(self).meta@);
            let metas2 = metas_view(self.meta@);
            assert(metas2 =~= metas1.push(
                BlockMetaView { offset: off as int, first_key: key@, last_key: key@ },
            ));
            assert forall|i: int| 0 <= i < metas1.len() implies built_block_bytes(
                self.data@,
                metas2,
                i,
            ) == #[trigger] built_block_bytes(old(self).data@, metas1, i) by {
                assert(metas2[i] == metas1[i]);
                if i + 1 < metas1.len() {
                    assert(metas2[i + 1] == metas1[i + 1]);
                }
            }
            lemma_built_entries_stable(
                old(self).data@,
                metas1,
                self.data@,
                metas2,
                metas1.len() as int,
            );
            assert forall|i: int| 0 <= i < self.finished_count() implies
                #[trigger] built_block_ok(self.data@, metas2, i) by {
                assert(built_block_ok(old(self).data@, metas1, i));
                assert(built_block_bytes(self.data@, metas2, i) == built_block_bytes(
                    old(self).data@,
                    metas1,
                    i,
                ));
            }
            assert(self.builder.spec_entries() =~= Seq::<(Seq<u8>, Seq<u8>)>::empty().push(
                (key@, value@),
            ));
            assert(self.builder.spec_last_key() == key@);
            assert(self.spec_entries() =~= old(self).spec_entries().push((key@, value@)));
        }
    }

    /// Tries to put the entry into the running block; on success refreshes
    /// the block's meta record and the table's last key.
    fn continue_block(&mut self, key: &[u8], value: &[u8]) -> (r: bool)
        requires
            old(self).wf(),
            !old(self).builder.spec_is_empty(),
            1 <= key@.len() <= 0xFFFF,
            value@.len() <= 0xFFFF,
            lex_lt(old(self).last_key@, key@),
        ensures
            final(self).wf(),
            final(self).block_size == old(self).block_size,
            final(self).data@ == old(self).data@,
            r == old(self).builder.spec_accepts(key@, value@),
            !r ==> *final(self) == *old(self),
            r ==> {
                &&& final(self).spec_entries() == old(self).spec_entries().push((key@, value@))
                &&& final(self).meta@.len() == old(self).meta@.len()
                &&& final(self).first_key@ == old(self).first_key@
                &&& final(self).last_key@ == key@
            },
    {
        let accepted = self.builder.add(key, value);
        if !accepted {
            return false;
        }
        self.last_key = slice_to_vec(key);
        let ghost pre = *self;
        let mut last_meta = self.meta.pop().unwrap();
        last_meta.last_key = bytes_copy_from_slice(key);
        self.meta.push(last_meta);
        proof {
            let metas_pre = metas_view(pre.meta@);
            let metas_fin = metas_view(self.meta@);
            let nm = self.meta@.len() as int;
            assert(metas_fin =~= metas_pre.update(
                nm - 1,
                BlockMetaView {
                    offset: metas_pre[nm - 1].offset,
                    first_key: metas_pre[nm - 1].first_key,
                    last_key: key@,
                },
            ));
            assert forall|i: int| 0 <= i < nm - 1 implies built_block_bytes(
                self.data@,
                metas_fin,
                i,
            ) == #[trigger] built_block_bytes(pre.data@, metas_pre, i) by {
                assert(metas_fin[i] == metas_pre[i]);
                assert(metas_fin[i + 1].offset == metas_pre[i + 1].offset);
            }
            lemma_built_entries_stable(pre.data@, metas_pre, self.data@, metas_fin, nm - 1);
            assert forall|i: int| 0 <= i < self.finished_count() implies
                #[trigger] built_block_ok(self.data@, metas_fin, i) by {
                assert(built_block_ok(pre.data@, metas_pre, i));
                assert(built_block_bytes(self.data@, metas_fin, i) == built_block_bytes(
                    pre.data@,
                    metas_pre,
                    i,
                ));
            }
            assert(self.builder.spec_last_key() == key@) by {
                let es = self.builder.spec_entries();
                assert(es == old(self).builder.spec_entries().push((key@, value@)));
                assert(es[es.len() - 1].0 == key@);
            }
            assert forall|i: int| 0 <= i < metas_fin.len() implies meta_bounded(
                #[trigger] metas_fin[i],
            ) by {
                if i < nm - 1 {
                    assert(metas_fin[i] == metas_pre[i]);
                }
            }
            assert forall|i: int| 0 <= i < metas_fin.len() - 1 implies lex_lt(
                (#[trigger] metas_fin[i]).last_key,
                metas_fin[i + 1].first_key,
            ) by {
                assert(metas_fin[i].last_key == metas_pre[i].last_key);
                assert(metas_fin[i + 1].first_key == metas_pre[i + 1].first_key);
            }
            assert(self.spec_entries() =~= old(self).spec_entries().push((key@, value@)));
        }
        true
    }

    /// Appends an entry, starting a fresh block when the current one is
    /// full. Keys must arrive in strictly increasing order.
    pub fn add(&mut self, key: &[u8], value: &[u8])
        requires
            old(self).wf(),
            1 <= key@.len() <= 0xFFFF,
            value@.len() <= 0xFFFF,
            old(self).meta@.len() > 0 ==> lex_lt(old(self).last_key@, key@),
            old(self).data@.len() + 0x40000 <= 0xFFFF_FFFF,
        ensures
            final(self).wf(),
            final(self).block_size == old(self).block_size,
            final(self).spec_entries() == old(self).spec_entries().push((key@, value@)),
            final(self).meta@.len() > 0,
            final(self).first_key@ == if old(self).meta@.len() == 0 {
                key@
            } else {
                old(self).first_key@
            },
            final(self).last_key@ == key@,
            old(self).data@.len() <= final(self).data@.len() <= old(self).data@.len() + 0x40000,
    {
        let done = if self.builder.is_empty() {
            false
        } else {
            self.continue_block(key, value)
        };
        if !done {
            if !self.builder.is_empty() {
                self.flush();
            }
            self.start_new_block(key, value);
        }
    }

    /// Finalizes the table: flushes the pending block, appends the meta
    /// section and the footer, and wraps the image.
    /// Finalizes the table: flushes the pending block, appends the meta
    /// section and the footer, and wraps the image.
    pub fn build(self, id: usize) -> (r: SsTable)
        requires
            self.wf(),
            self.meta@.len() > 0,
            self.data@.len() + 0x40000 <= 0xFFFF_FFFF,
        ensures
            r.wf(),
            r.id == id,
            r.max_ts == 0,
            metas_view(r.block_meta@) == metas_view(self.meta@),
            bytes_view(r.first_key) == self.first_key@,
            bytes_view(r.last_key) == self.last_key@,
            entries_from_block(r, 0) == self.spec_entries(),
    {
        let mut this = self;
        if !this.builder.is_empty() {
            this.flush();
        }
        proof {
            assert(this.spec_entries() =~= built_entries(
                this.data@,
                metas_view(this.meta@),
                this.meta@.len() as int,
            ));
        }
        SsTableBuilder::assemble(this, id)
    }

    /// Appends the meta section and footer to a fully flushed builder's data
    /// and wraps the image as a table.
    #[verifier::rlimit(100)]
    fn assemble(this: SsTableBuilder, id: usize) -> (r: SsTable)
        requires
            this.wf(),
            this.builder.spec_is_empty(),
            this.meta@.len() > 0,
            this.data@.len() <= 0xFFFF_FFFF,
        ensures
            r.wf(),
            r.id == id,
            r.max_ts == 0,
            metas_view(r.block_meta@) == metas_view(this.meta@),
            bytes_view(r.first_key) == this.first_key@,
            bytes_view(r.last_key) == this.last_key@,
            entries_from_block(r, 0) == built_entries(
                this.data@,
                metas_view(this.meta@),
                this.meta@.len() as int,
            ),
    {
        let mut this = this;
        let ghost data0 = this.data@;
        let ghost metas = metas_view(this.meta@);
        let ghost nm = this.meta@.len() as int;
        let count: usize = this.meta.len();
        proof {
            assert(metas.len() == count);
        }
        let meta_offset = this.data.len();
        proof {
            assert forall|i: int| 0 <= i < this.meta@.len() implies meta_bounded(
                #[trigger] this.meta@[i]@,
            ) by {
                assert(metas_view(this.meta@)[i] == this.meta@[i]@);
                assert(meta_bounded(metas_view(this.meta@)[i]));
            }
        }
        BlockMeta::encode_block_meta(this.meta.as_slice(), &mut this.data);
        let file = FileObject::from_vec(this.data);
        let first_key = bytes_copy_from_slice(this.first_key.as_slice());
        let last_key = bytes_copy_from_slice(this.last_key.as_slice());
        let table = SsTable {
            file,
            block_meta: this.meta,
            block_meta_offset: meta_offset,
            id,
            first_key,
            last_key,
            max_ts: 0,
        };
        proof {
            lemma_image_assembled(table.file.spec_data(), data0, metas, meta_offset as int);
            assert(metas_view(table.block_meta@) == metas);
            assert(table.wf());
            lemma_built_prefix_suffix(table, data0, metas, nm);
            assert(entries_from_block(table, nm) =~= Seq::<(Seq<u8>, Seq<u8>)>::empty());
            assert(built_entries(data0, metas, nm) + entries_from_block(table, nm)
                =~= built_entries(data0, metas, nm));
            assert(entries_from_block(table, 0) == built_entries(data0, metas, nm));
        }
        table
    }
}


/// A finished data region followed by its meta section and footer is a
/// well-formed table image whose blocks are the built blocks.
proof fn lemma_image_assembled(b: Seq<u8>, data0: Seq<u8>, metas: Seq<BlockMetaView>, moff: int)
    requires
        moff == data0.len(),
        0 <= moff <= 0xFFFF_FFFF,
        b == data0 + meta_section_encoding(metas) + u32_le_bytes(moff as u32),
        1 <= metas.len() <= u64::MAX,
        forall|i: int| 0 <= i < metas.len() ==> meta_bounded(#[trigger] metas[i]),
        forall|i: int| 0 <= i < metas.len() ==> #[trigger] built_block_ok(data0, metas, i),
        forall|i: int|
            0 <= i < metas.len() - 1 ==> lex_lt(
                (#[trigger] metas[i]).last_key,
                metas[i + 1].first_key,
            ),
    ensures
        is_table_image(b),
        image_footer(b) == moff,
        image_metas(b) == metas,
        forall|i: int|
            0 <= i < metas.len() ==> image_block_bytes(b, i) == #[trigger] built_block_bytes(
                data0,
                metas,
                i,
            ),
{
    lemma_u32_le_round_trip(moff as u32);
    lemma_meta_section_round_trip(metas);
    let section = meta_section_encoding(metas);
    assert(section.len() >= 8);
    assert(b.subrange(b.len() - 4, b.len() as int) =~= u32_le_bytes(moff as u32));
    assert(image_footer(b) == moff);
    assert(image_meta_bytes(b) =~= section);
    assert(image_metas(b) == metas);
    assert forall|i: int| 0 <= i < metas.len() implies image_block_bytes(b, i)
        == #[trigger] built_block_bytes(data0, metas, i) by {
        assert(built_block_ok(data0, metas, i));
        assert(image_block_bytes(b, i) =~= built_block_bytes(data0, metas, i));
    }
    assert forall|i: int| 0 <= i < metas.len() implies #[trigger] image_block_ok(b, i) by {
        assert(built_block_ok(data0, metas, i));
        assert(image_block_bytes(b, i) == built_block_bytes(data0, metas, i));
    }
    assert(is_table_image(b));
}

/// The entries of the first `k` blocks followed by the entries from block
/// `k` on give all entries of the table.
proof fn lemma_built_prefix_suffix(t: SsTable, data0: Seq<u8>, metas: Seq<BlockMetaView>, k: int)
    requires
        0 <= k <= t.spec_num_blocks(),
        t.spec_num_blocks() == metas.len(),
        forall|i: int|
            0 <= i < metas.len() ==> image_block_bytes(t.file.spec_data(), i)
                == #[trigger] built_block_bytes(data0, metas, i),
    ensures
        built_entries(data0, metas, k) + entries_from_block(t, k) == entries_from_block(t, 0),
    decreases k,
{
    if k == 0 {
        assert(built_entries(data0, metas, 0) + entries_from_block(t, 0) =~= entries_from_block(
            t,
            0,
        ));
    } else {
        lemma_built_prefix_suffix(t, data0, metas, k - 1);
        let bb = built_block_bytes(data0, metas, k - 1);
        assert(t.spec_block_entries(k - 1) == block_entries(enc_data(bb), enc_offsets(bb)));
        assert(entries_from_block(t, k - 1) == t.spec_block_entries(k - 1) + entries_from_block(
            t,
            k,
        ));
        assert(built_entries(data0, metas, k) + entries_from_block(t, k) =~= built_entries(
            data0,
            metas,
            k - 1,
        ) + entries_from_block(t, k - 1));
    }
}

} // verus!
