//! Per-block index records and the meta section codec.
//!
//! The meta section of a table holds, little-endian: the record count as
//! eight bytes, then per record the block's file offset as eight bytes and
//! its first and last key, each length-prefixed with two bytes. The section
//! is followed by a four-byte footer holding the section's file offset.

use crate::bytes_ext::{bytes_as_slice, bytes_copy_from_slice, bytes_len, bytes_view};
use crate::wire::{
    get_u16_le, get_u64_le, lemma_u16_le_round_trip, lemma_u64_le_round_trip, put_bytes,
    put_u16_le, put_u32_le, put_u64_le, u16_le_bytes, u32_le_bytes, u64_le_bytes, u16_of_le,
    u64_of_le,
};
use vstd::prelude::*;
use vstd::slice::slice_subrange;

verus! {

/// Mathematical content of one block meta record.
pub ghost struct BlockMetaView {
    pub offset: int,
    pub first_key: Seq<u8>,
    pub last_key: Seq<u8>,
}

/// Per-block index record: where the block starts in the file and the first
/// and last key it holds.
pub struct BlockMeta {
    /// Byte offset of the block inside the table file.
    pub offset: usize,
    /// The first key of the block.
    pub first_key: bytes::Bytes,
    /// The last key of the block.
    pub last_key: bytes::Bytes,
}

impl View for BlockMeta {
    type V = BlockMetaView;

    open spec fn view(&self) -> BlockMetaView {
        BlockMetaView {
            offset: self.offset as int,
            first_key: bytes_view(self.first_key),
            last_key: bytes_view(self.last_key),
        }
    }
}

/// The views of a sequence of records.
pub open spec fn metas_view(s: Seq<BlockMeta>) -> Seq<BlockMetaView> {
    s.map_values(|m: BlockMeta| m@)
}

/// Key lengths fit their two-byte prefixes and the offset its eight bytes.
pub open spec fn meta_bounded(m: BlockMetaView) -> bool {
    &&& m.first_key.len() <= 0xFFFF
    &&& m.last_key.len() <= 0xFFFF
    &&& 0 <= m.offset <= u64::MAX
}

/// The serialized form of one record.
pub open spec fn meta_record_encoding(m: BlockMetaView) -> Seq<u8>
    recommends
        meta_bounded(m),
{
    u64_le_bytes(m.offset as u64) + u16_le_bytes(m.first_key.len() as u16) + m.first_key
        + u16_le_bytes(m.last_key.len() as u16) + m.last_key
}

/// The concatenated records.
pub open spec fn meta_records_encoding(ms: Seq<BlockMetaView>) -> Seq<u8>
    decreases ms.len(),
{
    if ms.len() == 0 {
        Seq::empty()
    } else {
        meta_record_encoding(ms[0]) + meta_records_encoding(ms.skip(1))
    }
}

/// The whole meta section: record count, then the records.
pub open spec fn meta_section_encoding(ms: Seq<BlockMetaView>) -> Seq<u8>
    recommends
        ms.len() <= u64::MAX,
{
    u64_le_bytes(ms.len() as u64) + meta_records_encoding(ms)
}

/// Parses exactly `n` records out of `b`, requiring them to consume all of
/// it.
pub open spec fn parse_meta_records(b: Seq<u8>, n: nat) -> Option<Seq<BlockMetaView>>
    decreases n,
{
    if n == 0 {
        if b.len() == 0 {
            Option::Some(Seq::empty())
        } else {
            Option::None
        }
    } else if b.len() < 10 {
        Option::None
    } else {
        let off = u64_of_le(b.subrange(0, 8));
        let fkl = u16_of_le(b.subrange(8, 10));
        if b.len() < 12 + fkl {
            Option::None
        } else {
            let fk = b.subrange(10, 10 + fkl);
            let lkl = u16_of_le(b.subrange(10 + fkl, 12 + fkl));
            if b.len() < 12 + fkl + lkl {
                Option::None
            } else {
                let lk = b.subrange(12 + fkl, 12 + fkl + lkl);
                let m = BlockMetaView { offset: off, first_key: fk, last_key: lk };
                match parse_meta_records(b.skip(12 + fkl + lkl), (n - 1) as nat) {
                    Option::Some(rest) => Option::Some(seq![m] + rest),
                    Option::None => Option::None,
                }
            }
        }
    }
}

/// Parses a whole meta section: the eight-byte count, then that many records.
pub open spec fn parse_meta_section(b: Seq<u8>) -> Option<Seq<BlockMetaView>> {
    if b.len() < 8 {
        Option::None
    } else {
        parse_meta_records(b.skip(8), u64_of_le(b.subrange(0, 8)) as nat)
    }
}

/// A parsed record stream is at least twelve bytes per record.
pub proof fn lemma_parse_records_min_len(b: Seq<u8>, n: nat)
    requires
        parse_meta_records(b, n) is Some,
    ensures
        12 * n <= b.len(),
        parse_meta_records(b, n).unwrap().len() == n,
    decreases n,
{
    if n > 0 {
        let fkl = u16_of_le(b.subrange(8, 10));
        let lkl = u16_of_le(b.subrange(10 + fkl, 12 + fkl));
        lemma_parse_records_min_len(b.skip(12 + fkl + lkl), (n - 1) as nat);
    }
}

/// The encoding of bounded records parses back to exactly those records.
pub proof fn lemma_meta_records_round_trip(ms: Seq<BlockMetaView>)
    requires
        forall|i: int| 0 <= i < ms.len() ==> meta_bounded(#[trigger] ms[i]),
    ensures
        parse_meta_records(meta_records_encoding(ms), ms.len() as nat) == Some(ms),
    decreases ms.len(),
{
    if ms.len() > 0 {
        let m = ms[0];
        let rec = meta_record_encoding(m);
        let rest = meta_records_encoding(ms.skip(1));
        let b = meta_records_encoding(ms);
        assert(b == rec + rest);
        lemma_u64_le_round_trip(m.offset as u64);
        lemma_u16_le_round_trip(m.first_key.len() as u16);
        lemma_u16_le_round_trip(m.last_key.len() as u16);
        let fkl = m.first_key.len() as int;
        let lkl = m.last_key.len() as int;
        assert(rec.len() == 12 + fkl + lkl);
        assert(b.subrange(0, 8) =~= u64_le_bytes(m.offset as u64));
        assert(b.subrange(8, 10) =~= u16_le_bytes(m.first_key.len() as u16));
        assert(u64_of_le(b.subrange(0, 8)) == m.offset);
        assert(u16_of_le(b.subrange(8, 10)) == fkl);
        assert(b.subrange(10, 10 + fkl) =~= m.first_key);
        assert(b.subrange(10 + fkl, 12 + fkl) =~= u16_le_bytes(m.last_key.len() as u16));
        assert(u16_of_le(b.subrange(10 + fkl, 12 + fkl)) == lkl);
        assert(b.subrange(12 + fkl, 12 + fkl + lkl) =~= m.last_key);
        assert(b.skip(12 + fkl + lkl) =~= rest);
        lemma_meta_records_round_trip(ms.skip(1));
        let parsed = BlockMetaView {
            offset: u64_of_le(b.subrange(0, 8)),
            first_key: b.subrange(10, 10 + fkl),
            last_key: b.subrange(12 + fkl, 12 + fkl + lkl),
        };
        assert(parsed == m);
        assert(seq![m] + ms.skip(1) =~= ms);
    }
}

/// The encoding of a bounded meta list parses back to exactly that list.
pub proof fn lemma_meta_section_round_trip(ms: Seq<BlockMetaView>)
    requires
        forall|i: int| 0 <= i < ms.len() ==> meta_bounded(#[trigger] ms[i]),
        ms.len() <= u64::MAX,
    ensures
        parse_meta_section(meta_section_encoding(ms)) == Some(ms),
{
    let b = meta_section_encoding(ms);
    lemma_u64_le_round_trip(ms.len() as u64);
    assert(b.subrange(0, 8) =~= u64_le_bytes(ms.len() as u64));
    assert(b.skip(8) =~= meta_records_encoding(ms));
    lemma_meta_records_round_trip(ms);
}

/// Appending one record appends its encoding.
pub proof fn lemma_meta_records_snoc(ms: Seq<BlockMetaView>)
    requires
        ms.len() > 0,
    ensures
        meta_records_encoding(ms) == meta_records_encoding(ms.drop_last())
            + meta_record_encoding(ms.last()),
    decreases ms.len(),
{
    if ms.len() == 1 {
        assert(ms.drop_last() =~= Seq::<BlockMetaView>::empty());
        assert(ms.skip(1) =~= Seq::<BlockMetaView>::empty());
        assert(meta_records_encoding(Seq::<BlockMetaView>::empty()) =~= Seq::<u8>::empty());
        assert(meta_records_encoding(ms) =~= meta_records_encoding(ms.drop_last())
            + meta_record_encoding(ms.last()));
    } else {
        lemma_meta_records_snoc(ms.skip(1));
        assert(ms.skip(1).drop_last() =~= ms.drop_last().skip(1));
        assert(ms.skip(1).last() == ms.last());
        assert(meta_records_encoding(ms) =~= meta_records_encoding(ms.drop_last())
            + meta_record_encoding(ms.last()));
    }
}

impl BlockMeta {
    /// Serializes the records into `buf` — count, records — and then appends
    /// the four-byte footer holding `buf`'s original length, the file offset
    /// where the section starts.
    pub fn encode_block_meta(block_meta: &[BlockMeta], buf: &mut Vec<u8>)
        requires
            forall|i: int|
                0 <= i < block_meta@.len() ==> meta_bounded(#[trigger] block_meta@[i]@),
            old(buf)@.len() <= 0xFFFF_FFFF,
        ensures
            final(buf)@ == old(buf)@ + meta_section_encoding(metas_view(block_meta@))
                + u32_le_bytes(old(buf)@.len() as u32),
    {
        let ghost ms = metas_view(block_meta@);
        let offset32: u32 = buf.len() as u32;
        let num: usize = block_meta.len();
        put_u64_le(buf, num as u64);
        let mut i: usize = 0;
        while i < num
            invariant
                0 <= i <= num,
                num == block_meta@.len(),
                ms == metas_view(block_meta@),
                forall|k: int| 0 <= k < num ==> meta_bounded(#[trigger] block_meta@[k]@),
                buf@ == old(buf)@ + u64_le_bytes(num as u64) + meta_records_encoding(
                    ms.take(i as int),
                ),
            decreases num - i,
        {
            let m: &BlockMeta = &block_meta[i];
            let fk_len: usize = bytes_len(&m.first_key);
            let lk_len: usize = bytes_len(&m.last_key);
            put_u64_le(buf, m.offset as u64);
            put_u16_le(buf, fk_len as u16);
            put_bytes(buf, bytes_as_slice(&m.first_key));
            put_u16_le(buf, lk_len as u16);
            put_bytes(buf, bytes_as_slice(&m.last_key));
            proof {
                lemma_meta_records_snoc(ms.take(i as int + 1));
                assert(ms.take(i as int + 1).drop_last() =~= ms.take(i as int));
                assert(ms.take(i as int + 1).last() == ms[i as int]);
                assert(buf@ =~= old(buf)@ + u64_le_bytes(num as u64) + meta_records_encoding(
                    ms.take(i as int + 1),
                ));
            }
            i = i + 1;
        }
        proof {
            assert(ms.take(num as int) =~= ms);
        }
        put_u32_le(buf, offset32);
        proof {
            assert(buf@ =~= old(buf)@ + meta_section_encoding(ms) + u32_le_bytes(
                old(buf)@.len() as u32,
            ));
        }
    }

    /// Rebuilds the records from a serialized meta section (without the
    /// footer). Callers pass only builder-produced bytes.
    pub fn decode_block_meta(buf: &[u8]) -> (r: Vec<BlockMeta>)
        requires
            parse_meta_section(buf@) is Some,
            forall|i: int|
                0 <= i < parse_meta_section(buf@).unwrap().len() ==> (
                #[trigger] parse_meta_section(buf@).unwrap()[i]).offset <= usize::MAX,
        ensures
            metas_view(r@) == parse_meta_section(buf@).unwrap(),
    {
        let ghost parsed = parse_meta_section(buf@).unwrap();
        let buf_len: usize = buf.len();
        let num64 = get_u64_le(buf, 0);
        proof {
            assert(buf@.len() >= 8);
            assert(num64 as int == u64_of_le(buf@.subrange(0, 8)));
            lemma_parse_records_min_len(buf@.skip(8), num64 as nat);
            assert(12 * (num64 as int) <= buf@.len() - 8);
            assert(parsed == parse_meta_records(buf@.skip(8), num64 as nat).unwrap());
            assert(parsed.len() == num64 as int);
            assert(num64 <= usize::MAX);
        }
        let num: usize = num64 as usize;
        let mut metas: Vec<BlockMeta> = Vec::new();
        let mut pos: usize = 8;
        let mut i: usize = 0;
        proof {
            assert(parsed.skip(0) =~= parsed);
            assert(metas_view(metas@) =~= parsed.take(0));
        }
        while i < num
            invariant
                0 <= i <= num,
                num == parsed.len(),
                buf_len == buf@.len(),
                8 <= pos <= buf_len,
                parse_meta_records(buf@.skip(pos as int), (num - i) as nat) == Some(
                    parsed.skip(i as int),
                ),
                forall|k: int| 0 <= k < parsed.len() ==> (#[trigger] parsed[k]).offset
                    <= usize::MAX,
                metas_view(metas@) == parsed.take(i as int),
            decreases num - i,
        {
            let ghost tail = buf@.skip(pos as int);
            let ghost rem = parsed.skip(i as int);
            proof {
                lemma_parse_records_min_len(tail, (num - i) as nat);
                assert(rem.len() == num - i);
                assert(tail.len() >= 10);
                assert(pos + 10 <= buf@.len());
                assert(tail.subrange(0, 8) =~= buf@.subrange(pos as int, pos as int + 8));
                assert(tail.subrange(8, 10) =~= buf@.subrange(pos as int + 8, pos as int + 10));
            }
            let off64 = get_u64_le(buf, pos);
            let fkl = get_u16_le(buf, pos + 8) as usize;
            proof {
                let fkl_s = u16_of_le(tail.subrange(8, 10));
                assert(fkl == fkl_s);
                assert(tail.len() >= 12 + fkl_s);
                assert(pos + 12 + fkl_s <= buf@.len());
                assert(tail.subrange(10, 10 + fkl_s) =~= buf@.subrange(
                    pos as int + 10,
                    pos as int + 10 + fkl_s,
                ));
                assert(tail.subrange(10 + fkl_s, 12 + fkl_s) =~= buf@.subrange(
                    pos as int + 10 + fkl_s,
                    pos as int + 12 + fkl_s,
                ));
            }
            let fk = bytes_copy_from_slice(slice_subrange(buf, pos + 10, pos + 10 + fkl));
            let lkl = get_u16_le(buf, pos + 10 + fkl) as usize;
            proof {
                let fkl_s = fkl as int;
                let lkl_s = u16_of_le(tail.subrange(10 + fkl_s, 12 + fkl_s));
                assert(lkl == lkl_s);
                assert(tail.len() >= 12 + fkl_s + lkl_s);
                assert(pos + 12 + fkl_s + lkl_s <= buf@.len());
                assert(tail.subrange(12 + fkl_s, 12 + fkl_s + lkl_s) =~= buf@.subrange(
                    pos as int + 12 + fkl_s,
                    pos as int + 12 + fkl_s + lkl_s,
                ));
            }
            let lk = bytes_copy_from_slice(
                slice_subrange(buf, pos + 12 + fkl, pos + 12 + fkl + lkl),
            );
            proof {
                assert(rem[0] == BlockMetaView {
                    offset: off64 as int,
                    first_key: bytes_view(fk),
                    last_key: bytes_view(lk),
                });
                assert(parsed[i as int] == rem[0]);
            }
            let off: usize = off64 as usize;
            let ghost prev = metas@;
            metas.push(BlockMeta { offset: off, first_key: fk, last_key: lk });
            proof {
                assert(metas_view(prev).len() == prev.len());
                assert(parsed.take(i as int).len() == i);
                assert(prev.len() == i);
                assert forall|k: int| 0 <= k < metas@.len() implies #[trigger] metas_view(
                    metas@,
                )[k] == parsed.take(i as int + 1)[k] by {
                    assert(metas_view(metas@)[k] == metas@[k]@);
                    if k < i as int {
                        assert(metas@[k] == prev[k]);
                        assert(metas_view(prev)[k] == parsed.take(i as int)[k]);
                        assert(metas_view(prev)[k] == prev[k]@);
                    } else {
                        assert(metas@[k]@ == parsed[i as int]);
                    }
                }
                assert(metas_view(metas@) =~= parsed.take(i as int + 1));
                assert(tail.skip(12 + fkl + lkl) =~= buf@.skip(pos as int + 12 + fkl + lkl));
                assert(rem.skip(1) =~= parsed.skip(i as int + 1));
            }
            pos = pos + 12 + fkl + lkl;
            i = i + 1;
        }
        metas
    }
}

} // verus!
