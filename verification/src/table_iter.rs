//! Cross-block iteration within one table: seek to the first entry, seek to
//! the first entry with key `>=` a probe, and advance across block borders.

use crate::block_iter::BlockIterator;
use crate::iterators::{entries_sorted, Error, StorageIterator};
use crate::keys::{lemma_lex_le_lt_trans, lemma_lex_lt_le_trans, lex_le, lex_lt};
use crate::table::{
    entries_from_block, image_block_ok, lemma_block_first_le_last, lemma_block_keys_within_meta,
    SsTable,
};
use vstd::prelude::*;
use std::sync::Arc;

verus! {

/// The entries of the first `k` blocks, in order.
pub open spec fn entries_up_to_block(t: SsTable, k: int) -> Seq<(Seq<u8>, Seq<u8>)>
    decreases k,
{
    if k <= 0 {
        Seq::empty()
    } else {
        entries_up_to_block(t, k - 1) + t.spec_block_entries(k - 1)
    }
}

/// Splitting the table's entries at any block border.
pub proof fn lemma_entries_split(t: SsTable, k: int)
    requires
        0 <= k <= t.spec_num_blocks(),
    ensures
        entries_from_block(t, 0) == entries_up_to_block(t, k) + entries_from_block(t, k),
    decreases k,
{
    if k == 0 {
        assert(entries_up_to_block(t, 0) + entries_from_block(t, 0) =~= entries_from_block(t, 0));
    } else {
        lemma_entries_split(t, k - 1);
        assert(entries_from_block(t, k - 1) == t.spec_block_entries(k - 1) + entries_from_block(
            t,
            k,
        ));
        assert(entries_up_to_block(t, k) + entries_from_block(t, k) =~= entries_up_to_block(
            t,
            k - 1,
        ) + entries_from_block(t, k - 1));
    }
}

/// The entries of one block are strictly sorted and lie between its meta
/// record's first and last key.
pub proof fn lemma_block_entries_sorted(t: SsTable, i: int)
    requires
        t.wf(),
        0 <= i < t.spec_num_blocks(),
    ensures
        entries_sorted(t.spec_block_entries(i)),
        forall|j: int|
            0 <= j < t.spec_block_entries(i).len() ==> lex_le(
                t.block_meta@[i]@.first_key,
                (#[trigger] t.spec_block_entries(i)[j]).0,
            ) && lex_le(t.spec_block_entries(i)[j].0, t.block_meta@[i]@.last_key),
{
    assert(image_block_ok(t.file.spec_data(), i));
    assert forall|j: int| 0 <= j < t.spec_block_entries(i).len() implies lex_le(
        t.block_meta@[i]@.first_key,
        (#[trigger] t.spec_block_entries(i)[j]).0,
    ) && lex_le(t.spec_block_entries(i)[j].0, t.block_meta@[i]@.last_key) by {
        lemma_block_keys_within_meta(&t, i, j);
    }
}

/// From any block on, the table's entries are strictly sorted, and all lie at
/// or above that block's first key.
pub proof fn lemma_entries_from_sorted(t: SsTable, i: int)
    requires
        t.wf(),
        0 <= i <= t.spec_num_blocks(),
    ensures
        entries_sorted(entries_from_block(t, i)),
        i < t.spec_num_blocks() ==> forall|j: int|
            0 <= j < entries_from_block(t, i).len() ==> lex_le(
                t.block_meta@[i]@.first_key,
                (#[trigger] entries_from_block(t, i)[j]).0,
            ),
    decreases t.spec_num_blocks() - i,
{
    let n = t.spec_num_blocks();
    if i < n {
        lemma_entries_from_sorted(t, i + 1);
        lemma_block_entries_sorted(t, i);
        lemma_block_first_le_last(&t, i);
        let blk = t.spec_block_entries(i);
        let rest = entries_from_block(t, i + 1);
        let whole = entries_from_block(t, i);
        assert(whole == blk + rest);
        assert forall|a: int, b: int| 0 <= a < b < whole.len() implies lex_lt(
            whole[a].0,
            whole[b].0,
        ) by {
            if b < blk.len() {
                assert(whole[a] == blk[a] && whole[b] == blk[b]);
            } else if a >= blk.len() {
                assert(whole[a] == rest[a - blk.len()] && whole[b] == rest[b - blk.len()]);
            } else {
                assert(whole[a] == blk[a] && whole[b] == rest[b - blk.len()]);
                assert(i + 1 < n);
                assert(lex_lt(t.block_meta@[i]@.last_key, t.block_meta@[i + 1]@.first_key));
                lemma_lex_le_lt_trans(
                    whole[a].0,
                    t.block_meta@[i]@.last_key,
                    t.block_meta@[i + 1]@.first_key,
                );
                lemma_lex_lt_le_trans(
                    whole[a].0,
                    t.block_meta@[i + 1]@.first_key,
                    whole[b].0,
                );
            }
        }
        assert forall|j: int| 0 <= j < whole.len() implies lex_le(
            t.block_meta@[i]@.first_key,
            (#[trigger] whole[j]).0,
        ) by {
            if j < blk.len() {
                assert(whole[j] == blk[j]);
            } else {
                assert(whole[j] == rest[j - blk.len()]);
                assert(i + 1 < n);
                assert(lex_le(t.block_meta@[i + 1]@.first_key, whole[j].0));
                assert(lex_lt(t.block_meta@[i]@.last_key, t.block_meta@[i + 1]@.first_key));
                lemma_lex_le_lt_trans(
                    t.block_meta@[i]@.first_key,
                    t.block_meta@[i]@.last_key,
                    t.block_meta@[i + 1]@.first_key,
                );
                lemma_lex_lt_le_trans(
                    t.block_meta@[i]@.first_key,
                    t.block_meta@[i + 1]@.first_key,
                    whole[j].0,
                );
            }
        }
    }
}

/// All keys of the first `k` blocks are `<=` block `k - 1`'s last key.
pub proof fn lemma_entries_up_to_bounded(t: SsTable, k: int)
    requires
        t.wf(),
        1 <= k <= t.spec_num_blocks(),
    ensures
        forall|j: int|
            0 <= j < entries_up_to_block(t, k).len() ==> lex_le(
                (#[trigger] entries_up_to_block(t, k)[j]).0,
                t.block_meta@[k - 1]@.last_key,
            ),
    decreases k,
{
    lemma_block_entries_sorted(t, k - 1);
    let pre = entries_up_to_block(t, k - 1);
    let blk = t.spec_block_entries(k - 1);
    let whole = entries_up_to_block(t, k);
    assert(whole == pre + blk);
    if k > 1 {
        lemma_entries_up_to_bounded(t, k - 1);
        lemma_block_first_le_last(&t, k - 1);
    }
    assert forall|j: int| 0 <= j < whole.len() implies lex_le(
        (#[trigger] whole[j]).0,
        t.block_meta@[k - 1]@.last_key,
    ) by {
        if j < pre.len() {
            assert(whole[j] == pre[j]);
            assert(lex_le(pre[j].0, t.block_meta@[k - 2]@.last_key));
            assert(lex_lt(t.block_meta@[k - 2]@.last_key, t.block_meta@[k - 1]@.first_key));
            lemma_lex_le_lt_trans(
                pre[j].0,
                t.block_meta@[k - 2]@.last_key,
                t.block_meta@[k - 1]@.first_key,
            );
            lemma_lex_lt_le_trans(
                pre[j].0,
                t.block_meta@[k - 1]@.first_key,
                t.block_meta@[k - 1]@.last_key,
            );
        } else {
            assert(whole[j] == blk[j - pre.len()]);
        }
    }
}

/// An iterator over the contents of one table.
pub struct SsTableIterator {
    /// The shared table.
    pub table: Arc<SsTable>,
    /// An iterator within the currently loaded block.
    pub blk_iter: BlockIterator,
    /// The index of the currently loaded block.
    pub blk_idx: usize,
}

impl SsTableIterator {
    /// Well-formed iterator: the loaded block is block `blk_idx` of the
    /// table, and an invalid inner iterator only happens on the last block.
    pub open spec fn wf(&self) -> bool {
        &&& (*self.table).wf()
        &&& self.blk_idx < (*self.table).spec_num_blocks()
        &&& self.blk_iter.wf()
        &&& (*self.blk_iter.block).data@ == (*self.table).spec_block_data(self.blk_idx as int)
        &&& (*self.blk_iter.block).offsets@ == (*self.table).spec_block_offsets(
            self.blk_idx as int,
        )
        &&& !self.blk_iter.spec_valid() ==> self.blk_idx as int + 1 == (
        *self.table).spec_num_blocks()
    }

    /// The table, by value in specifications.
    pub open spec fn tbl(&self) -> SsTable {
        *self.table
    }

    /// The entries not yet consumed.
    pub open spec fn spec_rest(&self) -> Seq<(Seq<u8>, Seq<u8>)> {
        if self.blk_iter.spec_valid() {
            (*self.table).spec_block_entries(self.blk_idx as int).skip(self.blk_iter.idx as int)
                + entries_from_block(*self.table, self.blk_idx as int + 1)
        } else {
            Seq::empty()
        }
    }

    /// Creates an iterator positioned at the table's first entry.
    pub fn create_and_seek_to_first(table: Arc<SsTable>) -> (r: SsTableIterator)
        requires
            (*table).wf(),
        ensures
            r.wf(),
            r.table == table,
            r.spec_rest() == entries_from_block(*table, 0),
            r.spec_rest().len() > 0,
    {
        let blk = table.read_block_cached(0);
        let blk_iter = BlockIterator::create_and_seek_to_first(blk);
        let r = SsTableIterator { table, blk_iter, blk_idx: 0 };
        proof {
            assert(entries_from_block(*r.table, 0) == (*r.table).spec_block_entries(0)
                + entries_from_block(*r.table, 1));
            assert(r.spec_rest() =~= entries_from_block(*r.table, 0));
        }
        r
    }

    /// Repositions at the table's first entry.
    pub fn seek_to_first(&mut self) -> (r: Result<(), Error>)
        requires
            old(self).wf(),
        ensures
            final(self).wf(),
            final(self).table == old(self).table,
            r is Ok,
            final(self).spec_rest() == entries_from_block(*old(self).table, 0),
            final(self).spec_rest().len() > 0,
    {
        let blk = self.table.read_block_cached(0);
        self.blk_iter = BlockIterator::create_and_seek_to_first(blk);
        self.blk_idx = 0;
        proof {
            assert(entries_from_block(*self.table, 0) == (*self.table).spec_block_entries(0)
                + entries_from_block(*self.table, 1));
            assert(self.spec_rest() =~= entries_from_block(*self.table, 0));
        }
        Ok(())
    }

    /// Creates an iterator positioned at the first entry whose key is `>=`
    /// the probe; exhausted when every key is smaller.
    pub fn create_and_seek_to_key(table: Arc<SsTable>, key: &[u8]) -> (r: SsTableIterator)
        requires
            (*table).wf(),
        ensures
            r.wf(),
            r.table == table,
            r.spec_rest() == entries_from_block(*table, 0).skip(
                entries_from_block(*table, 0).len() - r.spec_rest().len(),
            ),
            forall|j: int|
                0 <= j < entries_from_block(*table, 0).len() - r.spec_rest().len() ==> lex_lt(
                    (#[trigger] entries_from_block(*table, 0)[j]).0,
                    key@,
                ),
            r.spec_rest().len() > 0 ==> lex_le(key@, r.spec_rest()[0].0),
    {
        let mut r = SsTableIterator::create_and_seek_to_first(table);
        let result = r.seek_to_key(key);
        r
    }

    /// Repositions at the first entry whose key is `>=` the probe; exhausted
    /// when every key is smaller.
    #[verifier::rlimit(100)]
    pub fn seek_to_key(&mut self, key: &[u8]) -> (r: Result<(), Error>)
        requires
            old(self).wf(),
        ensures
            final(self).wf(),
            final(self).table == old(self).table,
            r is Ok,
            final(self).spec_rest() == entries_from_block(*old(self).table, 0).skip(
                entries_from_block(*old(self).table, 0).len() - final(self).spec_rest().len(),
            ),
            forall|j: int|
                0 <= j < entries_from_block(*old(self).table, 0).len()
                    - final(self).spec_rest().len() ==> lex_lt(
                    (#[trigger] entries_from_block(*old(self).table, 0)[j]).0,
                    key@,
                ),
            final(self).spec_rest().len() > 0 ==> lex_le(key@, final(self).spec_rest()[0].0),
    {
        let ghost t = old(self).tbl();
        let ghost all = entries_from_block(old(self).tbl(), 0);
        let id_block = self.table.find_block_idx(key);
        let ghost c = id_block as int;
        let blk = self.table.read_block_cached(id_block);
        let bi = BlockIterator::create_and_seek_to_key(blk, key);
        proof {
            lemma_entries_split(t, c);
            assert(entries_from_block(t, c) == t.spec_block_entries(c) + entries_from_block(
                t,
                c + 1,
            ));
            assert(all =~= entries_up_to_block(t, c) + t.spec_block_entries(c)
                + entries_from_block(t, c + 1));
            lemma_block_entries_sorted(t, c);
            if c > 0 {
                lemma_entries_up_to_bounded(t, c);
            }
        }
        let ghost up_len = entries_up_to_block(t, c).len() as int;
        let ghost blk_len = t.spec_block_entries(c).len() as int;
        if bi.is_valid() {
            self.blk_idx = id_block;
            self.blk_iter = bi;
            proof {
                let p = self.blk_iter.idx as int;
                assert(self.spec_rest() =~= all.skip(up_len + p));
                assert(all.len() - self.spec_rest().len() == up_len + p);
                assert forall|j: int| 0 <= j < p implies lex_lt(
                    (#[trigger] t.spec_block_entries(c)[j]).0,
                    key@,
                ) by {
                    assert(t.spec_block_entries(c)[j].0 == (*self.blk_iter.block).spec_key_at(j));
                }
                self.lemma_skipped_below(t, c, p, key@);
                assert(lex_le(key@, self.spec_rest()[0].0)) by {
                    assert(self.spec_rest()[0] == t.spec_block_entries(c)[p]);
                    assert(t.spec_block_entries(c)[p].0 == (*self.blk_iter.block).spec_key_at(p));
                }
            }
        } else {
            proof {
                // Every key of block `c` is below the probe.
                assert forall|j: int| 0 <= j < blk_len implies lex_lt(
                    (#[trigger] t.spec_block_entries(c)[j]).0,
                    key@,
                ) by {
                    assert(t.spec_block_entries(c)[j].0 == (*bi.block).spec_key_at(j));
                }
            }
            let nblocks = self.table.num_of_blocks();
            if id_block + 1 < nblocks {
                let blk2 = self.table.read_block_cached(id_block + 1);
                self.blk_iter = BlockIterator::create_and_seek_to_first(blk2);
                self.blk_idx = id_block + 1;
                proof {
                    assert(entries_from_block(t, c + 1) == t.spec_block_entries(c + 1)
                        + entries_from_block(t, c + 2));
                    assert(self.spec_rest() =~= all.skip(up_len + blk_len));
                    assert(all.len() - self.spec_rest().len() == up_len + blk_len);
                    self.lemma_skipped_below(t, c, blk_len, key@);
                    assert(self.spec_rest()[0] == t.spec_block_entries(c + 1)[0]);
                    assert(image_block_ok(t.file.spec_data(), c + 1));
                    assert(self.spec_rest()[0].0 == t.block_meta@[c + 1]@.first_key);
                    assert(lex_lt(key@, t.block_meta@[c + 1]@.first_key));
                }
            } else {
                self.blk_idx = id_block;
                self.blk_iter = bi;
                proof {
                    assert(c + 1 == t.spec_num_blocks());
                    assert(entries_from_block(t, c + 1) =~= Seq::<(Seq<u8>, Seq<u8>)>::empty());
                    assert(self.spec_rest().len() == 0);
                    assert(self.spec_rest() =~= all.skip(all.len() as int));
                    assert(all.len() == up_len + blk_len);
                    self.lemma_skipped_below(t, c, blk_len, key@);
                }
            }
        }
        Ok(())
    }

    /// Entries before the cut all lie below the probe: the first `p` entries
    /// of block `c`, and everything in the blocks before it.
    proof fn lemma_skipped_below(&self, t: SsTable, c: int, p: int, probe: Seq<u8>)
        requires
            t.wf(),
            0 <= c < t.spec_num_blocks(),
            0 <= p <= t.spec_block_entries(c).len(),
            entries_from_block(t, 0) == entries_up_to_block(t, c) + t.spec_block_entries(c)
                + entries_from_block(t, c + 1),
            c > 0 ==> lex_le(t.block_meta@[c]@.first_key, probe),
            c > 0 ==> forall|j: int|
                0 <= j < entries_up_to_block(t, c).len() ==> lex_le(
                    (#[trigger] entries_up_to_block(t, c)[j]).0,
                    t.block_meta@[c - 1]@.last_key,
                ),
            forall|j: int|
                0 <= j < p ==> lex_lt((#[trigger] t.spec_block_entries(c)[j]).0, probe),
        ensures
            forall|j: int|
                0 <= j < entries_up_to_block(t, c).len() + p ==> lex_lt(
                    (#[trigger] entries_from_block(t, 0)[j]).0,
                    probe,
                ),
    {
        let all = entries_from_block(t, 0);
        let up = entries_up_to_block(t, c);
        assert forall|j: int| 0 <= j < up.len() + p implies lex_lt(
            (#[trigger] all[j]).0,
            probe,
        ) by {
            if j < up.len() {
                assert(all[j] == up[j]);
                assert(c > 0);
                assert(lex_le(up[j].0, t.block_meta@[c - 1]@.last_key));
                assert(lex_lt(t.block_meta@[c - 1]@.last_key, t.block_meta@[c]@.first_key));
                lemma_lex_le_lt_trans(
                    up[j].0,
                    t.block_meta@[c - 1]@.last_key,
                    t.block_meta@[c]@.first_key,
                );
                lemma_lex_lt_le_trans(up[j].0, t.block_meta@[c]@.first_key, probe);
            } else {
                assert(all[j] == t.spec_block_entries(c)[j - up.len()]);
                assert(lex_lt(t.spec_block_entries(c)[j - up.len()].0, probe));
            }
        }
    }
}

impl StorageIterator for SsTableIterator {
    open spec fn inv(&self) -> bool {
        self.wf()
    }

    open spec fn rest(&self) -> Seq<(Seq<u8>, Seq<u8>)> {
        self.spec_rest()
    }

    proof fn lemma_rest_sorted(&self) {
        let t = *self.table;
        let c = self.blk_idx as int;
        if self.blk_iter.spec_valid() {
            lemma_entries_from_sorted(t, c);
            let from_c = entries_from_block(t, c);
            let p = self.blk_iter.idx as int;
            assert(from_c == t.spec_block_entries(c) + entries_from_block(t, c + 1));
            assert(self.spec_rest() =~= from_c.skip(p));
            assert forall|i: int, j: int| 0 <= i < j < self.spec_rest().len() implies lex_lt(
                self.spec_rest()[i].0,
                self.spec_rest()[j].0,
            ) by {
                assert(self.spec_rest()[i] == from_c[p + i]);
                assert(self.spec_rest()[j] == from_c[p + j]);
            }
        }
    }

    fn key(&self) -> (r: &[u8]) {
        proof {
            assert(self.spec_rest()[0] == (*self.table).spec_block_entries(self.blk_idx as int)[
                self.blk_iter.idx as int]);
        }
        self.blk_iter.key()
    }

    fn value(&self) -> (r: &[u8]) {
        proof {
            assert(self.spec_rest()[0] == (*self.table).spec_block_entries(self.blk_idx as int)[
                self.blk_iter.idx as int]);
        }
        self.blk_iter.value()
    }

    fn is_valid(&self) -> (r: bool) {
        self.blk_iter.is_valid()
    }

    fn next(&mut self) -> (r: Result<(), Error>)
        ensures
            r is Ok,
    {
        let ghost t = old(self).tbl();
        let ghost c = self.blk_idx as int;
        let ghost p = self.blk_iter.idx as int;
        let ghost blk = (*old(self).table).spec_block_entries(c);
        self.blk_iter.next();
        if !self.blk_iter.is_valid() {
            let n = self.table.num_of_blocks();
            if self.blk_idx + 1 < n {
                let blk2 = self.table.read_block_cached(self.blk_idx + 1);
                self.blk_iter = BlockIterator::create_and_seek_to_first(blk2);
                self.blk_idx = self.blk_idx + 1;
                proof {
                    assert(p + 1 == blk.len());
                    assert(entries_from_block(t, c + 1) == t.spec_block_entries(c + 1)
                        + entries_from_block(t, c + 2));
                    assert(self.spec_rest() =~= entries_from_block(t, c + 1));
                    assert(old(self).spec_rest().skip(1) =~= entries_from_block(t, c + 1));
                }
            } else {
                proof {
                    assert(p + 1 == blk.len());
                    assert(c + 1 == t.spec_num_blocks());
                    assert(entries_from_block(t, c + 1) =~= Seq::<(Seq<u8>, Seq<u8>)>::empty());
                    assert(old(self).spec_rest().len() == 1);
                    assert(self.spec_rest() =~= old(self).spec_rest().skip(1));
                }
            }
        } else {
            proof {
                assert(self.spec_rest() =~= old(self).spec_rest().skip(1));
            }
        }
        Ok(())
    }
}

} // verus!
