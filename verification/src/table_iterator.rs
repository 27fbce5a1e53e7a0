//! Iterator over the contents of an SST: picks a block through the meta
//! index, then scans and seeks within block iterators, hopping block
//! boundaries and the key gaps between them.

use vstd::prelude::*;

use std::sync::Arc;

use crate::block_iterator::BlockIterator;
use crate::error::LsmError;
use crate::keys::{lemma_seek_idx_unique, lex_lt, seek_idx, Entry};
use crate::table::{
    block_at, blocks_wf, entries_from, lemma_entries_from_below, lemma_entries_from_sorted,
    lemma_entries_from_split, lemma_entries_from_len_mono, lemma_prefix_below,
    lemma_suffix_at_least, SsTable,
};

verus! {

/// An iterator over the contents of an SSTable.
pub struct SsTableIterator {
    /// The shared table under iteration.
    pub table: Arc<SsTable>,
    /// Cursor within the current block.
    pub blk_iter: BlockIterator,
    /// Index of the current block; the block count when past the end.
    pub blk_idx: usize,
}

impl SsTableIterator {
    /// The file bytes of the underlying table.
    pub open spec fn tdata(&self) -> Seq<u8> {
        (*self.table).file.data@
    }

    /// The meta records of the underlying table.
    pub open spec fn tmeta(&self) -> Seq<crate::table::BlockMeta> {
        (*self.table).block_meta@
    }

    /// The meta-section offset of the underlying table.
    pub open spec fn tmoff(&self) -> int {
        (*self.table).block_meta_offset as int
    }

    /// Internal invariant: the table is well formed, the inner cursor is
    /// well formed, and while the block index is in range the cursor is
    /// valid and sits on exactly that block.
    pub open spec fn wf(&self) -> bool {
        &&& (*self.table).wf()
        &&& self.blk_iter.wf()
        &&& self.blk_idx as int <= self.tmeta().len()
        &&& (self.blk_idx as int) < self.tmeta().len() ==> {
            &&& self.blk_iter.spec_valid()
            &&& (*self.blk_iter.block).entries() == block_at(
                self.tdata(),
                self.tmeta(),
                self.tmoff(),
                self.blk_idx as int,
            )
        }
    }

    /// The entries from the cursor position to the end of the table.
    pub open spec fn remaining(&self) -> Seq<Entry> {
        if (self.blk_idx as int) < self.tmeta().len() {
            self.blk_iter.remaining() + entries_from(
                self.tdata(),
                self.tmeta(),
                self.tmoff(),
                self.blk_idx as int + 1,
            )
        } else {
            Seq::empty()
        }
    }

    /// Create a new iterator and seek to the first key-value pair in the
    /// first data block.
    #[verifier::spinoff_prover]
    #[verifier::rlimit(100)]
    pub fn create_and_seek_to_first(table: Arc<SsTable>) -> (r: SsTableIterator)
        requires
            (*table).wf(),
        ensures
            r.wf(),
            r.table == table,
            r.remaining() == (*table).entries(),
    {
        proof {
            assert(crate::table::block_ok_at(
                (*table).file.data@,
                (*table).block_meta@,
                (*table).block_meta_offset as int,
                0,
            ));
        }
        let block = table.read_block(0);
        let blk_iter = BlockIterator::create_and_seek_to_first(block);
        let r = SsTableIterator { table, blk_iter, blk_idx: 0 };
        proof {
            assert(r.remaining() =~= (*r.table).entries());
        }
        r
    }

    /// Seek to the first key-value pair in the first data block.
    pub fn seek_to_first(&mut self) -> (r: Result<(), LsmError>)
        requires
            old(self).wf(),
        ensures
            final(self).wf(),
            final(self).table == old(self).table,
            r is Ok,
            final(self).remaining() == (*old(self).table).entries(),
    {
        proof {
            assert(crate::table::block_ok_at(self.tdata(), self.tmeta(), self.tmoff(), 0));
        }
        let block = self.table.read_block(0);
        self.blk_iter = BlockIterator::create_and_seek_to_first(block);
        self.blk_idx = 0;
        proof {
            assert(self.remaining() =~= (*self.table).entries());
        }
        Ok(())
    }

    /// Create a new iterator and seek to the first key-value pair whose key
    /// is at least `key`.
    pub fn create_and_seek_to_key(table: Arc<SsTable>, key: &[u8]) -> (r: SsTableIterator)
        requires
            (*table).wf(),
        ensures
            r.wf(),
            r.table == table,
            r.remaining() == (*table).entries().skip(seek_idx((*table).entries(), key@)),
    {
        let mut iter = Self::create_and_seek_to_first(table);
        let _ = iter.seek_to_key(key);
        iter
    }

    /// Seek to the first key-value pair whose key is at least `key`. A key
    /// above the table's last key invalidates the iterator; a key in the
    /// gap between two blocks lands on the next block's first entry.
    pub fn seek_to_key(&mut self, key: &[u8]) -> (r: Result<(), LsmError>)
        requires
            old(self).wf(),
        ensures
            final(self).wf(),
            final(self).table == old(self).table,
            r is Ok,
            final(self).remaining() == (*old(self).table).entries().skip(
                seek_idx((*old(self).table).entries(), key@),
            ),
    {
        let ghost data = self.tdata();
        let ghost meta = self.tmeta();
        let ghost moff = self.tmoff();
        let ghost tes = (*self.table).entries();
        let n = self.table.num_blocks();
        let bi = self.table.find_block_idx(key);
        self.blk_idx = bi;
        if bi >= n {
            proof {
                lemma_entries_from_sorted(data, meta, moff, 0);
                lemma_entries_from_below(data, meta, moff, 0, key@);
                lemma_seek_idx_unique(tes, key@, tes.len() as int);
                assert(tes.skip(tes.len() as int) =~= Seq::<Entry>::empty());
            }
            return Ok(());
        }
        let block = self.table.read_block(bi);
        self.blk_iter = BlockIterator::create_and_seek_to_key(block, key);
        let ghost blk = block_at(data, meta, moff, bi as int);
        let ghost li = seek_idx(blk, key@);
        let ghost pos = tes.len() - entries_from(data, meta, moff, bi as int).len() + li;
        proof {
            assert(crate::table::block_ok_at(data, meta, moff, bi as int));
            crate::keys::lemma_seek_idx(blk, key@);
            lemma_entries_from_split(data, meta, moff, 0, bi as int, li);
            lemma_entries_from_len_mono(data, meta, moff, 0, bi as int);
            // every entry before `pos` is below `key`
            lemma_prefix_below(data, meta, moff, 0, bi as int, key@);
            lemma_entries_from_split(data, meta, moff, 0, bi as int, 0);
            let prefix = tes.len() - entries_from(data, meta, moff, bi as int).len();
            assert forall|t: int| 0 <= t < pos implies lex_lt(#[trigger] tes[t].0, key@) by {
                if t >= prefix {
                    assert(tes.skip(prefix)[t - prefix] == tes[t]);
                    assert(tes.skip(prefix)[t - prefix] == blk[t - prefix]);
                    assert(lex_lt(blk[t - prefix].0, key@));
                }
            };
            // every entry from `pos` on is at least `key`
            lemma_suffix_at_least(data, meta, moff, bi as int, key@);
            assert forall|t: int| pos <= t < tes.len() implies !lex_lt(
                #[trigger] tes[t].0,
                key@,
            ) by {
                let tail = entries_from(data, meta, moff, bi as int + 1);
                assert(tes.skip(pos) == blk.skip(li) + tail);
                assert(tes.skip(pos)[t - pos] == tes[t]);
                if t - pos < blk.skip(li).len() {
                    assert(tes[t] == blk[li + t - pos]);
                    assert(!lex_lt(blk[li + t - pos].0, key@));
                } else {
                    assert(tes[t] == tail[t - pos - blk.skip(li).len()]);
                }
            };
            lemma_entries_from_sorted(data, meta, moff, 0);
            lemma_seek_idx_unique(tes, key@, pos);
        }
        if !self.blk_iter.is_valid() {
            self.blk_idx = bi + 1;
            if bi + 1 < n {
                let b2 = self.table.read_block(bi + 1);
                self.blk_iter = BlockIterator::create_and_seek_to_first(b2);
            }
            proof {
                assert(blk.skip(li) =~= Seq::<Entry>::empty());
                assert(self.remaining() =~= tes.skip(pos));
            }
        } else {
            proof {
                assert(self.remaining() =~= tes.skip(pos));
            }
        }
        Ok(())
    }

}

impl crate::iterators::StorageIterator for SsTableIterator {
    /// The entries from the cursor position to the end of the table.
    open spec fn entries(&self) -> Seq<Entry> {
        self.remaining()
    }

    /// The iterator invariant.
    open spec fn inv(&self) -> bool {
        self.wf()
    }

    /// Return the key held by the underlying block iterator; the empty
    /// slice once the cursor has run off the table.
    fn key(&self) -> (r: &[u8]) {
        if self.blk_idx < self.table.block_meta.len() {
            self.blk_iter.key()
        } else {
            crate::keys::empty_key()
        }
    }

    /// Return the value held by the underlying block iterator; the empty
    /// slice once the cursor has run off the table.
    fn value(&self) -> (r: &[u8]) {
        if self.blk_idx < self.table.block_meta.len() {
            self.blk_iter.value()
        } else {
            crate::keys::empty_key()
        }
    }

    /// Whether the underlying block iterator is valid and in range.
    fn is_valid(&self) -> (r: bool) {
        self.blk_iter.is_valid() && self.blk_idx < self.table.block_meta.len()
    }

    /// Move to the next entry, hopping to the next block when the current
    /// one is exhausted. Fails on an invalid iterator.
    fn next(&mut self) -> (r: Result<(), LsmError>)
        ensures
            final(self).table == old(self).table,
            r is Err ==> *final(self) == *old(self) && r == Result::<(), LsmError>::Err(
                LsmError::Misuse,
            ),
    {
        let ghost data = self.tdata();
        let ghost meta = self.tmeta();
        let ghost moff = self.tmoff();
        if !self.is_valid() {
            return Err(LsmError::Misuse);
        }
        let n = self.table.num_blocks();
        self.blk_iter.next();
        if !self.blk_iter.is_valid() {
            proof {
                assert(old(self).blk_iter.remaining().len() == 1);
            }
            self.blk_idx = self.blk_idx + 1;
            if self.blk_idx < n {
                proof {
                    assert(crate::table::block_ok_at(
                        data,
                        meta,
                        moff,
                        self.blk_idx as int,
                    ));
                }
                let block = self.table.read_block(self.blk_idx);
                self.blk_iter = BlockIterator::create_and_seek_to_first(block);
            }
            proof {
                assert(self.remaining() =~= old(self).remaining().skip(1));
            }
        } else {
            proof {
                assert(self.remaining() =~= old(self).remaining().skip(1));
            }
        }
        Ok(())
    }
}

} // verus!
