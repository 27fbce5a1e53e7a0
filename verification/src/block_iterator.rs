//! Forward cursor over a block: seek to the first entry, seek to the
//! smallest entry whose key is at least a target, and step entry by entry.
//! An empty owned key marks an invalid cursor.

use vstd::prelude::*;
use vstd::slice::{slice_subrange, slice_to_vec};

use std::sync::Arc;

use crate::block::{be16_read, Block};
use crate::keys::{key_lt, lemma_lex_trans, lemma_seek_idx, lex_lt, seek_idx, Entry};

verus! {

/// Iterates on a block.
pub struct BlockIterator {
    /// The shared block under the cursor.
    pub block: Arc<Block>,
    /// The current key, copied out; empty when the iterator is invalid.
    pub key: Vec<u8>,
    /// Byte range of the current value within the block's `data`.
    pub value_range: (usize, usize),
    /// Index of the current entry.
    pub idx: usize,
    /// The first key in the block, empty when the block is empty.
    pub first_key: Vec<u8>,
}

impl BlockIterator {
    /// The entries of the underlying block.
    pub open spec fn entries(&self) -> Seq<Entry> {
        (*self.block).entries()
    }

    /// A non-empty owned key marks a valid cursor.
    pub open spec fn spec_valid(&self) -> bool {
        self.key@.len() > 0
    }

    /// The entries from the cursor to the end of the block; empty when the
    /// cursor is invalid.
    pub open spec fn remaining(&self) -> Seq<Entry> {
        if self.spec_valid() {
            self.entries().skip(self.idx as int)
        } else {
            Seq::empty()
        }
    }

    /// Internal invariant: the block is fit to iterate, a valid cursor
    /// points at a real entry whose key and value range it mirrors, and
    /// `first_key` holds the block's first key.
    pub open spec fn wf(&self) -> bool {
        &&& (*self.block).ok()
        &&& self.spec_valid() ==> {
            &&& (self.idx as int) < self.entries().len()
            &&& self.key@ == self.entries()[self.idx as int].0
            &&& self.value_range.0 <= self.value_range.1 <= (*self.block).data@.len()
            &&& (*self.block).data@.subrange(
                self.value_range.0 as int,
                self.value_range.1 as int,
            ) == self.entries()[self.idx as int].1
        }
        &&& self.first_key@ == if self.entries().len() > 0 {
            self.entries()[0].0
        } else {
            Seq::<u8>::empty()
        }
    }

    fn new(block: Arc<Block>) -> (r: BlockIterator)
        requires
            (*block).ok(),
        ensures
            r.wf(),
            r.block == block,
            !r.spec_valid(),
    {
        let first_key: Vec<u8> = if block.offsets.len() > 0 {
            slice_to_vec(Self::seek_to_index_util(&*block, 0).0)
        } else {
            Vec::new()
        };
        BlockIterator { block, key: Vec::new(), value_range: (0, 0), idx: 0, first_key }
    }

    /// Creates a block iterator and seeks to the first entry. On an empty
    /// block the iterator is invalid from the start.
    pub fn create_and_seek_to_first(block: Arc<Block>) -> (r: BlockIterator)
        requires
            (*block).ok(),
        ensures
            r.wf(),
            r.block == block,
            r.remaining() == (*block).entries(),
            r.spec_valid() == ((*block).entries().len() > 0),
    {
        let mut iter = Self::new(block);
        iter.seek_to_first();
        proof {
            assert(iter.entries().skip(0) =~= iter.entries());
        }
        iter
    }

    /// Creates a block iterator and seeks to the first entry whose key is
    /// at least `key`; invalid when every key in the block is smaller.
    pub fn create_and_seek_to_key(block: Arc<Block>, key: &[u8]) -> (r: BlockIterator)
        requires
            (*block).ok(),
        ensures
            r.wf(),
            r.block == block,
            r.remaining() == (*block).entries().skip(seek_idx((*block).entries(), key@)),
            r.spec_valid() == (seek_idx((*block).entries(), key@) < (*block).entries().len()),
    {
        let mut iter = Self::new(block);
        iter.seek_to_key(key);
        iter
    }

    /// Returns the current key; empty when the iterator is invalid.
    pub fn key(&self) -> (r: &[u8])
        requires
            self.wf(),
        ensures
            r@ == self.key@,
            self.spec_valid() ==> r@ == self.remaining()[0].0,
    {
        self.key.as_slice()
    }

    /// Returns the current value.
    pub fn value(&self) -> (r: &[u8])
        requires
            self.wf(),
            self.spec_valid(),
        ensures
            r@ == self.remaining()[0].1,
    {
        slice_subrange(self.block.data.as_slice(), self.value_range.0, self.value_range.1)
    }

    /// Returns true if the iterator is valid.
    pub fn is_valid(&self) -> (r: bool)
        requires
            self.wf(),
        ensures
            r == self.spec_valid(),
            r == (self.remaining().len() > 0),
    {
        !self.key.is_empty()
    }

    /// Seeks to the first entry in the block.
    pub fn seek_to_first(&mut self)
        requires
            old(self).wf(),
        ensures
            final(self).wf(),
            final(self).block == old(self).block,
            final(self).remaining() == old(self).entries().skip(0),
            final(self).spec_valid() == (old(self).entries().len() > 0),
    {
        self.seek_to_index(0);
    }

    /// Parse the record at `index`: its key slice and the byte range of its
    /// value within `data`.
    pub fn seek_to_index_util(block: &Block, index: usize) -> (r: (&[u8], (usize, usize)))
        requires
            block.wf(),
            (index as int) < block.offsets@.len(),
        ensures
            r.0@ == block.entries()[index as int].0,
            r.1.0 <= r.1.1 <= block.data@.len(),
            block.data@.subrange(r.1.0 as int, r.1.1 as int) == block.entries()[index as int].1,
    {
        let off = block.offsets[index] as usize;
        let klen = be16_read(block.data[off], block.data[off + 1]) as usize;
        let key_content = slice_subrange(block.data.as_slice(), off + 2, off + 2 + klen);
        let voff = off + 2 + klen;
        let vlen = be16_read(block.data[voff], block.data[voff + 1]) as usize;
        let value_start = voff + 2;
        let value_end = value_start + vlen;
        (key_content, (value_start, value_end))
    }

    /// Position the cursor at entry `index`; past the last entry the
    /// cursor becomes invalid.
    pub fn seek_to_index(&mut self, index: usize)
        requires
            old(self).wf(),
        ensures
            final(self).wf(),
            final(self).block == old(self).block,
            (index as int) < old(self).entries().len() ==> final(self).spec_valid()
                && final(self).idx == index && final(self).remaining() == old(
                self,
            ).entries().skip(index as int),
            (index as int) >= old(self).entries().len() ==> !final(self).spec_valid()
                && final(self).remaining() == Seq::<Entry>::empty(),
    {
        if index >= self.block.offsets.len() {
            self.key.clear();
            return;
        }
        let (key_content, value_range) = Self::seek_to_index_util(&*self.block, index);
        let owned = slice_to_vec(key_content);
        self.key = owned;
        self.value_range = value_range;
        self.idx = index;
    }

    /// Move to the next entry in the block.
    pub fn next(&mut self)
        requires
            old(self).wf(),
            old(self).spec_valid(),
        ensures
            final(self).wf(),
            final(self).block == old(self).block,
            final(self).remaining() == old(self).remaining().skip(1),
            final(self).spec_valid() == (old(self).remaining().len() > 1),
    {
        let i = self.idx;
        self.seek_to_index(i + 1);
        proof {
            if i + 1 < old(self).entries().len() {
                assert(old(self).entries().skip(i + 1) =~= old(self).remaining().skip(1));
            } else {
                assert(old(self).remaining().skip(1) =~= Seq::<Entry>::empty());
            }
        }
    }

    /// Seek to the first entry whose key is at least `key`, by binary
    /// partition over the offset index; invalid when there is none.
    pub fn seek_to_key(&mut self, key: &[u8])
        requires
            old(self).wf(),
        ensures
            final(self).wf(),
            final(self).block == old(self).block,
            final(self).remaining() == old(self).entries().skip(
                seek_idx(old(self).entries(), key@),
            ),
            final(self).spec_valid() == (seek_idx(old(self).entries(), key@) < old(
                self,
            ).entries().len()),
    {
        let ghost es = (*self.block).entries();
        proof {
            lemma_seek_idx(es, key@);
        }
        let n = self.block.offsets.len();
        let mut lo: usize = 0;
        let mut hi: usize = n;
        while lo < hi
            invariant
                lo <= hi <= n,
                *self == *old(self),
                self.wf(),
                n == es.len(),
                es == (*self.block).entries(),
                forall|i: int| 0 <= i < lo ==> lex_lt(#[trigger] es[i].0, key@),
                forall|i: int| hi <= i < n ==> !lex_lt(#[trigger] es[i].0, key@),
            decreases hi - lo,
        {
            let mid = lo + (hi - lo) / 2;
            let k = Self::seek_to_index_util(&*self.block, mid).0;
            if key_lt(k, key) {
                proof {
                    assert forall|i: int| 0 <= i < mid + 1 implies lex_lt(
                        #[trigger] es[i].0,
                        key@,
                    ) by {
                        if i < mid {
                            lemma_lex_trans(es[i].0, es[mid as int].0, key@);
                        }
                    };
                }
                lo = mid + 1;
            } else {
                proof {
                    assert forall|i: int| mid <= i < n implies !lex_lt(
                        #[trigger] es[i].0,
                        key@,
                    ) by {
                        if i > mid && lex_lt(es[i].0, key@) {
                            lemma_lex_trans(es[mid as int].0, es[i].0, key@);
                        }
                    };
                }
                hi = mid;
            }
        }
        proof {
            let s = seek_idx(es, key@);
            if lo < s {
                assert(lex_lt(es[lo as int].0, key@));
            }
            if s < lo {
                assert(lex_lt(es[s].0, key@));
            }
            assert(lo == s);
        }
        self.seek_to_index(lo);
    }
}

} // verus!
