//! The block builder: accepts strictly ascending key/value pairs until the
//! encoded block would outgrow the target size. The first entry is accepted
//! unconditionally, even when oversize; every later entry is accepted
//! exactly when the encoded block stays within `block_size` bytes.

use vstd::prelude::*;

use crate::block::{
    be16, block_entries, rec_end, rec_entry, rec_in_bounds, rec_key, rec_val, Block,
};
use crate::keys::{entries_sorted, lex_lt, Entry};

verus! {

/// Appending bytes to `data` disturbs no record that already lies within it.
pub proof fn lemma_rec_append(data: Seq<u8>, suffix: Seq<u8>, off: int)
    requires
        rec_in_bounds(data, off),
    ensures
        rec_in_bounds(data + suffix, off),
        rec_entry(data + suffix, off) == rec_entry(data, off),
        rec_end(data + suffix, off) == rec_end(data, off),
{
    let d2 = data + suffix;
    assert(rec_key(d2, off) =~= rec_key(data, off));
    assert(rec_val(d2, off) =~= rec_val(data, off));
}

/// Append a slice's bytes to a vector.
pub(crate) fn push_slice(out: &mut Vec<u8>, s: &[u8])
    ensures
        final(out)@ == old(out)@ + s@,
{
    let mut i: usize = 0;
    proof {
        assert(out@ =~= old(out)@ + s@.take(0));
    }
    while i < s.len()
        invariant
            i <= s@.len(),
            out@ == old(out)@ + s@.take(i as int),
        decreases s@.len() - i,
    {
        out.push(s[i]);
        proof {
            assert(old(out)@ + s@.take(i as int) + seq![s@[i as int]] =~= old(out)@ + s@.take(
                i + 1,
            ));
        }
        i = i + 1;
    }
    proof {
        assert(s@.take(s@.len() as int) =~= s@);
    }
}

/// Builds a single sorted block.
pub struct BlockBuilder {
    pub offsets: Vec<u16>,
    pub data: Vec<u8>,
    pub block_size: usize,
}

impl BlockBuilder {
    /// The entries added so far.
    pub open spec fn entries(&self) -> Seq<Entry> {
        block_entries(self.data@, self.offsets@)
    }

    /// Size of the block as `encode` would lay it out now.
    pub open spec fn encoded_size(&self) -> int {
        self.data@.len() as int + 2 * self.offsets@.len() as int + 2
    }

    /// Internal invariant: buffers form a well-formed sorted block of
    /// non-empty keys, and the size accounting that keeps every offset
    /// within 16 bits holds.
    pub open spec fn wf(&self) -> bool {
        &&& self.offsets@.len() <= 0xFFFF
        &&& forall|i: int|
            0 <= i < self.offsets@.len() ==> rec_in_bounds(
                self.data@,
                #[trigger] self.offsets@[i] as int,
            )
        &&& entries_sorted(self.entries())
        &&& forall|i: int| 0 <= i < self.entries().len() ==> #[trigger] self.entries()[i].0.len() > 0
        &&& self.block_size <= 0xFFFF
        &&& self.offsets@.len() == 0 ==> self.data@.len() == 0
        &&& self.offsets@.len() >= 2 ==> self.encoded_size() <= self.block_size
        &&& self.encoded_size() <= 0x40000
    }

    /// Create a builder that targets blocks of `block_size` encoded bytes.
    /// Offsets are 16-bit, so a block larger than `0xFFFF` is not encodable.
    pub fn new(block_size: usize) -> (r: BlockBuilder)
        requires
            block_size <= 0xFFFF,
        ensures
            r.wf(),
            r.entries() == Seq::<Entry>::empty(),
            r.block_size == block_size,
    {
        let r = BlockBuilder { offsets: Vec::new(), data: Vec::new(), block_size };
        proof {
            assert(r.entries() =~= Seq::<Entry>::empty());
        }
        r
    }

    /// Whether no entry has been added yet.
    pub fn is_empty(&self) -> (r: bool)
        ensures
            r == (self.entries().len() == 0),
    {
        self.offsets.len() == 0
    }

    /// Add an entry. The first entry is always accepted; a later entry is
    /// accepted exactly when the encoded block stays within `block_size`.
    /// Keys must arrive strictly ascending and non-empty.
    pub fn add(&mut self, key: &[u8], value: &[u8]) -> (r: bool)
        requires
            old(self).wf(),
            0 < key@.len() <= 0xFFFF,
            value@.len() <= 0xFFFF,
            old(self).entries().len() > 0 ==> lex_lt(
                old(self).entries().last().0,
                key@,
            ),
        ensures
            final(self).wf(),
            final(self).block_size == old(self).block_size,
            r == (old(self).entries().len() == 0 || old(self).encoded_size() + key@.len()
                + value@.len() + 6 <= old(self).block_size),
            r ==> final(self).entries() == old(self).entries().push((key@, value@)),
            !r ==> *final(self) == *old(self),
    {
        let n = self.offsets.len();
        if n > 0 {
            let new_size = self.data.len() + 2 * n + 2 + key.len() + value.len() + 6;
            if new_size > self.block_size {
                return false;
            }
        }
        let ghost old_data = self.data@;
        let ghost old_offsets = self.offsets@;
        let off = self.data.len() as u16;
        self.offsets.push(off);
        let klen = key.len() as u16;
        self.data.push((klen / 256) as u8);
        self.data.push((klen % 256) as u8);
        push_slice(&mut self.data, key);
        let vlen = value.len() as u16;
        self.data.push((vlen / 256) as u8);
        self.data.push((vlen % 256) as u8);
        push_slice(&mut self.data, value);
        proof {
            let rec = seq![(klen / 256) as u8, (klen % 256) as u8] + key@ + seq![
                (vlen / 256) as u8,
                (vlen % 256) as u8,
            ] + value@;
            assert(self.data@ =~= old_data + rec);
            let o = off as int;
            assert(be16(self.data@[o], self.data@[o + 1]) == klen);
            assert(rec_key(self.data@, o) =~= key@);
            assert(be16(self.data@[o + 2 + key@.len()], self.data@[o + 2 + key@.len() + 1])
                == vlen);
            assert(rec_val(self.data@, o) =~= value@);
            assert(rec_in_bounds(self.data@, o));
            assert forall|i: int| 0 <= i < old_offsets.len() implies rec_in_bounds(
                self.data@,
                #[trigger] self.offsets@[i] as int,
            ) && rec_entry(self.data@, self.offsets@[i] as int) == rec_entry(
                old_data,
                old_offsets[i] as int,
            ) by {
                lemma_rec_append(old_data, rec, old_offsets[i] as int);
            };
            assert(self.entries() =~= old(self).entries().push((key@, value@)));
            let es = self.entries();
            let m = es.len() as int;
            assert forall|i: int, j: int| 0 <= i < j < m implies lex_lt(es[i].0, es[j].0) by {
                if j < m - 1 {
                    assert(lex_lt(old(self).entries()[i].0, old(self).entries()[j].0));
                } else if i < m - 2 {
                    crate::keys::lemma_lex_trans(es[i].0, es[m - 2].0, es[m - 1].0);
                }
            };
        }
        true
    }

    /// Seal the builder into an immutable block.
    pub fn build(self) -> (r: Block)
        requires
            self.wf(),
        ensures
            r.wf(),
            r.sorted(),
            r.data@ == self.data@,
            r.offsets@ == self.offsets@,
            r.entries() == self.entries(),
            forall|i: int| 0 <= i < r.entries().len() ==> #[trigger] r.entries()[i].0.len() > 0,
    {
        Block { data: self.data, offsets: self.offsets }
    }
}

} // verus!
