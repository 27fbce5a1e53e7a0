//! Builds an SSTable from a strictly ascending stream of key/value pairs:
//! fills a block builder, seals full blocks into the data buffer with their
//! meta records, and finally appends the encoded meta section and the
//! 4-byte trailer that locates it.

use vstd::prelude::*;
use vstd::slice::slice_to_vec;

use crate::block_builder::{push_slice, BlockBuilder};
use crate::block::{lemma_encode_decode, spec_encode};
use crate::keys::{lex_lt, Entry};
use crate::table::{
    all_entries, block_at, block_bytes, block_end, block_ok_at, blocks_wf, entries_from,
    push_u32_be, spec_meta_enc, be32_bytes, BlockMeta, FileObject, SsTable,
};

verus! {

/// Blocks that parse alike hold entries alike: `entries_from` depends on
/// the region only through each block's decoded entries.
proof fn lemma_entries_from_congruent(
    data1: Seq<u8>,
    meta1: Seq<BlockMeta>,
    moff1: int,
    data2: Seq<u8>,
    meta2: Seq<BlockMeta>,
    moff2: int,
    i: int,
)
    requires
        meta1.len() == meta2.len(),
        forall|j: int|
            0 <= j < meta1.len() ==> #[trigger] block_at(data1, meta1, moff1, j) == block_at(
                data2,
                meta2,
                moff2,
                j,
            ),
    ensures
        entries_from(data1, meta1, moff1, i) == entries_from(data2, meta2, moff2, i),
    decreases meta1.len() - i,
{
    if 0 <= i && i < meta1.len() {
        lemma_entries_from_congruent(data1, meta1, moff1, data2, meta2, moff2, i + 1);
    }
}

/// Appending one block's entries: when a region grows by one block whose
/// older blocks parse as before, the concatenated entries grow by exactly
/// the new block's entries.
proof fn lemma_seal_entries(
    data1: Seq<u8>,
    meta1: Seq<BlockMeta>,
    moff1: int,
    data2: Seq<u8>,
    meta2: Seq<BlockMeta>,
    moff2: int,
    i: int,
)
    requires
        meta2.len() == meta1.len() + 1,
        0 <= i <= meta1.len(),
        forall|j: int|
            0 <= j < meta1.len() ==> #[trigger] block_at(data1, meta1, moff1, j) == block_at(
                data2,
                meta2,
                moff2,
                j,
            ),
    ensures
        entries_from(data2, meta2, moff2, i) == entries_from(data1, meta1, moff1, i) + block_at(
            data2,
            meta2,
            moff2,
            meta1.len() as int,
        ),
    decreases meta1.len() - i,
{
    if i == meta1.len() {
        assert(entries_from(data1, meta1, moff1, i) =~= Seq::<Entry>::empty());
        assert(entries_from(data2, meta2, moff2, i + 1) =~= Seq::<Entry>::empty());
        assert(entries_from(data2, meta2, moff2, i) =~= block_at(data2, meta2, moff2, i));
    } else {
        lemma_seal_entries(data1, meta1, moff1, data2, meta2, moff2, i + 1);
        assert(entries_from(data2, meta2, moff2, i) =~= entries_from(data1, meta1, moff1, i)
            + block_at(data2, meta2, moff2, meta1.len() as int));
    }
}

/// Builds an SSTable from key-value pairs.
pub struct SsTableBuilder {
    /// Builder of the currently open block.
    pub builder: BlockBuilder,
    /// First key of the currently open block; empty before any key arrives.
    pub first_key: Vec<u8>,
    /// Last key added so far.
    pub last_key: Vec<u8>,
    /// Encoded sealed blocks, end to end.
    pub data: Vec<u8>,
    /// Meta records of the sealed blocks.
    pub meta: Vec<BlockMeta>,
    /// Target encoded size of one block.
    pub block_size: usize,
}

impl SsTableBuilder {
    /// Every entry added so far: the sealed blocks' entries, then the open
    /// block's.
    pub open spec fn entries(&self) -> Seq<Entry> {
        all_entries(self.data@, self.meta@, self.data@.len() as int) + self.builder.entries()
    }

    /// Whether the open block accepts one more entry: the first entry is
    /// always accepted; a later one only while the encoded block stays
    /// within `block_size`. Mirrors the block builder's acceptance rule.
    pub open spec fn fits_open_block(&self, key: Seq<u8>, value: Seq<u8>) -> bool {
        self.builder.entries().len() == 0 || self.builder.encoded_size() + key.len() + value.len()
            + 6 <= self.block_size
    }

    /// Internal invariant.
    pub open spec fn wf(&self) -> bool {
        &&& self.builder.wf()
        &&& self.builder.block_size == self.block_size
        &&& self.block_size <= 0xFFFF
        &&& blocks_wf(self.data@, self.meta@, self.data@.len() as int)
        &&& self.meta@.len() == 0 ==> self.data@.len() == 0
        &&& self.builder.entries().len() == 0 ==> self.meta@.len() == 0
            && self.first_key@.len() == 0
        &&& self.builder.entries().len() > 0 ==> {
            &&& self.first_key@ == self.builder.entries()[0].0
            &&& self.last_key@ == self.builder.entries().last().0
            &&& self.meta@.len() > 0 ==> lex_lt(self.meta@.last().last_key@, self.first_key@)
        }
    }

    /// Create a builder targeting blocks of `block_size` encoded bytes.
    /// Offsets within a block are 16-bit, so a block larger than `0xFFFF`
    /// bytes is not encodable.
    pub fn new(block_size: usize) -> (r: SsTableBuilder)
        requires
            block_size <= 0xFFFF,
        ensures
            r.wf(),
            r.entries() == Seq::<Entry>::empty(),
            r.block_size == block_size,
            r.data@ == Seq::<u8>::empty(),
            r.meta@ == Seq::<BlockMeta>::empty(),
            r.first_key@ == Seq::<u8>::empty(),
            r.last_key@ == Seq::<u8>::empty(),
            r.builder.entries() == Seq::<Entry>::empty(),
    {
        let r = SsTableBuilder {
            builder: BlockBuilder::new(block_size),
            first_key: Vec::new(),
            last_key: Vec::new(),
            data: Vec::new(),
            meta: Vec::new(),
            block_size,
        };
        proof {
            assert(r.entries() =~= Seq::<Entry>::empty());
        }
        r
    }

    /// Seal the open block: record its meta, append its encoding to `data`,
    /// and start a fresh block builder.
    fn seal(&mut self)
        requires
            old(self).wf(),
            old(self).builder.entries().len() > 0,
        ensures
            blocks_wf(final(self).data@, final(self).meta@, final(self).data@.len() as int),
            all_entries(final(self).data@, final(self).meta@, final(self).data@.len() as int)
                == all_entries(old(self).data@, old(self).meta@, old(self).data@.len() as int)
                + old(self).builder.entries(),
            final(self).builder.wf(),
            final(self).builder.entries() == Seq::<Entry>::empty(),
            final(self).builder.block_size == old(self).block_size,
            final(self).block_size == old(self).block_size,
            final(self).meta@.len() == old(self).meta@.len() + 1,
            forall|i: int|
                0 <= i < old(self).meta@.len() ==> final(self).meta@[i] == old(self).meta@[i],
            final(self).meta@.last().offset == old(self).data@.len(),
            final(self).meta@.last().first_key@ == old(self).first_key@,
            final(self).meta@.last().last_key@ == old(self).last_key@,
            final(self).meta@.last().last_key@ == old(self).builder.entries().last().0,
            final(self).first_key == old(self).first_key,
            final(self).last_key == old(self).last_key,
            final(self).data@ == old(self).data@ + spec_encode(
                old(self).builder.data@,
                old(self).builder.offsets@,
            ),
            final(self).data@.len() == old(self).data@.len() + old(self).builder.encoded_size(),
            final(self).data@.len() > 0,
    {
        let ghost odata = self.data@;
        let ghost ometa = self.meta@;
        let ghost omoff = self.data@.len() as int;
        let mut sealed = BlockBuilder::new(self.block_size);
        core::mem::swap(&mut self.builder, &mut sealed);
        let block = sealed.build();
        let encoded = block.encode_to_vec();
        let offset = self.data.len();
        let m = BlockMeta {
            offset,
            first_key: slice_to_vec(self.first_key.as_slice()),
            last_key: slice_to_vec(self.last_key.as_slice()),
        };
        push_slice(&mut self.data, encoded.as_slice());
        self.meta.push(m);
        proof {
            let data2 = self.data@;
            let meta2 = self.meta@;
            let moff2 = self.data@.len() as int;
            let bi = ometa.len() as int;
            lemma_encode_decode(block.data@, block.offsets@);
            // older blocks keep their bytes, hence their entries
            assert forall|j: int| 0 <= j < bi implies #[trigger] block_bytes(
                data2,
                meta2,
                moff2,
                j,
            ) == block_bytes(odata, ometa, omoff, j) && block_ok_at(data2, meta2, moff2, j) by {
                assert(block_ok_at(odata, ometa, omoff, j));
                assert(block_end(meta2, moff2, j) == block_end(ometa, omoff, j));
                assert(block_bytes(data2, meta2, moff2, j) =~= block_bytes(
                    odata,
                    ometa,
                    omoff,
                    j,
                ));
            };
            // the new block's bytes are exactly its encoding
            assert(block_bytes(data2, meta2, moff2, bi) =~= encoded@);
            assert(block_at(data2, meta2, moff2, bi) == old(self).builder.entries());
            assert(block_ok_at(data2, meta2, moff2, bi));
            assert(blocks_wf(data2, meta2, moff2));
            lemma_seal_entries(odata, ometa, omoff, data2, meta2, moff2, 0);
        }
    }

    /// Adds a key-value pair. Keys must arrive strictly ascending and
    /// non-empty; keys and values are bounded by the 16-bit record fields.
    /// While the open block accepts the entry, only the open block and the
    /// key trackers move; once it is full, the block is sealed — its meta
    /// record pushed, its encoding appended to `data` — and a fresh block
    /// begins with this entry.
    pub fn add(&mut self, key: &[u8], value: &[u8])
        requires
            old(self).wf(),
            0 < key@.len() <= 0xFFFF,
            value@.len() <= 0xFFFF,
            old(self).entries().len() > 0 ==> lex_lt(old(self).entries().last().0, key@),
        ensures
            final(self).wf(),
            final(self).block_size == old(self).block_size,
            final(self).entries() == old(self).entries().push((key@, value@)),
            final(self).last_key@ == key@,
            old(self).data@.is_prefix_of(final(self).data@),
            old(self).fits_open_block(key@, value@) ==> final(self).data@ == old(self).data@,
            old(self).fits_open_block(key@, value@) ==> final(self).meta@ == old(self).meta@,
            old(self).fits_open_block(key@, value@) ==> final(self).builder.entries() == old(
                self,
            ).builder.entries().push((key@, value@)),
            old(self).fits_open_block(key@, value@) ==> final(self).first_key@ == (
            if old(self).builder.entries().len() == 0 {
                key@
            } else {
                old(self).first_key@
            }),
            !old(self).fits_open_block(key@, value@) ==> final(self).meta@.len() == old(
                self,
            ).meta@.len() + 1,
            !old(self).fits_open_block(key@, value@) ==> (forall|i: int|
                0 <= i < old(self).meta@.len() ==> final(self).meta@[i] == old(self).meta@[i]),
            !old(self).fits_open_block(key@, value@) ==> final(self).meta@.last().offset == old(
                self,
            ).data@.len(),
            !old(self).fits_open_block(key@, value@) ==> final(self).meta@.last().first_key@
                == old(self).first_key@,
            !old(self).fits_open_block(key@, value@) ==> final(self).meta@.last().last_key@ == old(
                self,
            ).last_key@,
            !old(self).fits_open_block(key@, value@) ==> final(self).data@ == old(self).data@
                + spec_encode(old(self).builder.data@, old(self).builder.offsets@),
            !old(self).fits_open_block(key@, value@) ==> final(self).builder.entries() == seq![
                (key@, value@),
            ],
            !old(self).fits_open_block(key@, value@) ==> final(self).first_key@ == key@,
    {
        proof {
            if old(self).builder.entries().len() > 0 {
                assert(old(self).entries().last() == old(self).builder.entries().last());
            }
        }
        if self.builder.add(key, value) {
            self.last_key = slice_to_vec(key);
            if self.first_key.len() == 0 {
                self.first_key = slice_to_vec(key);
            }
            proof {
                assert(final(self).entries() =~= old(self).entries().push((key@, value@)));
                assert(self.data@.subrange(0, old(self).data@.len() as int) =~= old(self).data@);
            }
            return;
        }
        self.seal();
        let ghost mid = *self;
        let accepted = self.builder.add(key, value);
        proof {
            assert(accepted);
        }
        self.first_key = slice_to_vec(key);
        self.last_key = slice_to_vec(key);
        proof {
            assert(self.builder.entries() =~= Seq::<Entry>::empty().push((key@, value@)));
            assert(self.builder.entries() =~= seq![(key@, value@)]);
            assert(self.builder.entries().len() == 1);
            assert(self.entries() =~= old(self).entries().push((key@, value@)));
            assert(self.data@.subrange(0, old(self).data@.len() as int) =~= old(self).data@);
        }
    }

    /// The estimated size of the SSTable: the sealed data bytes, which
    /// dominate the open block and the meta overhead.
    pub fn estimated_size(&self) -> (r: usize)
        ensures
            r == self.data@.len(),
    {
        self.data.len()
    }

    /// Seal the open block if needed, append the encoded meta section and
    /// the 4-byte big-endian offset that locates it, and wrap the bytes in
    /// a sealed table. The trailer is 32-bit, so the data region must fit.
    #[verifier::spinoff_prover]
    #[verifier::rlimit(100)]
    pub fn build(self, id: usize) -> (t: SsTable)
        requires
            self.wf(),
            self.entries().len() > 0,
            self.data@.len() as int + self.builder.encoded_size() <= 0xFFFF_FFFF,
        ensures
            t.wf(),
            t.entries() == self.entries(),
            t.id == id,
            t.max_ts == 0,
            t.file.data@.skip(t.block_meta_offset as int) == spec_meta_enc(t.block_meta@)
                + be32_bytes(t.block_meta_offset as u32),
    {
        let mut this = self;
        if !this.builder.is_empty() {
            this.seal();
        }
        let ghost sdata = this.data@;
        let ghost smeta = this.meta@;
        let ghost smoff = this.data@.len() as int;
        let meta_offset = this.data.len();
        BlockMeta::encode_block_meta(&this.meta, &mut this.data);
        push_u32_be(&mut this.data, meta_offset as u32);
        let first_key = slice_to_vec(this.meta[0].first_key.as_slice());
        let n = this.meta.len();
        let last_key = slice_to_vec(this.meta[n - 1].last_key.as_slice());
        let file = FileObject::create(this.data);
        let t = SsTable {
            file,
            block_meta: this.meta,
            block_meta_offset: meta_offset,
            id,
            first_key,
            last_key,
            max_ts: 0,
        };
        proof {
            let data2 = t.file.data@;
            let meta2 = t.block_meta@;
            let moff2 = t.block_meta_offset as int;
            assert(meta2 == smeta);
            assert(moff2 == smoff);
            assert(data2.take(smoff) =~= sdata.take(smoff));
            assert forall|j: int| 0 <= j < meta2.len() implies #[trigger] block_bytes(
                data2,
                meta2,
                moff2,
                j,
            ) == block_bytes(sdata, smeta, smoff, j) && block_ok_at(data2, meta2, moff2, j) by {
                assert(block_ok_at(sdata, smeta, smoff, j));
                assert(block_bytes(data2, meta2, moff2, j) =~= block_bytes(sdata, smeta, smoff, j));
            };
            assert(blocks_wf(data2, meta2, moff2));
            lemma_entries_from_congruent(sdata, smeta, smoff, data2, meta2, moff2, 0);
            assert(t.entries() == self.entries());
            assert(block_ok_at(data2, meta2, moff2, 0));
            assert(block_ok_at(data2, meta2, moff2, meta2.len() - 1));
            assert(data2.skip(smoff) =~= spec_meta_enc(meta2) + be32_bytes(meta_offset as u32));
        }
        t
    }
}

} // verus!
