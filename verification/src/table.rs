//! The sorted string table (SST): an immutable file of sorted key/value
//! pairs partitioned into blocks, with a meta index of per-block key ranges.
//! File layout: `[block 0] … [block n-1] [meta section] [meta_offset: u32 BE]`.

use vstd::prelude::*;
use vstd::slice::slice_subrange;

use std::sync::Arc;

use crate::block::{spec_decode, block_entries, Block};
use crate::keys::{
    entries_sorted, key_lt, lemma_lex_le_lt_trans, lemma_lex_lt_le_trans, lemma_lex_trans, lex_le,
    lex_lt, Entry,
};

verus! {

/// Where a block sits in the file and which key range it spans:
/// `first_key ≤ any key in the block ≤ last_key`.
pub struct BlockMeta {
    pub offset: usize,
    pub first_key: Vec<u8>,
    pub last_key: Vec<u8>,
}

/// The sealed file object: its byte contents, complete and immutable.
/// Persisting those bytes to durable storage is the caller's concern.
pub struct FileObject {
    pub data: Vec<u8>,
}

impl FileObject {
    /// Create a file object holding exactly `data`.
    pub fn create(data: Vec<u8>) -> (r: FileObject)
        ensures
            r.data@ == data@,
    {
        FileObject { data }
    }

    /// The file size in bytes.
    pub fn size(&self) -> (r: usize)
        ensures
            r == self.data@.len(),
    {
        self.data.len()
    }
}

/// The four big-endian bytes of a 32-bit value.
pub open spec fn be32_bytes(x: u32) -> Seq<u8> {
    seq![
        (x / 0x1000000) as u8,
        ((x / 0x10000) % 256) as u8,
        ((x / 256) % 256) as u8,
        (x % 256) as u8,
    ]
}

/// The two big-endian bytes of a 16-bit value.
pub open spec fn be16_bytes(x: u16) -> Seq<u8> {
    seq![(x / 256) as u8, (x % 256) as u8]
}

/// One meta record on the wire: offset, then each key length-prefixed.
pub open spec fn meta_record_bytes(m: BlockMeta) -> Seq<u8> {
    be32_bytes(m.offset as u32) + be16_bytes(m.first_key@.len() as u16) + m.first_key@
        + be16_bytes(m.last_key@.len() as u16) + m.last_key@
}

/// The meta section: the records concatenated in block order.
pub open spec fn spec_meta_enc(ms: Seq<BlockMeta>) -> Seq<u8>
    decreases ms.len(),
{
    if ms.len() == 0 {
        Seq::empty()
    } else {
        spec_meta_enc(ms.drop_last()) + meta_record_bytes(ms.last())
    }
}

/// Append the four big-endian bytes of `x`.
pub fn push_u32_be(out: &mut Vec<u8>, x: u32)
    ensures
        final(out)@ == old(out)@ + be32_bytes(x),
{
    out.push((x / 0x1000000) as u8);
    out.push(((x / 0x10000) % 256) as u8);
    out.push(((x / 256) % 256) as u8);
    out.push((x % 256) as u8);
    proof {
        assert(out@ =~= old(out)@ + be32_bytes(x));
    }
}

/// Append the two big-endian bytes of `x`.
pub fn push_u16_be(out: &mut Vec<u8>, x: u16)
    ensures
        final(out)@ == old(out)@ + be16_bytes(x),
{
    out.push((x / 256) as u8);
    out.push((x % 256) as u8);
    proof {
        assert(out@ =~= old(out)@ + be16_bytes(x));
    }
}

impl BlockMeta {
    /// Append the encoded meta section for `ms` to `out`.
    pub fn encode_block_meta(ms: &Vec<BlockMeta>, out: &mut Vec<u8>)
        ensures
            final(out)@ == old(out)@ + spec_meta_enc(ms@),
    {
        let n = ms.len();
        let mut j: usize = 0;
        proof {
            assert(out@ =~= old(out)@ + spec_meta_enc(ms@.take(0)));
        }
        while j < n
            invariant
                j <= n,
                n == ms@.len(),
                out@ == old(out)@ + spec_meta_enc(ms@.take(j as int)),
            decreases n - j,
        {
            let m = &ms[j];
            push_u32_be(out, m.offset as u32);
            push_u16_be(out, m.first_key.len() as u16);
            crate::block_builder::push_slice(out, m.first_key.as_slice());
            push_u16_be(out, m.last_key.len() as u16);
            crate::block_builder::push_slice(out, m.last_key.as_slice());
            proof {
                assert(ms@.take(j + 1).drop_last() =~= ms@.take(j as int));
                assert(ms@.take(j + 1).last() == ms@[j as int]);
                assert(out@ =~= old(out)@ + spec_meta_enc(ms@.take(j + 1)));
            }
            j = j + 1;
        }
        proof {
            assert(ms@.take(n as int) =~= ms@);
        }
    }
}

/// One past the last byte of block `i`: the next block's offset, or the
/// start of the meta section for the final block.
pub open spec fn block_end(meta: Seq<BlockMeta>, meta_off: int, i: int) -> int {
    if i + 1 < meta.len() {
        meta[i + 1].offset as int
    } else {
        meta_off
    }
}

/// The encoded bytes of block `i`.
pub open spec fn block_bytes(data: Seq<u8>, meta: Seq<BlockMeta>, meta_off: int, i: int) -> Seq<
    u8,
> {
    data.subrange(meta[i].offset as int, block_end(meta, meta_off, i))
}

/// The entries of block `i`, read off its encoded bytes.
pub open spec fn block_at(data: Seq<u8>, meta: Seq<BlockMeta>, meta_off: int, i: int) -> Seq<
    Entry,
> {
    let p = spec_decode(block_bytes(data, meta, meta_off, i))->Some_0;
    block_entries(p.0, p.1)
}

/// Block `i` is sound: it lies within the data region, decodes, is a
/// non-empty sorted run of non-empty keys, and its meta key range is exact.
pub open spec fn block_ok_at(data: Seq<u8>, meta: Seq<BlockMeta>, meta_off: int, i: int) -> bool {
    let es = block_at(data, meta, meta_off, i);
    &&& meta[i].offset as int <= block_end(meta, meta_off, i)
    &&& block_end(meta, meta_off, i) <= meta_off
    &&& meta[i].offset as int <= meta_off
    &&& spec_decode(block_bytes(data, meta, meta_off, i)) is Some
    &&& es.len() > 0
    &&& entries_sorted(es)
    &&& (forall|j: int| 0 <= j < es.len() ==> #[trigger] es[j].0.len() > 0)
    &&& es[0].0 == meta[i].first_key@
    &&& es.last().0 == meta[i].last_key@
}

/// The whole block region is sound: every block is, the first block opens
/// the file, and consecutive key ranges leave a strict gap.
pub open spec fn blocks_wf(data: Seq<u8>, meta: Seq<BlockMeta>, meta_off: int) -> bool {
    &&& 0 <= meta_off <= data.len()
    &&& meta.len() > 0 ==> meta[0].offset == 0
    &&& forall|i: int| 0 <= i < meta.len() ==> #[trigger] block_ok_at(data, meta, meta_off, i)
    &&& forall|i: int|
        0 <= i < meta.len() - 1 ==> lex_lt(
            #[trigger] meta[i].last_key@,
            meta[i + 1].first_key@,
        )
}

/// The entries of blocks `i` onward, concatenated in block order.
pub open spec fn entries_from(data: Seq<u8>, meta: Seq<BlockMeta>, meta_off: int, i: int) -> Seq<
    Entry,
>
    decreases meta.len() - i,
{
    if i < 0 || i >= meta.len() {
        Seq::empty()
    } else {
        block_at(data, meta, meta_off, i) + entries_from(data, meta, meta_off, i + 1)
    }
}

/// All entries the block region holds, in key order.
pub open spec fn all_entries(data: Seq<u8>, meta: Seq<BlockMeta>, meta_off: int) -> Seq<Entry> {
    entries_from(data, meta, meta_off, 0)
}

/// Every key of block `i` lies between its meta's first and last key.
pub proof fn lemma_block_key_bounds(data: Seq<u8>, meta: Seq<BlockMeta>, meta_off: int, i: int)
    requires
        blocks_wf(data, meta, meta_off),
        0 <= i < meta.len(),
    ensures
        forall|j: int|
            0 <= j < block_at(data, meta, meta_off, i).len() ==> lex_le(
                meta[i].first_key@,
                #[trigger] block_at(data, meta, meta_off, i)[j].0,
            ) && lex_le(block_at(data, meta, meta_off, i)[j].0, meta[i].last_key@),
{
    assert(block_ok_at(data, meta, meta_off, i));
    let es = block_at(data, meta, meta_off, i);
    assert forall|j: int| 0 <= j < es.len() implies lex_le(meta[i].first_key@, es[j].0) && lex_le(
        es[j].0,
        meta[i].last_key@,
    ) by {
        if j > 0 {
            assert(lex_lt(es[0].0, es[j].0));
        }
        if j < es.len() - 1 {
            assert(lex_lt(es[j].0, es[es.len() - 1].0));
        }
    };
}

/// Meta last keys ascend strictly from block to block.
pub proof fn lemma_meta_last_ascending(
    data: Seq<u8>,
    meta: Seq<BlockMeta>,
    meta_off: int,
    i: int,
    j: int,
)
    requires
        blocks_wf(data, meta, meta_off),
        0 <= i < j < meta.len(),
    ensures
        lex_lt(meta[i].last_key@, meta[j].last_key@),
    decreases j - i,
{
    if i + 1 == j {
        assert(block_ok_at(data, meta, meta_off, j));
        lemma_block_key_bounds(data, meta, meta_off, j);
        let es = block_at(data, meta, meta_off, j);
        assert(lex_le(es[0].0, meta[j].last_key@));
        lemma_lex_lt_le_trans(meta[i].last_key@, meta[j].first_key@, meta[j].last_key@);
    } else {
        lemma_meta_last_ascending(data, meta, meta_off, i, j - 1);
        lemma_meta_last_ascending(data, meta, meta_off, j - 1, j);
        lemma_lex_trans(meta[i].last_key@, meta[j - 1].last_key@, meta[j].last_key@);
    }
}

/// The concatenation of blocks `i` onward is sorted, and every key in it is
/// at least block `i`'s first key.
pub proof fn lemma_entries_from_sorted(data: Seq<u8>, meta: Seq<BlockMeta>, meta_off: int, i: int)
    requires
        blocks_wf(data, meta, meta_off),
        0 <= i,
    ensures
        entries_sorted(entries_from(data, meta, meta_off, i)),
        i < meta.len() ==> forall|j: int|
            0 <= j < entries_from(data, meta, meta_off, i).len() ==> lex_le(
                meta[i].first_key@,
                #[trigger] entries_from(data, meta, meta_off, i)[j].0,
            ),
    decreases meta.len() - i,
{
    if i >= meta.len() {
    } else {
        assert(block_ok_at(data, meta, meta_off, i));
        lemma_entries_from_sorted(data, meta, meta_off, i + 1);
        lemma_block_key_bounds(data, meta, meta_off, i);
        let blk = block_at(data, meta, meta_off, i);
        let tail = entries_from(data, meta, meta_off, i + 1);
        let ef = entries_from(data, meta, meta_off, i);
        assert(ef == blk + tail);
        // keys in the tail exceed this block's last key
        assert forall|t: int| 0 <= t < tail.len() implies lex_lt(
            meta[i].last_key@,
            #[trigger] tail[t].0,
        ) by {
            assert(lex_le(meta[i + 1].first_key@, tail[t].0));
            assert(lex_lt(meta[i].last_key@, meta[i + 1].first_key@));
            lemma_lex_lt_le_trans(meta[i].last_key@, meta[i + 1].first_key@, tail[t].0);
        };
        assert forall|a: int, b: int| 0 <= a < b < ef.len() implies lex_lt(ef[a].0, ef[b].0) by {
            if b < blk.len() {
                assert(lex_lt(blk[a].0, blk[b].0));
            } else if a >= blk.len() {
                assert(lex_lt(tail[a - blk.len()].0, tail[b - blk.len()].0));
            } else {
                assert(ef[a] == blk[a]);
                assert(ef[b] == tail[b - blk.len()]);
                assert(lex_le(blk[a].0, meta[i].last_key@));
                assert(lex_lt(meta[i].last_key@, tail[b - blk.len()].0));
                lemma_lex_le_lt_trans(blk[a].0, meta[i].last_key@, tail[b - blk.len()].0);
            }
        };
        assert forall|j: int| 0 <= j < ef.len() implies lex_le(meta[i].first_key@, ef[j].0) by {
            if j < blk.len() {
            } else {
                assert(ef[j] == tail[j - blk.len()]);
                assert(lex_lt(meta[i].last_key@, tail[j - blk.len()].0));
                assert(lex_le(meta[i].first_key@, meta[i].last_key@)) by {
                    lemma_block_key_bounds(data, meta, meta_off, i);
                    assert(lex_le(blk[0].0, meta[i].last_key@));
                };
                lemma_lex_le_lt_trans(meta[i].first_key@, meta[i].last_key@, ef[j].0);
            }
        };
    }
}

/// Later suffixes of the block sequence hold no more entries than earlier
/// ones.
pub proof fn lemma_entries_from_len_mono(
    data: Seq<u8>,
    meta: Seq<BlockMeta>,
    meta_off: int,
    a: int,
    b: int,
)
    requires
        0 <= a <= b,
    ensures
        entries_from(data, meta, meta_off, a).len() >= entries_from(data, meta, meta_off, b).len(),
    decreases b - a,
{
    if a < b && a < meta.len() {
        lemma_entries_from_len_mono(data, meta, meta_off, a + 1, b);
    } else if a < b {
        lemma_entries_from_len_mono(data, meta, meta_off, a + 1, b);
    }
}

/// Dropping from the concatenation of blocks `j` onward everything before
/// position `li` of block `bi` leaves block `bi`'s suffix plus the blocks
/// after it.
pub proof fn lemma_entries_from_split(
    data: Seq<u8>,
    meta: Seq<BlockMeta>,
    meta_off: int,
    j: int,
    bi: int,
    li: int,
)
    requires
        blocks_wf(data, meta, meta_off),
        0 <= j <= bi < meta.len(),
        0 <= li <= block_at(data, meta, meta_off, bi).len(),
    ensures
        entries_from(data, meta, meta_off, j).skip(
            entries_from(data, meta, meta_off, j).len() - entries_from(
                data,
                meta,
                meta_off,
                bi,
            ).len() + li,
        ) == block_at(data, meta, meta_off, bi).skip(li) + entries_from(
            data,
            meta,
            meta_off,
            bi + 1,
        ),
    decreases bi - j,
{
    let efj = entries_from(data, meta, meta_off, j);
    let efb = entries_from(data, meta, meta_off, bi);
    let blk = block_at(data, meta, meta_off, bi);
    let tail = entries_from(data, meta, meta_off, bi + 1);
    if j == bi {
        assert(efj == blk + tail);
        assert(efj.skip(li) =~= blk.skip(li) + tail);
    } else {
        lemma_entries_from_split(data, meta, meta_off, j + 1, bi, li);
        let blkj = block_at(data, meta, meta_off, j);
        let efj1 = entries_from(data, meta, meta_off, j + 1);
        assert(efj == blkj + efj1);
        let amt = efj1.len() - efb.len() + li;
        lemma_entries_from_len_mono(data, meta, meta_off, j + 1, bi);
        assert(efb == blk + tail);
        assert(efb.len() >= li);
        assert(efj.skip(blkj.len() + amt) =~= efj1.skip(amt));
    }
}

/// When every block from `i` on has its last key below `key`, every entry
/// from block `i` on has its key below `key`.
pub proof fn lemma_entries_from_below(
    data: Seq<u8>,
    meta: Seq<BlockMeta>,
    meta_off: int,
    i: int,
    key: Seq<u8>,
)
    requires
        blocks_wf(data, meta, meta_off),
        0 <= i,
        forall|j: int| i <= j < meta.len() ==> lex_lt(#[trigger] meta[j].last_key@, key),
    ensures
        forall|t: int|
            0 <= t < entries_from(data, meta, meta_off, i).len() ==> lex_lt(
                #[trigger] entries_from(data, meta, meta_off, i)[t].0,
                key,
            ),
    decreases meta.len() - i,
{
    if i < meta.len() {
        lemma_entries_from_below(data, meta, meta_off, i + 1, key);
        lemma_block_key_bounds(data, meta, meta_off, i);
        let blk = block_at(data, meta, meta_off, i);
        let tail = entries_from(data, meta, meta_off, i + 1);
        let ef = entries_from(data, meta, meta_off, i);
        assert(ef == blk + tail);
        assert forall|t: int| 0 <= t < ef.len() implies lex_lt(ef[t].0, key) by {
            if t < blk.len() {
                assert(lex_le(blk[t].0, meta[i].last_key@));
                lemma_lex_le_lt_trans(blk[t].0, meta[i].last_key@, key);
            } else {
                assert(ef[t] == tail[t - blk.len()]);
            }
        };
    }
}

/// Entries that lie in blocks `j` up to (but not into) block `bi` have keys
/// below `key` whenever those blocks' last keys do.
pub proof fn lemma_prefix_below(
    data: Seq<u8>,
    meta: Seq<BlockMeta>,
    meta_off: int,
    j: int,
    bi: int,
    key: Seq<u8>,
)
    requires
        blocks_wf(data, meta, meta_off),
        0 <= j <= bi <= meta.len(),
        forall|x: int| j <= x < bi ==> lex_lt(#[trigger] meta[x].last_key@, key),
    ensures
        forall|t: int|
            0 <= t < entries_from(data, meta, meta_off, j).len() - entries_from(
                data,
                meta,
                meta_off,
                bi,
            ).len() ==> lex_lt(#[trigger] entries_from(data, meta, meta_off, j)[t].0, key),
    decreases bi - j,
{
    if j < bi {
        lemma_prefix_below(data, meta, meta_off, j + 1, bi, key);
        lemma_block_key_bounds(data, meta, meta_off, j);
        let blk = block_at(data, meta, meta_off, j);
        let efj = entries_from(data, meta, meta_off, j);
        let efj1 = entries_from(data, meta, meta_off, j + 1);
        let efb = entries_from(data, meta, meta_off, bi);
        assert(efj == blk + efj1);
        assert forall|t: int| 0 <= t < efj.len() - efb.len() implies lex_lt(efj[t].0, key) by {
            if t < blk.len() {
                assert(lex_le(blk[t].0, meta[j].last_key@));
                lemma_lex_le_lt_trans(blk[t].0, meta[j].last_key@, key);
            } else {
                assert(efj[t] == efj1[t - blk.len()]);
            }
        };
    }
}

/// When `key` is at most block `bi`'s last key, every entry of the blocks
/// after `bi` has a key at least `key`.
pub proof fn lemma_suffix_at_least(
    data: Seq<u8>,
    meta: Seq<BlockMeta>,
    meta_off: int,
    bi: int,
    key: Seq<u8>,
)
    requires
        blocks_wf(data, meta, meta_off),
        0 <= bi < meta.len(),
        !lex_lt(meta[bi].last_key@, key),
    ensures
        forall|t: int|
            0 <= t < entries_from(data, meta, meta_off, bi + 1).len() ==> !lex_lt(
                #[trigger] entries_from(data, meta, meta_off, bi + 1)[t].0,
                key,
            ),
{
    crate::keys::lemma_lex_le_from_not_lt(meta[bi].last_key@, key);
    lemma_entries_from_sorted(data, meta, meta_off, bi + 1);
    let tail = entries_from(data, meta, meta_off, bi + 1);
    assert forall|t: int| 0 <= t < tail.len() implies !lex_lt(tail[t].0, key) by {
        assert(lex_le(meta[bi + 1].first_key@, tail[t].0));
        assert(lex_lt(meta[bi].last_key@, meta[bi + 1].first_key@));
        lemma_lex_le_lt_trans(key, meta[bi].last_key@, meta[bi + 1].first_key@);
        crate::keys::lemma_lex_lt_le_trans(key, meta[bi + 1].first_key@, tail[t].0);
        crate::keys::lemma_lex_asym(key, tail[t].0);
    };
}

/// Law: the entries of a well-formed table ascend strictly by key, so a
/// full scan emits them exactly in the order they were added.
pub proof fn lemma_table_entries_sorted(t: &SsTable)
    requires
        t.wf(),
    ensures
        entries_sorted(t.entries()),
{
    lemma_entries_from_sorted(t.file.data@, t.block_meta@, t.block_meta_offset as int, 0);
}

/// Law: a seek runs off the end of a table exactly when the target key
/// lies strictly above the table's last key; otherwise it lands on the
/// smallest entry whose key is at least the target.
pub proof fn lemma_seek_past_end_iff(t: &SsTable, q: Seq<u8>)
    requires
        t.wf(),
    ensures
        (crate::keys::seek_idx(t.entries(), q) == t.entries().len()) <==> lex_lt(t.last_key@, q),
{
    let data = t.file.data@;
    let meta = t.block_meta@;
    let moff = t.block_meta_offset as int;
    let tes = t.entries();
    let last = meta.len() - 1;
    lemma_entries_from_sorted(data, meta, moff, 0);
    crate::keys::lemma_seek_idx(tes, q);
    assert(block_ok_at(data, meta, moff, last));
    // the table's last key is the key of one of its entries
    lemma_entries_from_split(data, meta, moff, 0, last, 0);
    let blk = block_at(data, meta, moff, last);
    let prefix = tes.len() - entries_from(data, meta, moff, last).len();
    assert(entries_from(data, meta, moff, last + 1) =~= Seq::<Entry>::empty());
    assert(tes.skip(prefix) =~= blk);
    assert(entries_from(data, meta, moff, last) =~= blk);
    let li = prefix + blk.len() - 1;
    lemma_entries_from_len_mono(data, meta, moff, 0, last);
    assert(tes.skip(prefix)[blk.len() - 1] == blk[blk.len() - 1]);
    assert(tes[li] == blk[blk.len() - 1]);
    assert(tes[li].0 == t.last_key@);
    assert(li == tes.len() - 1);
    if lex_lt(t.last_key@, q) {
        // every key sits at or below the last one, hence below the target
        assert forall|i: int| 0 <= i < tes.len() implies lex_lt(#[trigger] tes[i].0, q) by {
            if i < li {
                assert(lex_lt(tes[i].0, tes[li].0));
                lemma_lex_trans(tes[i].0, tes[li].0, q);
            }
        };
        if crate::keys::seek_idx(tes, q) < tes.len() {
            assert(!lex_lt(tes[crate::keys::seek_idx(tes, q)].0, q));
        }
    }
    if crate::keys::seek_idx(tes, q) == tes.len() {
        assert(lex_lt(tes[li].0, q));
    }
}

/// An immutable, sealed sorted string table.
pub struct SsTable {
    /// The file's byte contents.
    pub file: FileObject,
    /// Per-block offsets and key ranges, ordered by offset.
    pub block_meta: Vec<BlockMeta>,
    /// Where the encoded meta section begins in the file.
    pub block_meta_offset: usize,
    /// Identifier under which caches key this table's blocks.
    pub id: usize,
    /// Smallest key in the table.
    pub first_key: Vec<u8>,
    /// Largest key in the table.
    pub last_key: Vec<u8>,
    /// Reserved maximum-timestamp slot.
    pub max_ts: u64,
}

impl SsTable {
    /// Internal invariant of a sealed table.
    pub open spec fn wf(&self) -> bool {
        &&& blocks_wf(self.file.data@, self.block_meta@, self.block_meta_offset as int)
        &&& self.block_meta@.len() > 0
        &&& self.first_key@ == self.block_meta@[0].first_key@
        &&& self.last_key@ == self.block_meta@.last().last_key@
    }

    /// All entries the table holds, in key order.
    pub open spec fn entries(&self) -> Seq<Entry> {
        all_entries(self.file.data@, self.block_meta@, self.block_meta_offset as int)
    }

    /// Number of blocks.
    pub fn num_blocks(&self) -> (r: usize)
        ensures
            r == self.block_meta@.len(),
    {
        self.block_meta.len()
    }

    /// Read block `blk_idx` from the file region named by its meta and
    /// decode it. Under the table invariant decoding cannot fail.
    pub fn read_block(&self, blk_idx: usize) -> (r: Arc<Block>)
        requires
            self.wf(),
            (blk_idx as int) < self.block_meta@.len(),
        ensures
            (*r).ok(),
            (*r).entries() == block_at(
                self.file.data@,
                self.block_meta@,
                self.block_meta_offset as int,
                blk_idx as int,
            ),
    {
        proof {
            assert(block_ok_at(
                self.file.data@,
                self.block_meta@,
                self.block_meta_offset as int,
                blk_idx as int,
            ));
        }
        let n = self.block_meta.len();
        let start = self.block_meta[blk_idx].offset;
        let end = if blk_idx + 1 < n {
            self.block_meta[blk_idx + 1].offset
        } else {
            self.block_meta_offset
        };
        let bytes = slice_subrange(self.file.data.as_slice(), start, end);
        match Block::decode(bytes) {
            Ok(b) => Arc::new(b),
            Err(_) => {
                proof {
                    assert(false);
                }
                vstd::pervasive::unreached()
            },
        }
    }

    /// The smallest block index whose last key is at least `key`, or the
    /// block count when every block's keys are smaller.
    pub fn find_block_idx(&self, key: &[u8]) -> (r: usize)
        requires
            self.wf(),
        ensures
            r <= self.block_meta@.len(),
            forall|j: int| 0 <= j < r ==> lex_lt(#[trigger] self.block_meta@[j].last_key@, key@),
            (r as int) < self.block_meta@.len() ==> !lex_lt(
                self.block_meta@[r as int].last_key@,
                key@,
            ),
    {
        let ghost data = self.file.data@;
        let ghost meta = self.block_meta@;
        let ghost moff = self.block_meta_offset as int;
        let n = self.block_meta.len();
        let mut lo: usize = 0;
        let mut hi: usize = n;
        while lo < hi
            invariant
                lo <= hi <= n,
                n == meta.len(),
                meta == self.block_meta@,
                data == self.file.data@,
                moff == self.block_meta_offset as int,
                blocks_wf(data, meta, moff),
                forall|j: int| 0 <= j < lo ==> lex_lt(#[trigger] meta[j].last_key@, key@),
                forall|j: int| hi <= j < n ==> !lex_lt(#[trigger] meta[j].last_key@, key@),
            decreases hi - lo,
        {
            let mid = lo + (hi - lo) / 2;
            if key_lt(self.block_meta[mid].last_key.as_slice(), key) {
                proof {
                    assert forall|j: int| 0 <= j < mid + 1 implies lex_lt(
                        #[trigger] meta[j].last_key@,
                        key@,
                    ) by {
                        if j < mid {
                            lemma_meta_last_ascending(data, meta, moff, j, mid as int);
                            lemma_lex_trans(meta[j].last_key@, meta[mid as int].last_key@, key@);
                        }
                    };
                }
                lo = mid + 1;
            } else {
                proof {
                    assert forall|j: int| mid <= j < n implies !lex_lt(
                        #[trigger] meta[j].last_key@,
                        key@,
                    ) by {
                        if j > mid && lex_lt(meta[j].last_key@, key@) {
                            lemma_meta_last_ascending(data, meta, moff, mid as int, j);
                            lemma_lex_trans(meta[mid as int].last_key@, meta[j].last_key@, key@);
                        }
                    };
                }
                hi = mid;
            }
        }
        lo
    }
}

} // verus!
