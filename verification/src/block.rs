//! The block: the smallest unit of storage and caching. A block holds a
//! contiguous `data` buffer of key/value records and a parallel `offsets`
//! index, one 16-bit byte offset per record. On the wire a block is
//! `data ‖ offsets[0] ‖ … ‖ offsets[n-1] ‖ n`, every integer big-endian.

use vstd::prelude::*;
use vstd::slice::{slice_subrange, slice_to_vec};

use crate::error::LsmError;
use crate::keys::{entries_sorted, Entry};

verus! {

/// The `bytes::Bytes` buffer type, opaque to the verifier.
#[verifier::external_type_specification]
#[verifier::external_body]
pub struct ExBytes(bytes::Bytes);

/// The byte sequence a `bytes::Bytes` buffer holds.
pub uninterp spec fn bytes_content(b: bytes::Bytes) -> Seq<u8>;

/// Relies on `<bytes::Bytes as From<Vec<u8>>>::from`: the vector's contents
/// move into the buffer unchanged.
#[verifier::external_body]
fn bytes_from_vec(v: Vec<u8>) -> (r: bytes::Bytes)
    ensures
        bytes_content(r) == v@,
{
    bytes::Bytes::from(v)
}

/// The big-endian 16-bit value written as the two bytes `hi`, `lo`.
pub open spec fn be16(hi: u8, lo: u8) -> u16 {
    (hi * 256 + lo) as u16
}

/// Length of the key of the record starting at `off`.
pub open spec fn rec_key_len(data: Seq<u8>, off: int) -> int {
    be16(data[off], data[off + 1]) as int
}

/// Key of the record starting at `off`.
pub open spec fn rec_key(data: Seq<u8>, off: int) -> Seq<u8> {
    data.subrange(off + 2, off + 2 + rec_key_len(data, off))
}

/// Offset of the value-length field of the record starting at `off`.
pub open spec fn rec_val_len_off(data: Seq<u8>, off: int) -> int {
    off + 2 + rec_key_len(data, off)
}

/// Length of the value of the record starting at `off`.
pub open spec fn rec_val_len(data: Seq<u8>, off: int) -> int {
    be16(data[rec_val_len_off(data, off)], data[rec_val_len_off(data, off) + 1]) as int
}

/// First byte of the value of the record starting at `off`.
pub open spec fn rec_val_start(data: Seq<u8>, off: int) -> int {
    rec_val_len_off(data, off) + 2
}

/// One past the last byte of the record starting at `off`.
pub open spec fn rec_end(data: Seq<u8>, off: int) -> int {
    rec_val_start(data, off) + rec_val_len(data, off)
}

/// Value of the record starting at `off`.
pub open spec fn rec_val(data: Seq<u8>, off: int) -> Seq<u8> {
    data.subrange(rec_val_start(data, off), rec_end(data, off))
}

/// The record starting at `off` lies entirely within `data`.
pub open spec fn rec_in_bounds(data: Seq<u8>, off: int) -> bool {
    &&& 0 <= off
    &&& off + 2 <= data.len()
    &&& rec_val_len_off(data, off) + 2 <= data.len()
    &&& rec_end(data, off) <= data.len()
}

/// The entry (key and value) of the record starting at `off`.
pub open spec fn rec_entry(data: Seq<u8>, off: int) -> Entry {
    (rec_key(data, off), rec_val(data, off))
}

/// All entries a block with the given buffers holds, in index order.
pub open spec fn block_entries(data: Seq<u8>, offsets: Seq<u16>) -> Seq<Entry> {
    Seq::new(offsets.len(), |i: int| rec_entry(data, offsets[i] as int))
}

/// A block is a collection of sorted key-value pairs: the smallest unit of
/// read and caching in the engine.
#[derive(Debug)]
pub struct Block {
    pub data: Vec<u8>,
    pub offsets: Vec<u16>,
}

/// The two big-endian bytes of each offset, concatenated.
pub open spec fn offsets_bytes(offsets: Seq<u16>) -> Seq<u8> {
    Seq::new(
        2 * offsets.len(),
        |i: int|
            if i % 2 == 0 {
                (offsets[i / 2] / 256) as u8
            } else {
                (offsets[i / 2] % 256) as u8
            },
    )
}

/// The on-wire bytes of a block with the given buffers.
pub open spec fn spec_encode(data: Seq<u8>, offsets: Seq<u16>) -> Seq<u8> {
    data + offsets_bytes(offsets) + seq![
        (offsets.len() as u16 / 256) as u8,
        (offsets.len() as u16 % 256) as u8,
    ]
}

/// What decoding a byte string yields: the `data` and `offsets` buffers,
/// or nothing when the bytes are malformed.
pub open spec fn spec_decode(bytes: Seq<u8>) -> Option<(Seq<u8>, Seq<u16>)> {
    if bytes.len() < 2 {
        None
    } else {
        let n = be16(bytes[bytes.len() - 2], bytes[bytes.len() - 1]) as int;
        if 2 * n + 2 > bytes.len() {
            None
        } else {
            let doff = bytes.len() - 2 - 2 * n;
            let data = bytes.take(doff);
            let offsets = Seq::new(n as nat, |i: int| be16(bytes[doff + 2 * i], bytes[doff + 2 * i + 1]));
            if forall|i: int| 0 <= i < n ==> rec_in_bounds(data, #[trigger] offsets[i] as int) {
                Some((data, offsets))
            } else {
                None
            }
        }
    }
}

impl Block {
    /// Structural well-formedness: the offset count is encodable in 16 bits
    /// and every offset points at a record that lies within `data`.
    pub open spec fn wf(&self) -> bool {
        &&& self.offsets.len() <= 0xFFFF
        &&& forall|i: int|
            0 <= i < self.offsets.len() ==> rec_in_bounds(self.data@, #[trigger] self.offsets@[i] as int)
    }

    /// The entries this block holds.
    pub open spec fn entries(&self) -> Seq<Entry> {
        block_entries(self.data@, self.offsets@)
    }

    /// Keys strictly ascending across the entries.
    pub open spec fn sorted(&self) -> bool {
        entries_sorted(self.entries())
    }

    /// No entry carries an empty key: an empty key is reserved to mark an
    /// invalid cursor.
    pub open spec fn keys_nonempty(&self) -> bool {
        forall|i: int| 0 <= i < self.entries().len() ==> #[trigger] self.entries()[i].0.len() > 0
    }

    /// A block fit to iterate over: structurally well formed, sorted, and
    /// free of empty keys. Blocks sealed by the builder satisfy this.
    pub open spec fn ok(&self) -> bool {
        self.wf() && self.sorted() && self.keys_nonempty()
    }

    /// Encode to the on-wire layout: `data`, then each offset, then the
    /// entry count, all integers big-endian.
    pub fn encode(&self) -> (r: bytes::Bytes)
        requires
            self.wf(),
        ensures
            bytes_content(r) == spec_encode(self.data@, self.offsets@),
    {
        let r = self.encode_to_vec();
        bytes_from_vec(r)
    }

    /// Encode into a plain vector; `encode` wraps the result in a shared buffer.
    pub fn encode_to_vec(&self) -> (r: Vec<u8>)
        requires
            self.wf(),
        ensures
            r@ == spec_encode(self.data@, self.offsets@),
    {
        let mut out = slice_to_vec(self.data.as_slice());
        let n = self.offsets.len();
        let mut i: usize = 0;
        while i < n
            invariant
                i <= n,
                n == self.offsets.len(),
                n <= 0xFFFF,
                out@ == self.data@ + offsets_bytes(self.offsets@.take(i as int)),
            decreases n - i,
        {
            let off = self.offsets[i];
            out.push((off / 256) as u8);
            out.push((off % 256) as u8);
            proof {
                assert(out@ =~= self.data@ + offsets_bytes(self.offsets@.take(i + 1)));
            }
            i = i + 1;
        }
        let count: u16 = n as u16;
        out.push((count / 256) as u8);
        out.push((count % 256) as u8);
        proof {
            assert(self.offsets@.take(n as int) =~= self.offsets@);
            assert(out@ =~= spec_encode(self.data@, self.offsets@));
        }
        out
    }

    /// Decode from the on-wire layout. Fails with a corruption error when
    /// the bytes are too short for the trailer, the trailer's count implies
    /// more offset bytes than are present, or any offset points at a record
    /// that runs past the data boundary. The boundary check covers the
    /// whole record — both length fields and both contents — not merely the
    /// offset itself: deliberately stricter than rejecting out-of-range
    /// offsets alone, so that every block this returns satisfies the record
    /// model and every entry of it can be parsed. No partial block is
    /// returned.
    pub fn decode(bytes: &[u8]) -> (r: Result<Block, LsmError>)
        ensures
            match r {
                Ok(b) => spec_decode(bytes@) == Some((b.data@, b.offsets@)) && b.wf(),
                Err(e) => spec_decode(bytes@) is None && e == LsmError::Corruption,
            },
    {
        let len = bytes.len();
        if len < 2 {
            return Err(LsmError::Corruption);
        }
        let n = be16_read(bytes[len - 2], bytes[len - 1]) as usize;
        if 2 * n + 2 > len {
            return Err(LsmError::Corruption);
        }
        let doff = len - 2 - 2 * n;
        let data = slice_to_vec(slice_subrange(bytes, 0, doff));
        proof {
            assert(data@ =~= bytes@.take(doff as int));
        }
        let ghost spec_offsets = Seq::new(
            n as nat,
            |i: int| be16(bytes@[doff + 2 * i], bytes@[doff + 2 * i + 1]),
        );
        let mut offsets: Vec<u16> = Vec::new();
        let mut i: usize = 0;
        while i < n
            invariant
                i <= n,
                doff + 2 * n + 2 == len,
                len == bytes@.len(),
                offsets@ == spec_offsets.take(i as int),
                spec_offsets == Seq::new(
                    n as nat,
                    |i: int| be16(bytes@[doff + 2 * i], bytes@[doff + 2 * i + 1]),
                ),
            decreases n - i,
        {
            let off = be16_read(bytes[doff + 2 * i], bytes[doff + 2 * i + 1]);
            offsets.push(off);
            proof {
                assert(offsets@ =~= spec_offsets.take(i + 1));
            }
            i = i + 1;
        }
        proof {
            assert(offsets@ =~= spec_offsets);
        }
        proof {
            let m = be16(bytes@[len - 2], bytes@[len - 1]) as int;
            assert(m == n);
            let sd_offsets = Seq::new(
                m as nat,
                |i: int| be16(bytes@[len - 2 - 2 * m + 2 * i], bytes@[len - 2 - 2 * m + 2 * i + 1]),
            );
            assert(sd_offsets =~= spec_offsets);
        }
        let mut j: usize = 0;
        while j < n
            invariant
                j <= n,
                n == offsets.len(),
                n <= 0xFFFF,
                doff == len - 2 - 2 * n,
                data@ == bytes@.take(doff as int),
                len == bytes@.len(),
                len >= 2,
                2 * n + 2 <= len,
                n == be16(bytes@[len - 2], bytes@[len - 1]) as int,
                offsets@ == spec_offsets,
                spec_offsets == Seq::new(
                    n as nat,
                    |i: int| be16(bytes@[doff + 2 * i], bytes@[doff + 2 * i + 1]),
                ),
                forall|k: int| 0 <= k < j ==> rec_in_bounds(data@, #[trigger] offsets@[k] as int),
            decreases n - j,
        {
            if !record_in_bounds(&data, offsets[j]) {
                proof {
                    reconcile_decode(bytes@, data@, offsets@);
                    assert(!rec_in_bounds(data@, offsets@[j as int] as int));
                }
                return Err(LsmError::Corruption);
            }
            j = j + 1;
        }
        proof {
            reconcile_decode(bytes@, data@, offsets@);
        }
        Ok(Block { data, offsets })
    }
}

/// Relate the buffers parsed by `decode` to `spec_decode`: once the trailer
/// and offset bytes agree, the outcome turns on the record bounds alone.
proof fn reconcile_decode(bytes: Seq<u8>, data: Seq<u8>, offsets: Seq<u16>)
    requires
        bytes.len() >= 2,
        offsets.len() == be16(bytes[bytes.len() - 2], bytes[bytes.len() - 1]) as int,
        2 * offsets.len() + 2 <= bytes.len(),
        data == bytes.take(bytes.len() - 2 - 2 * offsets.len()),
        forall|i: int|
            0 <= i < offsets.len() ==> #[trigger] offsets[i] == be16(
                bytes[bytes.len() - 2 - 2 * offsets.len() + 2 * i],
                bytes[bytes.len() - 2 - 2 * offsets.len() + 2 * i + 1],
            ),
    ensures
        (forall|k: int| 0 <= k < offsets.len() ==> rec_in_bounds(data, #[trigger] offsets[k] as int))
            ==> spec_decode(bytes) == Some((data, offsets)),
        !(forall|k: int| 0 <= k < offsets.len() ==> rec_in_bounds(data, #[trigger] offsets[k] as int))
            ==> spec_decode(bytes) is None,
{
    let n = be16(bytes[bytes.len() - 2], bytes[bytes.len() - 1]) as int;
    let doff = bytes.len() - 2 - 2 * n;
    let offs = Seq::new(n as nat, |i: int| be16(bytes[doff + 2 * i], bytes[doff + 2 * i + 1]));
    assert(offs =~= offsets);
}

/// Read a big-endian 16-bit value from its two bytes.
pub fn be16_read(hi: u8, lo: u8) -> (r: u16)
    ensures
        r == be16(hi, lo),
{
    (hi as u16) * 256 + (lo as u16)
}

/// Check that the record starting at `off` lies entirely within `data`.
pub(crate) fn record_in_bounds(data: &Vec<u8>, off: u16) -> (r: bool)
    ensures
        r == rec_in_bounds(data@, off as int),
{
    let off = off as usize;
    if off + 2 > data.len() {
        return false;
    }
    let klen = be16_read(data[off], data[off + 1]) as usize;
    if off + 2 + klen + 2 > data.len() {
        return false;
    }
    let voff = off + 2 + klen;
    let vlen = be16_read(data[voff], data[voff + 1]) as usize;
    voff + 2 + vlen <= data.len()
}

/// Round trip: decoding the encoding of a well-formed block yields back
/// exactly its `data` and `offsets`.
pub proof fn lemma_encode_decode(data: Seq<u8>, offsets: Seq<u16>)
    requires
        offsets.len() <= 0xFFFF,
        forall|i: int| 0 <= i < offsets.len() ==> rec_in_bounds(data, #[trigger] offsets[i] as int),
    ensures
        spec_decode(spec_encode(data, offsets)) == Some((data, offsets)),
{
    let e = spec_encode(data, offsets);
    let n = offsets.len() as int;
    assert(e.len() == data.len() + 2 * n + 2);
    assert(e[e.len() - 2] == (offsets.len() as u16 / 256) as u8);
    assert(e[e.len() - 1] == (offsets.len() as u16 % 256) as u8);
    assert(be16(e[e.len() - 2], e[e.len() - 1]) as int == n);
    let doff = e.len() - 2 - 2 * n;
    assert(doff == data.len());
    assert(e.take(doff) =~= data);
    let offs = Seq::new(n as nat, |i: int| be16(e[doff + 2 * i], e[doff + 2 * i + 1]));
    assert forall|i: int| 0 <= i < n implies offs[i] == offsets[i] by {
        assert(e[doff + 2 * i] == (offsets[i] / 256) as u8);
        assert(e[doff + 2 * i + 1] == (offsets[i] % 256) as u8);
    };
    assert(offs =~= offsets);
}

} // verus!
