//! The storage iterator interface: a forward cursor over an ordered stream
//! of key/value entries. SST iterators, merge iterators and plain in-memory
//! iterators all speak it, so they can be merged uniformly.

use vstd::prelude::*;

use crate::error::LsmError;
use crate::keys::Entry;

verus! {

/// A forward cursor over entries. `entries()` are the entries left to
/// emit, the current one first; `inv()` is the implementor's invariant.
pub trait StorageIterator: Sized {
    /// The entries from the cursor on, in emission order.
    spec fn entries(&self) -> Seq<Entry>;

    /// The implementor's internal invariant.
    spec fn inv(&self) -> bool;

    /// The current key; the empty slice on an exhausted cursor.
    fn key(&self) -> (r: &[u8])
        requires
            self.inv(),
        ensures
            self.entries().len() > 0 ==> r@ == self.entries()[0].0,
            self.entries().len() == 0 ==> r@.len() == 0,
    ;

    /// The current value; the empty slice on an exhausted cursor.
    fn value(&self) -> (r: &[u8])
        requires
            self.inv(),
        ensures
            self.entries().len() > 0 ==> r@ == self.entries()[0].1,
            self.entries().len() == 0 ==> r@.len() == 0,
    ;

    /// Whether the cursor sits on an entry.
    fn is_valid(&self) -> (r: bool)
        requires
            self.inv(),
        ensures
            r == (self.entries().len() > 0),
    ;

    /// Advance one entry; fails exactly on an already-exhausted cursor,
    /// which it leaves unchanged.
    fn next(&mut self) -> (r: Result<(), LsmError>)
        requires
            old(self).inv(),
        ensures
            final(self).inv(),
            r is Ok <==> old(self).entries().len() > 0,
            r is Ok ==> final(self).entries() == old(self).entries().skip(1),
            r is Err ==> final(self).entries() == old(self).entries(),
    ;
}

/// A plain in-memory iterator over a vector of entries, in vector order.
pub struct VecIterator {
    /// The entries, in emission order.
    pub items: Vec<(Vec<u8>, Vec<u8>)>,
    /// How many entries have been emitted.
    pub pos: usize,
}

impl VecIterator {
    /// Create an iterator positioned on the first entry.
    pub fn create(items: Vec<(Vec<u8>, Vec<u8>)>) -> (r: VecIterator)
        ensures
            r.inv(),
            r.entries() == Seq::new(items@.len(), |i: int| (items@[i].0@, items@[i].1@)),
    {
        let r = VecIterator { items, pos: 0 };
        proof {
            assert(r.entries() =~= Seq::new(r.items@.len(), |i: int| (r.items@[i].0@, r.items@[i].1@)));
        }
        r
    }
}

impl StorageIterator for VecIterator {
    open spec fn entries(&self) -> Seq<Entry> {
        Seq::new(
            (self.items@.len() - self.pos) as nat,
            |i: int| (self.items@[self.pos + i].0@, self.items@[self.pos + i].1@),
        )
    }

    open spec fn inv(&self) -> bool {
        self.pos <= self.items@.len()
    }

    fn key(&self) -> (r: &[u8]) {
        if self.pos < self.items.len() {
            self.items[self.pos].0.as_slice()
        } else {
            crate::keys::empty_key()
        }
    }

    fn value(&self) -> (r: &[u8]) {
        if self.pos < self.items.len() {
            self.items[self.pos].1.as_slice()
        } else {
            crate::keys::empty_key()
        }
    }

    fn is_valid(&self) -> (r: bool) {
        self.pos < self.items.len()
    }

    fn next(&mut self) -> (r: Result<(), LsmError>) {
        if self.pos < self.items.len() {
            self.pos = self.pos + 1;
            proof {
                assert(self.entries() =~= old(self).entries().skip(1));
            }
            Ok(())
        } else {
            Err(LsmError::Misuse)
        }
    }
}

} // verus!
