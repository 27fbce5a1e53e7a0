//! Errors surfaced by the read path. Corruption marks malformed on-disk
//! bytes; misuse marks an operation on an invalidated iterator. I/O errors
//! belong to the layer that owns the actual file handles.

use vstd::prelude::*;

verus! {

#[derive(Clone, Copy, Debug, PartialEq, Eq, Structural)]
pub enum LsmError {
    /// Malformed block bytes, meta entries, or file trailer.
    Corruption,
    /// An operation was applied to an iterator that is not valid.
    Misuse,
}

} // verus!
