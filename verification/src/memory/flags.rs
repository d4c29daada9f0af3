//! What may be done with a mapped range, as the bits a runtime reports.
use vstd::prelude::*;

verus! {

/// The range can be read.
pub const READ: u64 = 1;

/// The range can be written.
pub const WRITE: u64 = 2;

/// The range can be executed.
pub const EXECUTE: u64 = 4;

/// The range has a file behind it.
pub const PATH: u64 = 8;

/// What the game's heap is: readable and writable, with no file behind it.
pub const HEAP: u64 = READ | WRITE;

/// What a loaded module's code is.
pub const MODULE: u64 = READ | EXECUTE | PATH;

/// Whether every bit of `wanted` is set in `flags`.
pub open spec fn all_set(flags: u64, wanted: u64) -> bool {
    flags & wanted == wanted
}

/// Whether every bit of `wanted` is set in `flags`.
pub fn contains(flags: u64, wanted: u64) -> (all: bool)
    ensures
        all == all_set(flags, wanted),
{
    flags & wanted == wanted
}

} // verus!
