//! An in-memory store for large binary blobs that can be read while they are
//! still being written: an upload appends chunks to a record's buffer, and a
//! tail reader drains the growing buffer from byte offset zero, terminating
//! once the record is complete and fully delivered.

pub mod order;
pub mod pipeline;
pub mod store;
pub mod tail;
pub mod video;

use vstd::prelude::*;

verus! {

/// Lifecycle errors: `Conflict` for an operation on a record in an
/// incompatible state (duplicate upload start, delete of an incomplete
/// record), `NotFound` for an absent id.
#[derive(Clone, Copy, Debug, PartialEq, Eq, Structural)]
pub enum StoreError {
    Conflict,
    NotFound,
}

} // verus!
