//! Identifier newtypes shared by every layer of the engine.

use vstd::prelude::*;

verus! {

/// The number of a page in the database file; page 0 is the file header.
#[derive(Clone, Copy, Debug, PartialEq, Eq, Hash, PartialOrd, Ord, Structural)]
pub struct PageId(pub u32);

/// A log sequence number: the byte position of a record in the log's
/// address space.
#[derive(Clone, Copy, Debug, PartialEq, Eq, Hash, PartialOrd, Ord, Structural)]
pub struct Lsn(pub u64);

/// A transaction identifier.
#[derive(Clone, Copy, Debug, PartialEq, Eq, Hash, PartialOrd, Ord, Structural)]
pub struct TxnId(pub u64);

/// The index of a frame in the buffer pool.
#[derive(Clone, Copy, Debug, PartialEq, Eq, Hash, PartialOrd, Ord, Structural)]
pub struct FrameId(pub u32);

/// A table identifier, used for table-level locks.
#[derive(Clone, Copy, Debug, PartialEq, Eq, Hash, PartialOrd, Ord, Structural)]
pub struct TableId(pub u32);

/// A record identifier: the page a tuple lives on and its slot there.
#[derive(Clone, Copy, Debug, PartialEq, Eq, Hash, PartialOrd, Ord, Structural)]
pub struct Rid {
    pub page_id: PageId,
    pub slot: u16,
}

impl Rid {
    pub fn new(page_id: PageId, slot: u16) -> (rid: Rid)
        ensures
            rid == (Rid { page_id, slot }),
    {
        Rid { page_id, slot }
    }
}

} // verus!
