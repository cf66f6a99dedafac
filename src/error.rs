use vstd::prelude::*;

verus! {

/// Every failure the storage core reports. None of them ends the process.
#[derive(Debug, Clone, PartialEq, Eq)]
pub enum StoreError {
    TableExists,
    TableNotFound,
    PageNotFound,
    PageAlreadyExists,
    CapacityExceeded,
    InvalidSlot,
    EmptyList,
    DuplicateInstall,
    /// The slot chosen for eviction holds unflushed data; the payload is the slot.
    VictimDirty(usize),
    /// A freshly generated storage id is already in use.
    IdCollision,
    IoFailure,
}

} // verus!
