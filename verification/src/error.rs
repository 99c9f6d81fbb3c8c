use vstd::prelude::*;

verus! {

/// The ways in which a storage operation can fail.
#[derive(Clone, Copy, Debug, PartialEq, Eq, Structural)]
pub enum StorageError {
    /// A block was asked to take a record although every slot is occupied.
    StorageFull,
    /// An interner id was resolved that no call of `intern` ever returned.
    InvalidId,
}

} // verus!
