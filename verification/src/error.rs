use vstd::prelude::*;

verus! {

/// The ways an operation on the store can fail. A failed operation leaves
/// the store as it was.
#[derive(Clone, Copy, Debug, PartialEq, Eq, Structural)]
pub enum StoreError {
    /// No record is stored under the key, or the address is not registered.
    NotFound,
    /// The key already holds a record, or the address is already registered.
    Duplicate,
    /// An expiry lies outside the configured range.
    InvalidRange,
    /// A registry already holds as many addresses as it may.
    CapacityExceeded,
    /// An index names a primary key under which no record is stored.
    StorageConsistency,
}

impl StoreError {
    /// A short, stable name of the error, for messages.
    pub fn kind(&self) -> (name: &'static str)
        ensures
            name@ == (match *self {
                StoreError::NotFound => "not_found"@,
                StoreError::Duplicate => "duplicate"@,
                StoreError::InvalidRange => "invalid_range"@,
                StoreError::CapacityExceeded => "capacity_exceeded"@,
                StoreError::StorageConsistency => "storage_consistency"@,
            }),
    {
        match self {
            StoreError::NotFound => "not_found",
            StoreError::Duplicate => "duplicate",
            StoreError::InvalidRange => "invalid_range",
            StoreError::CapacityExceeded => "capacity_exceeded",
            StoreError::StorageConsistency => "storage_consistency",
        }
    }
}

} // verus!
