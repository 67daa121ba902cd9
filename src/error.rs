use vstd::prelude::*;

verus! {

/// Why a store operation failed.
#[derive(Debug, Clone, Copy, PartialEq, Eq, Structural)]
pub enum StoreError {
    /// A referenced id names no row.
    NotFound,
    /// The request carries nothing to do.
    InvalidArgument,
    /// The underlying storage failed.
    StorageIO,
    /// A freshly generated id is already taken.
    AlreadyExists,
}

impl StoreError {
    /// The descriptive text that callers show for this error.
    pub fn message(&self) -> (r: String)
        ensures
            r@ == match self {
                StoreError::NotFound => "Query returned no rows"@,
                StoreError::InvalidArgument => "No fields to update"@,
                StoreError::StorageIO => "Storage I/O failure"@,
                StoreError::AlreadyExists => "Identifier already in use"@,
            },
    {
        match self {
            StoreError::NotFound => String::from_str("Query returned no rows"),
            StoreError::InvalidArgument => String::from_str("No fields to update"),
            StoreError::StorageIO => String::from_str("Storage I/O failure"),
            StoreError::AlreadyExists => String::from_str("Identifier already in use"),
        }
    }
}

} // verus!
