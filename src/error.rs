use vstd::prelude::*;

verus! {

/// The ways an operation of the store can fail.
#[derive(Debug, Clone, Copy, PartialEq, Eq, Structural)]
pub enum StoreError {
    /// A snapshot id or an object digest that the store does not hold.
    NotFound,
    /// A history log or a manifest that cannot be parsed.
    Corrupt,
    /// A read, write or permission failure reported by the filesystem.
    IoError,
    /// A malformed exclude pattern.
    InvalidPattern,
}

impl StoreError {
    /// A human-readable description of the error.
    pub fn message(&self) -> (r: String)
        ensures
            r@ == match self {
                StoreError::NotFound => "not found"@,
                StoreError::Corrupt => "corrupt history or manifest"@,
                StoreError::IoError => "input/output error"@,
                StoreError::InvalidPattern => "invalid exclude pattern"@,
            },
    {
        match self {
            StoreError::NotFound => String::from_str("not found"),
            StoreError::Corrupt => String::from_str("corrupt history or manifest"),
            StoreError::IoError => String::from_str("input/output error"),
            StoreError::InvalidPattern => String::from_str("invalid exclude pattern"),
        }
    }
}

} // verus!
