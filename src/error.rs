use vstd::prelude::*;

verus! {

/// The failures the engine itself can report.
#[derive(Debug, Clone, Copy, PartialEq, Eq, Structural)]
pub enum KVStoreError {
    /// Bytes that should hold a record do not decode as one.
    Serialization,
    /// The key to remove is not in the store.
    KeyNotFound,
    /// An index location decodes to a record that is not a `Set`.
    UnexpectedCommandType,
    /// A segment number or a byte offset would not fit in 64 bits.
    Overflow,
}

impl KVStoreError {
    /// A short human-readable description.
    pub fn message(&self) -> (r: String)
        ensures
            *self == KVStoreError::Serialization ==> r@ == "serialization error"@,
            *self == KVStoreError::KeyNotFound ==> r@ == "Key not found"@,
            *self == KVStoreError::UnexpectedCommandType ==> r@ == "Unexpected command type"@,
            *self == KVStoreError::Overflow ==> r@ == "log offset overflow"@,
    {
        match self {
            KVStoreError::Serialization => String::from_str("serialization error"),
            KVStoreError::KeyNotFound => String::from_str("Key not found"),
            KVStoreError::UnexpectedCommandType => String::from_str("Unexpected command type"),
            KVStoreError::Overflow => String::from_str("log offset overflow"),
        }
    }
}

} // verus!
