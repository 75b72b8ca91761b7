//! The error kinds that store operations surface to callers.

use vstd::prelude::*;

verus! {

/// Everything that can go wrong in the store.
///
/// - `ConnectionError`: the backing engine could not be opened or the schema
///   could not be created; the store is unusable once this occurs.
/// - `EncodeError`: a timestamp was out of the representable range during a
///   write; the write has no effect.
/// - `DecodeError`: a stored row could not be reconstructed during a read
///   (bad identifier, bad timestamp, or bad serialized value); the whole
///   read fails rather than silently dropping the row.
/// - `TransactionError`: the backing engine rejected an insert or a commit;
///   the transaction rolls back with no partial effect.
/// - `NotFound`: root-entity resolution found no fact rows.
#[derive(Debug, Clone, Copy, PartialEq, Eq, Structural)]
pub enum StoreError {
    ConnectionError,
    EncodeError,
    DecodeError,
    TransactionError,
    NotFound,
}

impl StoreError {
    /// A short human-readable description of the error kind.
    pub fn describe(&self) -> (r: &'static str)
        ensures
            r@.len() > 0,
    {
        let s = match self {
            StoreError::ConnectionError => "could not open the backing engine or create the schema",
            StoreError::EncodeError => "a timestamp is outside the storable range",
            StoreError::DecodeError => "a stored row could not be decoded",
            StoreError::TransactionError => "the backing engine rejected the transaction",
            StoreError::NotFound => "no fact rows to resolve a root entity from",
        };
        proof {
            reveal_strlit("could not open the backing engine or create the schema");
            reveal_strlit("a timestamp is outside the storable range");
            reveal_strlit("a stored row could not be decoded");
            reveal_strlit("the backing engine rejected the transaction");
            reveal_strlit("no fact rows to resolve a root entity from");
        }
        s
    }
}

} // verus!
