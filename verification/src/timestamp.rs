//! The timestamp codec: between a millisecond-aligned instant and the signed
//! 64-bit integer column the engine stores.

use vstd::prelude::*;

use crate::errors::StoreError;

verus! {

/// A wall-clock instant, held as whole milliseconds since the epoch.
///
/// Sub-millisecond precision is deliberately not represented: the stored
/// form is an integer count of milliseconds, and that loss is accepted.
#[derive(Debug, Clone, Copy, PartialEq, Eq, Structural)]
pub struct Timestamp {
    pub millis: u64,
}

/// Whether an instant fits the signed 64-bit millisecond column.
pub open spec fn timestamp_encodable(t: Timestamp) -> bool {
    t.millis <= i64::MAX
}

/// The integer an encodable instant is stored as.
pub open spec fn spec_encode_timestamp(t: Timestamp) -> int {
    t.millis as int
}

/// The instant a non-negative stored integer decodes to.
pub open spec fn spec_decode_timestamp(n: int) -> Timestamp {
    Timestamp { millis: n as u64 }
}

/// Encodes an instant as milliseconds since the epoch in a signed 64-bit
/// integer; fails when the instant is too far in the future to fit.
pub fn timestamp_to_integer(t: Timestamp) -> (r: Result<i64, StoreError>)
    ensures
        timestamp_encodable(t) ==> r == Ok::<i64, StoreError>(t.millis as i64),
        !timestamp_encodable(t) ==> r == Err::<i64, StoreError>(StoreError::EncodeError),
        r matches Ok(n) ==> n as int == spec_encode_timestamp(t) && n >= 0,
{
    if t.millis <= i64::MAX as u64 {
        Ok(t.millis as i64)
    } else {
        Err(StoreError::EncodeError)
    }
}

/// Decodes a stored integer back into an instant; fails when the integer is
/// negative, which no instant at or after the epoch can produce.
pub fn integer_to_timestamp(n: i64) -> (r: Result<Timestamp, StoreError>)
    ensures
        n >= 0 ==> r == Ok::<Timestamp, StoreError>(spec_decode_timestamp(n as int)),
        n < 0 ==> r == Err::<Timestamp, StoreError>(StoreError::DecodeError),
{
    if n >= 0 {
        Ok(Timestamp { millis: n as u64 })
    } else {
        Err(StoreError::DecodeError)
    }
}

/// Every representable instant survives the trip through the stored integer
/// form unchanged: decoding its encoding gives the same instant back.
pub proof fn lemma_timestamp_round_trip(t: Timestamp)
    requires
        timestamp_encodable(t),
    ensures
        spec_decode_timestamp(spec_encode_timestamp(t)) == t,
{
}

} // verus!
