use pensive_store::errors::StoreError;
use pensive_store::timestamp::{integer_to_timestamp, timestamp_to_integer, Timestamp};

#[test]
fn timestamp_round_trip() {
    let t = Timestamp { millis: 1_700_000_000_123 };
    let n = timestamp_to_integer(t).expect("in range");
    assert_eq!(n, 1_700_000_000_123);
    let back = integer_to_timestamp(n).expect("non-negative");
    assert_eq!(back, t);
}

#[test]
fn timestamp_round_trip_edges() {
    for millis in [0u64, 1, i64::MAX as u64] {
        let t = Timestamp { millis };
        let n = timestamp_to_integer(t).expect("in range");
        assert_eq!(integer_to_timestamp(n).expect("non-negative"), t);
    }
}

#[test]
fn encode_overflow_fails() {
    let t = Timestamp { millis: i64::MAX as u64 + 1 };
    assert_eq!(timestamp_to_integer(t), Err(StoreError::EncodeError));
    assert_eq!(
        timestamp_to_integer(Timestamp { millis: u64::MAX }),
        Err(StoreError::EncodeError)
    );
}

#[test]
fn decode_negative_fails() {
    assert_eq!(integer_to_timestamp(-1), Err(StoreError::DecodeError));
    assert_eq!(integer_to_timestamp(i64::MIN), Err(StoreError::DecodeError));
}
