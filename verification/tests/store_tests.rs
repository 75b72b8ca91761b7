use pensive_store::errors::StoreError;
use pensive_store::store::Store;
use pensive_store::rows::{decode_fact_row, decode_resource_row, FactRow, ResourceRow,
    StoreEntity, StoreResource};
use pensive_store::timestamp::Timestamp;
use pensive_store::value::{value_to_text, Value};

fn chars(s: &str) -> Vec<char> {
    s.chars().collect()
}

fn fact(millis: u64, entity: u128, key: &str, value: Value) -> StoreEntity {
    StoreEntity { timestamp: Timestamp { millis }, entity, key: key.to_string(), value }
}

fn value_text(v: &Value) -> String {
    value_to_text(v).into_iter().collect()
}

#[test]
fn single_fact_round_trip() {
    let mut store = Store::new("file:single_fact?mode=memory&cache=shared");
    let e: u128 = 0xa1a2a3a4b1b2c1c2d1d2d3d4d5d6d7d8;
    let t: u64 = 1_700_000_000_123;
    let written = vec![fact(t, e, "title", Value::Text(chars("Hello")))];
    store.write_entities(&written).expect("write succeeds");
    let got = store.read_entities(&vec![e]).expect("read succeeds");
    assert_eq!(got.len(), 1);
    assert_eq!(got[0].timestamp.millis, t);
    assert_eq!(got[0].entity, e);
    assert_eq!(got[0].key, "title");
    match &got[0].value {
        Value::Text(s) => assert_eq!(s.iter().collect::<String>(), "Hello"),
        _ => panic!("wrong value variant"),
    }
}

#[test]
fn single_resource_round_trip() {
    let mut store = Store::new("file:single_resource?mode=memory&cache=shared");
    let r: u128 = 42;
    let t: u64 = 77;
    let written = vec![StoreResource {
        timestamp: Timestamp { millis: t },
        resource: r,
        data: vec![0x01, 0x02, 0x03],
    }];
    store.write_resources(&written).expect("write succeeds");
    let got = store.read_resources(&vec![r]).expect("read succeeds");
    assert_eq!(got.len(), 1);
    assert_eq!(got[0].timestamp.millis, t);
    assert_eq!(got[0].resource, r);
    assert_eq!(got[0].data, vec![0x01, 0x02, 0x03]);
}

#[test]
fn fact_batch_round_trip_as_set() {
    let mut store = Store::new("file:fact_batch?mode=memory&cache=shared");
    let written = vec![
        fact(100, 1, "a", Value::Int(1)),
        fact(100, 2, "a", Value::Bool(true)),
        fact(200, 1, "b", Value::Arr(vec![Value::Null, Value::Int(-5)])),
    ];
    store.write_entities(&written).expect("write succeeds");
    let got = store.read_entities(&vec![1, 2]).expect("read succeeds");
    let mut got_set: Vec<(u64, u128, String, String)> = got
        .iter()
        .map(|f| (f.timestamp.millis, f.entity, f.key.clone(), value_text(&f.value)))
        .collect();
    let mut want_set: Vec<(u64, u128, String, String)> = written
        .iter()
        .map(|f| (f.timestamp.millis, f.entity, f.key.clone(), value_text(&f.value)))
        .collect();
    got_set.sort();
    want_set.sort();
    assert_eq!(got_set, want_set);
}

#[test]
fn resource_batch_round_trip_as_set() {
    let mut store = Store::new("file:resource_batch?mode=memory&cache=shared");
    let written = vec![
        StoreResource { timestamp: Timestamp { millis: 5 }, resource: 10, data: vec![] },
        StoreResource { timestamp: Timestamp { millis: 6 }, resource: 11, data: vec![255, 0, 17] },
    ];
    store.write_resources(&written).expect("write succeeds");
    let got = store.read_resources(&vec![10, 11]).expect("read succeeds");
    let mut got_set: Vec<(u64, u128, Vec<u8>)> = got
        .iter()
        .map(|x| (x.timestamp.millis, x.resource, x.data.clone()))
        .collect();
    got_set.sort();
    assert_eq!(got_set, vec![(5, 10, vec![]), (6, 11, vec![255, 0, 17])]);
}

#[test]
fn empty_reads_short_circuit() {
    // The path cannot even be opened; the empty read must not touch it.
    let mut store = Store::new("/this/path/does/not/exist/store.db");
    assert_eq!(store.read_entities(&vec![]).expect("empty read").len(), 0);
    assert_eq!(store.read_resources(&vec![]).expect("empty read").len(), 0);
}

#[test]
fn empty_writes_are_no_ops() {
    let mut store = Store::new("/this/path/does/not/exist/store.db");
    store.write_entities(&vec![]).expect("empty write");
    store.write_resources(&vec![]).expect("empty write");
}

#[test]
fn duplicate_ids_read_once() {
    let mut store = Store::new("file:dup_ids?mode=memory&cache=shared");
    store
        .write_entities(&vec![fact(1, 9, "k", Value::Null)])
        .expect("write succeeds");
    let got = store.read_entities(&vec![9, 9, 9]).expect("read succeeds");
    assert_eq!(got.len(), 1);
}

#[test]
fn schema_is_idempotent_across_stores() {
    let path = "file:idempotent_schema?mode=memory&cache=shared";
    let mut store1 = Store::new(path);
    let mut store2 = Store::new(path);
    store1
        .write_entities(&vec![fact(10, 1, "k", Value::Int(1))])
        .expect("first store writes");
    store2
        .write_entities(&vec![fact(20, 2, "k", Value::Int(2))])
        .expect("second store writes");
    let got = store1.read_entities(&vec![1, 2]).expect("read succeeds");
    assert_eq!(got.len(), 2);
    let got2 = store2.read_entities(&vec![1, 2]).expect("read succeeds");
    assert_eq!(got2.len(), 2);
}

#[test]
fn root_entity_determinism() {
    let mut store = Store::new("file:root_determinism?mode=memory&cache=shared");
    // Written out of order on purpose: (t=100, e=B), (t=100, e=A), (t=200, e=C).
    let b: u128 = 2;
    let a: u128 = 1;
    let c: u128 = 3;
    store
        .write_entities(&vec![
            fact(100, b, "k", Value::Null),
            fact(100, a, "k", Value::Null),
            fact(200, c, "k", Value::Null),
        ])
        .expect("write succeeds");
    assert_eq!(store.root_entity().expect("root exists"), a);
}

#[test]
fn root_entity_empty_store() {
    let mut store = Store::new("file:root_empty?mode=memory&cache=shared");
    assert_eq!(store.root_entity(), Err(StoreError::NotFound));
}

#[test]
fn encode_error_writes_nothing() {
    let mut store = Store::new("file:encode_error?mode=memory&cache=shared");
    let batch = vec![
        fact(1, 1, "ok", Value::Null),
        fact(u64::MAX, 2, "too-late", Value::Null),
    ];
    assert_eq!(store.write_entities(&batch), Err(StoreError::EncodeError));
    let got = store.read_entities(&vec![1, 2]).expect("read succeeds");
    assert_eq!(got.len(), 0, "a failed batch must leave no rows behind");
}

#[test]
fn encode_error_for_resources() {
    let mut store = Store::new("file:encode_error_res?mode=memory&cache=shared");
    let batch = vec![StoreResource {
        timestamp: Timestamp { millis: u64::MAX },
        resource: 1,
        data: vec![1],
    }];
    assert_eq!(store.write_resources(&batch), Err(StoreError::EncodeError));
    assert_eq!(store.read_resources(&vec![1]).expect("read").len(), 0);
}

#[test]
fn connection_error_surfaces() {
    let mut store = Store::new("/this/path/does/not/exist/store.db");
    assert_eq!(
        store.write_entities(&vec![fact(1, 1, "k", Value::Null)]),
        Err(StoreError::ConnectionError)
    );
    assert_eq!(store.root_entity(), Err(StoreError::ConnectionError));
}

#[test]
fn malformed_row_aborts_read() {
    let path = "file:malformed_row?mode=memory&cache=shared";
    let mut store = Store::new(path);
    let e: u128 = 7;
    store
        .write_entities(&vec![fact(1, e, "good", Value::Null)])
        .expect("write succeeds");
    // A second connection plants a row whose value column is not canonical
    // serialized text; the whole read must fail loudly.
    let raw = rusqlite::Connection::open(path).expect("open raw");
    raw.execute(
        "insert into facts (timestamp, entity, key, value) values (?1, ?2, ?3, ?4)",
        (5i64, "00000000-0000-0000-0000-000000000007", "bad", "garbage"),
    )
    .expect("raw insert");
    assert_eq!(store.read_entities(&vec![e]).err(), Some(StoreError::DecodeError));
}

#[test]
fn malformed_timestamp_aborts_read() {
    let path = "file:malformed_ts?mode=memory&cache=shared";
    let mut store = Store::new(path);
    let e: u128 = 8;
    store
        .write_entities(&vec![fact(1, e, "good", Value::Null)])
        .expect("write succeeds");
    let raw = rusqlite::Connection::open(path).expect("open raw");
    raw.execute(
        "insert into facts (timestamp, entity, key, value) values (?1, ?2, ?3, ?4)",
        (-5i64, "00000000-0000-0000-0000-000000000008", "bad", "n"),
    )
    .expect("raw insert");
    assert_eq!(store.read_entities(&vec![e]).err(), Some(StoreError::DecodeError));
}

#[test]
fn error_descriptions_are_nonempty() {
    for e in [
        StoreError::ConnectionError,
        StoreError::EncodeError,
        StoreError::DecodeError,
        StoreError::TransactionError,
        StoreError::NotFound,
    ] {
        assert!(!e.describe().is_empty());
    }
}

#[test]
fn connection_error_is_fatal() {
    let mut store = Store::new("/this/path/does/not/exist/store.db");
    assert_eq!(
        store.write_entities(&vec![fact(1, 1, "k", Value::Null)]),
        Err(StoreError::ConnectionError)
    );
    // Once opening failed, every later engine operation fails the same way.
    assert_eq!(store.read_entities(&vec![1]).err(), Some(StoreError::ConnectionError));
    assert_eq!(store.read_resources(&vec![1]).err(), Some(StoreError::ConnectionError));
    assert_eq!(store.root_entity(), Err(StoreError::ConnectionError));
    assert_eq!(
        store.write_resources(&vec![StoreResource {
            timestamp: Timestamp { millis: 1 },
            resource: 1,
            data: vec![],
        }]),
        Err(StoreError::ConnectionError)
    );
    // Empty inputs still short-circuit successfully without the engine.
    assert_eq!(store.read_entities(&vec![]).expect("empty read").len(), 0);
    store.write_entities(&vec![]).expect("empty write");
}

#[test]
fn bad_id_text_fails_decode() {
    let garbage = FactRow {
        timestamp: 5,
        entity: "not-a-uuid".to_string(),
        key: "k".to_string(),
        value: "n".to_string(),
    };
    assert_eq!(decode_fact_row(&garbage).err(), Some(StoreError::DecodeError));
    // Parseable but not canonical (uppercase hex) is still a malformed row.
    let upper = FactRow {
        timestamp: 5,
        entity: "00000000-0000-0000-0000-00000000000B".to_string(),
        key: "k".to_string(),
        value: "n".to_string(),
    };
    assert_eq!(decode_fact_row(&upper).err(), Some(StoreError::DecodeError));
    let upper_res = ResourceRow {
        timestamp: 5,
        resource: "00000000-0000-0000-0000-00000000000B".to_string(),
        data: vec![1],
    };
    assert_eq!(decode_resource_row(&upper_res).err(), Some(StoreError::DecodeError));
    let good = FactRow {
        timestamp: 5,
        entity: "00000000-0000-0000-0000-00000000000b".to_string(),
        key: "k".to_string(),
        value: "n".to_string(),
    };
    let f = decode_fact_row(&good).expect("canonical row decodes");
    assert_eq!(f.entity, 0xb);
}
