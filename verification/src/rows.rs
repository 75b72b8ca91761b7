//! Facts, resources, and their encoded row forms.
//!
//! A fact or resource is encoded into a row of plain column values exactly
//! as the engine stores it: the timestamp as a signed 64-bit integer, the
//! identifier as its canonical text, the value as its canonical
//! serialization. Decoding inverts the encoding; a row that is not the
//! encoding of anything is rejected rather than silently skipped.

use vstd::prelude::*;

use crate::errors::StoreError;
use crate::ids::{uuid_from_text, uuid_text_of, uuid_to_text};
use crate::text::{chars_to_string, copy_bytes, string_chars};
use crate::timestamp::{spec_decode_timestamp, timestamp_encodable, integer_to_timestamp,
    timestamp_to_integer, Timestamp};
use crate::value::{lemma_value_text_injective, lemma_value_wf, value_from_text, value_text_of,
    value_to_text, wf_value_view, Value, ValueView};

verus! {

/// One observed value of a named attribute of an entity at a point in time.
#[derive(Debug)]
pub struct StoreEntity {
    pub timestamp: Timestamp,
    pub entity: u128,
    pub key: String,
    pub value: Value,
}

/// The mathematical shape of a fact.
#[verifier::ext_equal]
pub struct StoreEntityView {
    pub timestamp: Timestamp,
    pub entity: u128,
    pub key: Seq<char>,
    pub value: ValueView,
}

impl View for StoreEntity {
    type V = StoreEntityView;

    open spec fn view(&self) -> StoreEntityView {
        StoreEntityView {
            timestamp: self.timestamp,
            entity: self.entity,
            key: self.key@,
            value: self.value@,
        }
    }
}

/// An immutable binary blob registered at a point in time.
#[derive(Debug)]
pub struct StoreResource {
    pub timestamp: Timestamp,
    pub resource: u128,
    pub data: Vec<u8>,
}

/// The mathematical shape of a resource.
#[verifier::ext_equal]
pub struct StoreResourceView {
    pub timestamp: Timestamp,
    pub resource: u128,
    pub data: Seq<u8>,
}

impl View for StoreResource {
    type V = StoreResourceView;

    open spec fn view(&self) -> StoreResourceView {
        StoreResourceView {
            timestamp: self.timestamp,
            resource: self.resource,
            data: self.data@,
        }
    }
}

/// A fact row as the engine stores it.
#[derive(Debug)]
pub struct FactRow {
    pub timestamp: i64,
    pub entity: String,
    pub key: String,
    pub value: String,
}

/// The mathematical shape of a fact row.
#[verifier::ext_equal]
pub struct FactRowView {
    pub timestamp: int,
    pub entity: Seq<char>,
    pub key: Seq<char>,
    pub value: Seq<char>,
}

impl View for FactRow {
    type V = FactRowView;

    open spec fn view(&self) -> FactRowView {
        FactRowView {
            timestamp: self.timestamp as int,
            entity: self.entity@,
            key: self.key@,
            value: self.value@,
        }
    }
}

/// A resource row as the engine stores it.
#[derive(Debug)]
pub struct ResourceRow {
    pub timestamp: i64,
    pub resource: String,
    pub data: Vec<u8>,
}

/// The mathematical shape of a resource row.
#[verifier::ext_equal]
pub struct ResourceRowView {
    pub timestamp: int,
    pub resource: Seq<char>,
    pub data: Seq<u8>,
}

impl View for ResourceRow {
    type V = ResourceRowView;

    open spec fn view(&self) -> ResourceRowView {
        ResourceRowView {
            timestamp: self.timestamp as int,
            resource: self.resource@,
            data: self.data@,
        }
    }
}

/// The row an encodable fact is stored as.
pub open spec fn fact_row_of(f: StoreEntityView) -> FactRowView {
    FactRowView {
        timestamp: f.timestamp.millis as int,
        entity: uuid_text_of(f.entity),
        key: f.key,
        value: value_text_of(f.value),
    }
}

/// The row an encodable resource is stored as.
pub open spec fn resource_row_of(x: StoreResourceView) -> ResourceRowView {
    ResourceRowView {
        timestamp: x.timestamp.millis as int,
        resource: uuid_text_of(x.resource),
        data: x.data,
    }
}

/// Encodes a fact into the row the engine stores; fails exactly when the
/// timestamp is out of the storable range.
pub fn encode_fact(f: &StoreEntity) -> (r: Result<FactRow, StoreError>)
    ensures
        timestamp_encodable(f@.timestamp) ==> (r matches Ok(row) && row@ == fact_row_of(f@)),
        !timestamp_encodable(f@.timestamp) ==> r == Err::<FactRow, StoreError>(
            StoreError::EncodeError,
        ),
{
    let ts = match timestamp_to_integer(f.timestamp) {
        Ok(t) => t,
        Err(e) => {
            return Err(e);
        },
    };
    let entity = uuid_to_text(f.entity);
    let value_chars = value_to_text(&f.value);
    let value = chars_to_string(&value_chars);
    let row = FactRow { timestamp: ts, entity, key: f.key.clone(), value };
    proof {
        assert(row@ =~= fact_row_of(f@));
    }
    Ok(row)
}

/// Encodes a resource into the row the engine stores; fails exactly when
/// the timestamp is out of the storable range. The blob is kept
/// byte for byte.
pub fn encode_resource(x: &StoreResource) -> (r: Result<ResourceRow, StoreError>)
    ensures
        timestamp_encodable(x@.timestamp) ==> (r matches Ok(row) && row@ == resource_row_of(x@)),
        !timestamp_encodable(x@.timestamp) ==> r == Err::<ResourceRow, StoreError>(
            StoreError::EncodeError,
        ),
{
    let ts = match timestamp_to_integer(x.timestamp) {
        Ok(t) => t,
        Err(e) => {
            return Err(e);
        },
    };
    let resource = uuid_to_text(x.resource);
    let row = ResourceRow { timestamp: ts, resource, data: copy_bytes(&x.data) };
    proof {
        assert(row@ =~= resource_row_of(x@));
    }
    Ok(row)
}

/// Whether `g` is what a stored fact row reconstructs to: the timestamp
/// decoded, the key taken as is, the value parsed from its canonical
/// text, and the entity parsed from its canonical text.
pub open spec fn decoded_fact(g: StoreEntityView, row: FactRowView) -> bool {
    &&& row.timestamp >= 0
    &&& g.timestamp == spec_decode_timestamp(row.timestamp)
    &&& g.key == row.key
    &&& row.value == value_text_of(g.value)
    &&& wf_value_view(g.value)
    &&& row.entity == uuid_text_of(g.entity)
    &&& forall|n: u128| row.entity == uuid_text_of(n) ==> g.entity == n
}

/// Whether `g` is what a stored resource row reconstructs to, the blob
/// byte for byte.
pub open spec fn decoded_resource(g: StoreResourceView, row: ResourceRowView) -> bool {
    &&& row.timestamp >= 0
    &&& g.timestamp == spec_decode_timestamp(row.timestamp)
    &&& g.data == row.data
    &&& row.resource == uuid_text_of(g.resource)
    &&& forall|n: u128| row.resource == uuid_text_of(n) ==> g.resource == n
}

/// What decodes from the encoding of a fact is that fact itself.
pub proof fn lemma_decoded_fact_of_encoding(g: StoreEntityView, f: StoreEntityView)
    requires
        decoded_fact(g, fact_row_of(f)),
        wf_value_view(f.value),
    ensures
        g == f,
{
    assert(fact_row_of(f).entity == uuid_text_of(f.entity));
    lemma_value_text_injective(g.value, f.value);
    assert(g =~= f);
}

/// What decodes from the encoding of a resource is that resource itself.
pub proof fn lemma_decoded_resource_of_encoding(g: StoreResourceView, x: StoreResourceView)
    requires
        decoded_resource(g, resource_row_of(x)),
    ensures
        g == x,
{
    assert(resource_row_of(x).resource == uuid_text_of(x.resource));
    assert(g =~= x);
}

/// Decodes a stored fact row. On success every field is pinned down by
/// the row — the entity column must be canonical identifier text — and
/// every row that is the encoding of a fact with a representable
/// timestamp and value decodes back to exactly that fact: the write/read
/// round trip loses nothing.
pub fn decode_fact_row(row: &FactRow) -> (r: Result<StoreEntity, StoreError>)
    ensures
        r matches Ok(g) ==> decoded_fact(g@, row@),
        r matches Err(e) ==> e == StoreError::DecodeError,
        forall|f: StoreEntityView|
            #![trigger fact_row_of(f)]
            row@ == fact_row_of(f) && timestamp_encodable(f.timestamp) && wf_value_view(f.value)
                ==> (r matches Ok(g) && g@ == f),
{
    let ts = match integer_to_timestamp(row.timestamp) {
        Ok(t) => t,
        Err(_) => {
            return Err(StoreError::DecodeError);
        },
    };
    let entity = match uuid_from_text(row.entity.as_str()) {
        Some(n) => n,
        None => {
            proof {
                assert forall|f: StoreEntityView|
                    row@ == fact_row_of(f) && timestamp_encodable(f.timestamp) && wf_value_view(
                        f.value,
                    ) implies false by {
                    assert(row.entity@ == uuid_text_of(f.entity));
                }
            }
            return Err(StoreError::DecodeError);
        },
    };
    let canonical = uuid_to_text(entity);
    if !(canonical == row.entity) {
        proof {
            assert forall|f: StoreEntityView|
                row@ == fact_row_of(f) && timestamp_encodable(f.timestamp) && wf_value_view(
                    f.value,
                ) implies false by {
                assert(row.entity@ == uuid_text_of(f.entity));
                assert(entity == f.entity);
            }
        }
        return Err(StoreError::DecodeError);
    }
    let value_chars = string_chars(row.value.as_str());
    let value = match value_from_text(&value_chars) {
        Some(v) => v,
        None => {
            proof {
                assert forall|f: StoreEntityView|
                    row@ == fact_row_of(f) && timestamp_encodable(f.timestamp) && wf_value_view(
                        f.value,
                    ) implies false by {
                    assert(value_chars@ == value_text_of(f.value));
                }
            }
            return Err(StoreError::DecodeError);
        },
    };
    let g = StoreEntity { timestamp: ts, entity, key: row.key.clone(), value };
    proof {
        lemma_value_wf(value);
        assert(decoded_fact(g@, row@));
        assert forall|f: StoreEntityView|
            row@ == fact_row_of(f) && timestamp_encodable(f.timestamp) && wf_value_view(f.value)
                implies g@ =~= f by {
            assert(row.entity@ == uuid_text_of(f.entity));
            assert(g@.entity == f.entity);
            assert(g@.timestamp == f.timestamp);
            lemma_value_text_injective(value@, f.value);
        }
    }
    Ok(g)
}

/// Decodes a stored resource row. On success every field is pinned down
/// by the row — the resource column must be canonical identifier text,
/// the blob is kept byte for byte — and every row that is the encoding
/// of a resource with a representable timestamp decodes back to exactly
/// that resource.
pub fn decode_resource_row(row: &ResourceRow) -> (r: Result<StoreResource, StoreError>)
    ensures
        r matches Ok(g) ==> decoded_resource(g@, row@),
        r matches Err(e) ==> e == StoreError::DecodeError,
        forall|x: StoreResourceView|
            #![trigger resource_row_of(x)]
            row@ == resource_row_of(x) && timestamp_encodable(x.timestamp) ==> (r matches Ok(g)
                && g@ == x),
{
    let ts = match integer_to_timestamp(row.timestamp) {
        Ok(t) => t,
        Err(_) => {
            return Err(StoreError::DecodeError);
        },
    };
    let resource = match uuid_from_text(row.resource.as_str()) {
        Some(n) => n,
        None => {
            proof {
                assert forall|x: StoreResourceView|
                    row@ == resource_row_of(x) && timestamp_encodable(x.timestamp) implies false
                    by {
                    assert(row.resource@ == uuid_text_of(x.resource));
                }
            }
            return Err(StoreError::DecodeError);
        },
    };
    let canonical = uuid_to_text(resource);
    if !(canonical == row.resource) {
        proof {
            assert forall|x: StoreResourceView|
                row@ == resource_row_of(x) && timestamp_encodable(x.timestamp) implies false by {
                assert(row.resource@ == uuid_text_of(x.resource));
                assert(resource == x.resource);
            }
        }
        return Err(StoreError::DecodeError);
    }
    let g = StoreResource { timestamp: ts, resource, data: copy_bytes(&row.data) };
    proof {
        assert(decoded_resource(g@, row@));
        assert forall|x: StoreResourceView|
            row@ == resource_row_of(x) && timestamp_encodable(x.timestamp) implies g@ =~= x by {
            assert(row@.resource == uuid_text_of(x.resource));
        }
    }
    Ok(g)
}

} // verus!
