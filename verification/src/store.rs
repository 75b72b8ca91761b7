//! The store: one lazily opened SQLite connection, schema guaranteed
//! present, atomic batched writes, batched keyed reads, and root-entity
//! resolution.
//!
//! The store's committed contents are modelled by two ghost sequences of
//! row shapes, one per table, holding what this handle has committed, in
//! order. Every operation's contract says how the model changes: a write
//! either appends the whole encoded batch or leaves the model untouched,
//! reads leave it untouched and hand back a decoding of every committed
//! row whose identifier was asked for. The trusted wrappers around the
//! engine state the per-call effect of `begin`/`insert`/`commit`/
//! `rollback` on that model, exactly as SQLite's transaction semantics
//! documents them, and the queries' guarantee that committed rows are
//! found again.
//!
//! Once opening the connection or creating the schema has failed, the
//! handle is marked failed and every later operation that needs the
//! engine fails with `ConnectionError`: a connection failure is fatal
//! for the store's lifetime.

use vstd::prelude::*;

use crate::errors::StoreError;
use crate::ids::uuid_from_text;
use crate::ids::uuid_to_text;
use crate::root::{resolve_root, RootRow};
use crate::rows::{decode_fact_row, decode_resource_row, decoded_fact, decoded_resource,
    encode_fact, encode_resource, fact_row_of, lemma_decoded_fact_of_encoding,
    lemma_decoded_resource_of_encoding, resource_row_of, FactRow, FactRowView, ResourceRow,
    ResourceRowView, StoreEntity, StoreEntityView, StoreResource, StoreResourceView};
use crate::timestamp::timestamp_encodable;
use crate::value::wf_value_view;

verus! {

/// The `rusqlite` connection type, opaque to verification.
#[verifier::external_type_specification]
#[verifier::external_body]
pub struct ExConnection(rusqlite::Connection);

/// The `rusqlite` error type, opaque to verification.
#[verifier::external_type_specification]
#[verifier::external_body]
pub struct ExSqlError(rusqlite::Error);

/// Whether `x` occurs in the identifier list.
pub open spec fn contains_id(ids: Seq<u128>, x: u128) -> bool {
    exists|j: int| 0 <= j < ids.len() && ids[j] == x
}

/// Whether `v` holds, for every row of `model` that is the encoding of a
/// fact under one of the asked-for identifiers, that fact itself.
pub open spec fn covers_facts(model: Seq<FactRowView>, ids: Seq<u128>, v: Seq<StoreEntity>) -> bool {
    forall|f: StoreEntityView, j: int|
        #![trigger model[j], fact_row_of(f)]
        0 <= j < model.len() && model[j] == fact_row_of(f) && contains_id(ids, f.entity)
            && wf_value_view(f.value) ==> exists|i: int| 0 <= i < v.len() && v[i]@ == f
}

/// Whether `v` holds, for every row of `model` that is the encoding of a
/// resource under one of the asked-for identifiers, that resource itself.
pub open spec fn covers_resources(
    model: Seq<ResourceRowView>,
    ids: Seq<u128>,
    v: Seq<StoreResource>,
) -> bool {
    forall|x: StoreResourceView, j: int|
        #![trigger model[j], resource_row_of(x)]
        0 <= j < model.len() && model[j] == resource_row_of(x) && contains_id(ids, x.resource)
            ==> exists|i: int| 0 <= i < v.len() && v[i]@ == x
}

/// The encoded rows a batch of facts is stored as.
pub open spec fn fact_rows_of(batch: Seq<StoreEntity>) -> Seq<FactRowView> {
    Seq::new(batch.len(), |k: int| fact_row_of(batch[k]@))
}

/// The encoded rows a batch of resources is stored as.
pub open spec fn resource_rows_of(batch: Seq<StoreResource>) -> Seq<ResourceRowView> {
    Seq::new(batch.len(), |k: int| resource_row_of(batch[k]@))
}

/// The persistence handle: path, lazily opened connection, and the ghost
/// model of what it has committed.
pub struct Store {
    path: String,
    conn: Option<rusqlite::Connection>,
    conn_failed: bool,
    committed_facts: Ghost<Seq<FactRowView>>,
    committed_resources: Ghost<Seq<ResourceRowView>>,
    pending_facts: Ghost<Seq<FactRowView>>,
    pending_resources: Ghost<Seq<ResourceRowView>>,
}

impl Store {
    /// The fact rows this handle has committed, in commit order.
    pub closed spec fn facts(self) -> Seq<FactRowView> {
        self.committed_facts@
    }

    /// The resource rows this handle has committed, in commit order.
    pub closed spec fn resources(self) -> Seq<ResourceRowView> {
        self.committed_resources@
    }

    /// The path this handle was opened against.
    pub closed spec fn spec_path(self) -> Seq<char> {
        self.path@
    }

    /// Whether the connection is open (schema present).
    pub closed spec fn ready(self) -> bool {
        self.conn is Some
    }

    /// Whether opening the connection or creating the schema has failed;
    /// once true, it stays true, and every engine operation fails.
    pub closed spec fn failed(self) -> bool {
        self.conn_failed
    }

    /// Between operations no transaction is in flight.
    pub closed spec fn wf(self) -> bool {
        self.pending_facts@ == Seq::<FactRowView>::empty() && self.pending_resources@
            == Seq::<ResourceRowView>::empty()
    }

    /// A handle against `path`. Never fails: the connection is opened and
    /// the schema created on first use.
    pub fn new(path: &str) -> (s: Store)
        ensures
            s.wf(),
            !s.ready(),
            !s.failed(),
            s.spec_path() == path@,
            s.facts() == Seq::<FactRowView>::empty(),
            s.resources() == Seq::<ResourceRowView>::empty(),
    {
        Store {
            path: path.to_owned(),
            conn: None,
            conn_failed: false,
            committed_facts: Ghost(Seq::empty()),
            committed_resources: Ghost(Seq::empty()),
            pending_facts: Ghost(Seq::empty()),
            pending_resources: Ghost(Seq::empty()),
        }
    }

    /// Opens the backing database file.
    ///
    /// Relies on `rusqlite::Connection::open`: it opens, creating if
    /// missing, the SQLite database at the given path.
    #[verifier::external_body]
    fn open_connection(path: &String) -> (r: Result<rusqlite::Connection, rusqlite::Error>) {
        rusqlite::Connection::open(path.as_str())
    }

    /// Runs one parameterless schema statement.
    ///
    /// Relies on `rusqlite::Connection::execute` with no parameters: it
    /// runs the given SQL statement against the open database.
    #[verifier::external_body]
    fn run_sql(conn: &rusqlite::Connection, sql: &str) -> (r: Result<(), rusqlite::Error>) {
        conn.execute(sql, ()).map(|_| ())
    }

    /// Whether an engine error came from converting a fetched row's
    /// column values, rather than from running the query itself.
    ///
    /// Relies on the variants of `rusqlite::Error`: `InvalidColumnType`,
    /// `FromSqlConversionFailure`, `IntegralValueOutOfRange` and
    /// `Utf8Error` are produced by column-value conversion while mapping
    /// rows; a row that trips them is malformed rather than unreachable.
    #[verifier::external_body]
    fn is_row_error(e: &rusqlite::Error) -> bool {
        match e {
            rusqlite::Error::InvalidColumnType(_, _, _) => true,
            rusqlite::Error::FromSqlConversionFailure(_, _, _) => true,
            rusqlite::Error::IntegralValueOutOfRange(_, _) => true,
            rusqlite::Error::Utf8Error(_, _) => true,
            _ => false,
        }
    }

    /// Maps an engine error during a read: a row whose column values
    /// could not be converted is a malformed stored row (`DecodeError`);
    /// anything else is the engine failing (`ConnectionError`).
    fn read_error_of(e: rusqlite::Error) -> (r: StoreError)
        ensures
            r == StoreError::DecodeError || r == StoreError::ConnectionError,
    {
        if Self::is_row_error(&e) {
            StoreError::DecodeError
        } else {
            StoreError::ConnectionError
        }
    }

    /// Starts an exclusive transaction; nothing committed changes.
    ///
    /// Relies on `rusqlite::Connection::execute` running `begin immediate`:
    /// SQLite opens a transaction whose inserts become visible only at
    /// commit.
    #[verifier::external_body]
    fn begin_tx(&mut self) -> (r: Result<(), rusqlite::Error>)
        requires
            old(self).conn is Some,
        ensures
            final(self).path == old(self).path,
            final(self).conn is Some,
            final(self).conn_failed == old(self).conn_failed,
            final(self).committed_facts == old(self).committed_facts,
            final(self).committed_resources == old(self).committed_resources,
            r matches Ok(_) ==> final(self).pending_facts@ == Seq::<FactRowView>::empty()
                && final(self).pending_resources@ == Seq::<ResourceRowView>::empty(),
            r matches Err(_) ==> final(self).pending_facts == old(self).pending_facts
                && final(self).pending_resources == old(self).pending_resources,
    {
        self.conn.as_ref().unwrap().execute("begin immediate", ()).map(|_| ())
    }

    /// Starts a read snapshot: a deferred transaction under which the
    /// queries that follow see one consistent database state, so a read
    /// spanning several queries cannot observe part of another handle's
    /// batch.
    ///
    /// Relies on `rusqlite::Connection::execute` running `begin`: SQLite
    /// opens a deferred transaction; nothing committed changes.
    #[verifier::external_body]
    fn begin_read_tx(&mut self) -> (r: Result<(), rusqlite::Error>)
        requires
            old(self).conn is Some,
        ensures
            final(self).path == old(self).path,
            final(self).conn is Some,
            final(self).conn_failed == old(self).conn_failed,
            final(self).committed_facts == old(self).committed_facts,
            final(self).committed_resources == old(self).committed_resources,
            r matches Ok(_) ==> final(self).pending_facts@ == Seq::<FactRowView>::empty()
                && final(self).pending_resources@ == Seq::<ResourceRowView>::empty(),
            r matches Err(_) ==> final(self).pending_facts == old(self).pending_facts
                && final(self).pending_resources == old(self).pending_resources,
    {
        self.conn.as_ref().unwrap().execute("begin", ()).map(|_| ())
    }

    /// Inserts one fact row inside the open transaction.
    ///
    /// Relies on `rusqlite::Connection::execute` running an `insert` into
    /// the facts table with the four column values bound in order: on
    /// success exactly that row is added to the transaction's pending
    /// rows; on failure the transaction's committed state is untouched.
    #[verifier::external_body]
    fn insert_fact_row(&mut self, row: &FactRow) -> (r: Result<(), rusqlite::Error>)
        requires
            old(self).conn is Some,
        ensures
            final(self).path == old(self).path,
            final(self).conn is Some,
            final(self).conn_failed == old(self).conn_failed,
            final(self).committed_facts == old(self).committed_facts,
            final(self).committed_resources == old(self).committed_resources,
            final(self).pending_resources == old(self).pending_resources,
            r matches Ok(_) ==> final(self).pending_facts@ == old(self).pending_facts@.push(row@),
            r matches Err(_) ==> final(self).pending_facts == old(self).pending_facts,
    {
        self.conn.as_ref().unwrap().execute(
            "insert into facts (timestamp, entity, key, value) values (?1, ?2, ?3, ?4)",
            (row.timestamp, row.entity.as_str(), row.key.as_str(), row.value.as_str()),
        ).map(|_| ())
    }

    /// Inserts one resource row inside the open transaction.
    ///
    /// Relies on `rusqlite::Connection::execute` running an `insert` into
    /// the resources table with the three column values bound in order,
    /// the blob byte for byte.
    #[verifier::external_body]
    fn insert_resource_row(&mut self, row: &ResourceRow) -> (r: Result<(), rusqlite::Error>)
        requires
            old(self).conn is Some,
        ensures
            final(self).path == old(self).path,
            final(self).conn is Some,
            final(self).conn_failed == old(self).conn_failed,
            final(self).committed_facts == old(self).committed_facts,
            final(self).committed_resources == old(self).committed_resources,
            final(self).pending_facts == old(self).pending_facts,
            r matches Ok(_) ==> final(self).pending_resources@ == old(
                self,
            ).pending_resources@.push(row@),
            r matches Err(_) ==> final(self).pending_resources == old(self).pending_resources,
    {
        self.conn.as_ref().unwrap().execute(
            "insert into resources (timestamp, resource, data) values (?1, ?2, ?3)",
            (row.timestamp, row.resource.as_str(), &row.data),
        ).map(|_| ())
    }

    /// Commits the open transaction: on success every pending row becomes
    /// committed at once; on failure nothing does.
    ///
    /// Relies on `rusqlite::Connection::execute` running `commit`:
    /// SQLite makes the whole transaction durable atomically, or none
    /// of it.
    #[verifier::external_body]
    fn commit_tx(&mut self) -> (r: Result<(), rusqlite::Error>)
        requires
            old(self).conn is Some,
        ensures
            final(self).path == old(self).path,
            final(self).conn is Some,
            final(self).conn_failed == old(self).conn_failed,
            final(self).pending_facts@ == Seq::<FactRowView>::empty(),
            final(self).pending_resources@ == Seq::<ResourceRowView>::empty(),
            r matches Ok(_) ==> final(self).committed_facts@ == old(self).committed_facts@ + old(
                self,
            ).pending_facts@ && final(self).committed_resources@ == old(
                self,
            ).committed_resources@ + old(self).pending_resources@,
            r matches Err(_) ==> final(self).committed_facts == old(self).committed_facts
                && final(self).committed_resources == old(self).committed_resources,
    {
        self.conn.as_ref().unwrap().execute("commit", ()).map(|_| ())
    }

    /// Abandons the open transaction; nothing committed changes.
    ///
    /// Relies on `rusqlite::Connection::execute` running `rollback`:
    /// SQLite discards every pending row of the transaction.
    #[verifier::external_body]
    fn rollback_tx(&mut self) -> (r: Result<(), rusqlite::Error>)
        requires
            old(self).conn is Some,
        ensures
            final(self).path == old(self).path,
            final(self).conn is Some,
            final(self).conn_failed == old(self).conn_failed,
            final(self).committed_facts == old(self).committed_facts,
            final(self).committed_resources == old(self).committed_resources,
            final(self).pending_facts@ == Seq::<FactRowView>::empty(),
            final(self).pending_resources@ == Seq::<ResourceRowView>::empty(),
    {
        self.conn.as_ref().unwrap().execute("rollback", ()).map(|_| ())
    }

    /// The fact rows whose entity column equals the given text.
    ///
    /// Relies on `rusqlite::Connection::prepare` and
    /// `rusqlite::Statement::query_map` over
    /// `select ... where entity = ?1`, and on SQLite keeping committed
    /// rows: every row handed back has its entity column equal to the
    /// argument, and — since nothing in this store deletes or alters rows
    /// and a select returns every matching row — every fact row this
    /// handle has committed with that entity column is among the rows
    /// handed back.
    #[verifier::external_body]
    fn query_fact_rows(&self, entity_text: &String) -> (r: Result<Vec<FactRow>, rusqlite::Error>)
        requires
            self.conn is Some,
        ensures
            r matches Ok(rows) ==> forall|q: int|
                0 <= q < rows@.len() ==> (#[trigger] rows@[q])@.entity == entity_text@,
            r matches Ok(rows) ==> forall|j: int|
                0 <= j < self.facts().len() && (#[trigger] self.facts()[j]).entity == entity_text@
                    ==> exists|q: int| 0 <= q < rows@.len() && rows@[q]@ == self.facts()[j],
    {
        let conn = self.conn.as_ref().unwrap();
        let mut st = conn.prepare(
            "select timestamp, entity, key, value from facts where entity = ?1",
        )?;
        let rows = st.query_map((entity_text.as_str(),), |r| {
            Ok(FactRow { timestamp: r.get(0)?, entity: r.get(1)?, key: r.get(2)?, value: r.get(3)? })
        })?;
        rows.collect()
    }

    /// The resource rows whose resource column equals the given text.
    ///
    /// Relies on `rusqlite::Connection::prepare` and
    /// `rusqlite::Statement::query_map` over
    /// `select ... where resource = ?1`, and on SQLite keeping committed
    /// rows, as for the fact query: sound and complete for this handle's
    /// committed resource rows with that resource column.
    #[verifier::external_body]
    fn query_resource_rows(&self, resource_text: &String) -> (r: Result<
        Vec<ResourceRow>,
        rusqlite::Error,
    >)
        requires
            self.conn is Some,
        ensures
            r matches Ok(rows) ==> forall|q: int|
                0 <= q < rows@.len() ==> (#[trigger] rows@[q])@.resource == resource_text@,
            r matches Ok(rows) ==> forall|j: int|
                0 <= j < self.resources().len() && (#[trigger] self.resources()[j]).resource
                    == resource_text@ ==> exists|q: int|
                    0 <= q < rows@.len() && rows@[q]@ == self.resources()[j],
    {
        let conn = self.conn.as_ref().unwrap();
        let mut st = conn.prepare(
            "select timestamp, resource, data from resources where resource = ?1",
        )?;
        let rows = st.query_map((resource_text.as_str(),), |r| {
            Ok(ResourceRow { timestamp: r.get(0)?, resource: r.get(1)?, data: r.get(2)? })
        })?;
        rows.collect()
    }

    /// The (timestamp, entity) pairs of all fact rows, in engine order.
    ///
    /// Relies on `rusqlite::Connection::prepare` and
    /// `rusqlite::Statement::query_map` over
    /// `select timestamp, entity from facts`, and on SQLite keeping
    /// committed rows: every fact row this handle has committed has its
    /// pair among the rows handed back.
    #[verifier::external_body]
    fn query_root_rows(&self) -> (r: Result<Vec<RootRow>, rusqlite::Error>)
        requires
            self.conn is Some,
        ensures
            r matches Ok(rows) ==> forall|j: int|
                0 <= j < self.facts().len() ==> exists|q: int|
                    0 <= q < rows@.len()
                        && rows@[q]@.timestamp == (#[trigger] self.facts()[j]).timestamp
                        && rows@[q]@.entity == self.facts()[j].entity,
            r matches Ok(rows) ==> (rows@.len() == 0 ==> self.facts().len() == 0),
    {
        let conn = self.conn.as_ref().unwrap();
        let mut st = conn.prepare("select timestamp, entity from facts")?;
        let rows = st.query_map((), |r| {
            Ok(RootRow { timestamp: r.get(0)?, entity: r.get(1)? })
        })?;
        rows.collect()
    }

    /// Opens the connection and creates the schema on first use; later
    /// calls do nothing. Idempotent: every statement creates only what is
    /// absent and never drops or alters anything. A failure is fatal: the
    /// handle is marked failed and every later call fails at once.
    #[verifier::loop_isolation(false)]
    fn ensure_connection(&mut self) -> (r: Result<(), StoreError>)
        ensures
            final(self).path == old(self).path,
            final(self).committed_facts == old(self).committed_facts,
            final(self).committed_resources == old(self).committed_resources,
            final(self).pending_facts == old(self).pending_facts,
            final(self).pending_resources == old(self).pending_resources,
            old(self).ready() ==> final(self).ready(),
            final(self).failed() == (old(self).failed() || r is Err),
            r matches Ok(_) ==> final(self).conn is Some,
            r matches Err(e) ==> e == StoreError::ConnectionError,
            old(self).failed() ==> r is Err,
    {
        if self.conn_failed {
            return Err(StoreError::ConnectionError);
        }
        if self.conn.is_none() {
            let c = match Self::open_connection(&self.path) {
                Ok(c) => c,
                Err(_) => {
                    self.conn_failed = true;
                    return Err(StoreError::ConnectionError);
                },
            };
            let schema: [&str; 6] = [
                "create table if not exists facts (timestamp integer not null, entity text not null, key text not null, value text not null)",
                "create index if not exists idx_facts_timestamp on facts (timestamp)",
                "create index if not exists idx_facts_entity on facts (entity)",
                "create table if not exists resources (timestamp integer not null, resource text not null, data blob not null)",
                "create index if not exists idx_resources_timestamp on resources (timestamp)",
                "create index if not exists idx_resources_resource on resources (resource)",
            ];
            let mut k: usize = 0;
            while k < 6
                invariant
                    k <= 6,
                    self == old(self),
                decreases 6 - k,
            {
                if Self::run_sql(&c, schema[k]).is_err() {
                    self.conn_failed = true;
                    return Err(StoreError::ConnectionError);
                }
                k = k + 1;
            }
            self.conn = Some(c);
        }
        Ok(())
    }

    /// Writes a batch of facts in one atomic transaction, in order: either
    /// every row of the batch is committed, or none is. A timestamp out of
    /// range aborts with `EncodeError` before anything is written; an
    /// engine failure rolls back and surfaces as `TransactionError`. An
    /// empty batch succeeds with no effect.
    #[verifier::loop_isolation(false)]
    pub fn write_entities(&mut self, entities: &Vec<StoreEntity>) -> (r: Result<(), StoreError>)
        requires
            old(self).wf(),
        ensures
            final(self).wf(),
            final(self).spec_path() == old(self).spec_path(),
            final(self).resources() == old(self).resources(),
            old(self).ready() ==> final(self).ready(),
            old(self).failed() ==> final(self).failed(),
            r matches Ok(_) ==> final(self).facts() == old(self).facts() + fact_rows_of(
                entities@,
            ),
            r matches Err(_) ==> final(self).facts() == old(self).facts(),
            r matches Err(e) ==> (e == StoreError::EncodeError || e == StoreError::ConnectionError
                || e == StoreError::TransactionError),
            (forall|k: int|
                0 <= k < entities@.len() ==> timestamp_encodable(
                    (#[trigger] entities@[k])@.timestamp,
                )) ==> r != Err::<(), StoreError>(StoreError::EncodeError),
            (exists|k: int|
                0 <= k < entities@.len() && !timestamp_encodable(
                    (#[trigger] entities@[k])@.timestamp,
                )) ==> r == Err::<(), StoreError>(StoreError::EncodeError),
            (old(self).failed() && entities@.len() > 0 && (forall|k: int|
                0 <= k < entities@.len() ==> timestamp_encodable(
                    (#[trigger] entities@[k])@.timestamp,
                ))) ==> r == Err::<(), StoreError>(StoreError::ConnectionError),
            entities@.len() == 0 ==> r == Ok::<(), StoreError>(()),
    {
        let ghost target = fact_rows_of(entities@);
        let mut rows: Vec<FactRow> = Vec::new();
        let mut k: usize = 0;
        while k < entities.len()
            invariant
                k <= entities@.len(),
                target == fact_rows_of(entities@),
                rows@.len() == k,
                forall|j: int| 0 <= j < k ==> (#[trigger] rows@[j])@ == target[j],
                forall|j: int|
                    0 <= j < k ==> timestamp_encodable((#[trigger] entities@[j])@.timestamp),
            decreases entities@.len() - k,
        {
            match encode_fact(&entities[k]) {
                Ok(row) => {
                    rows.push(row);
                },
                Err(e) => {
                    return Err(e);
                },
            }
            k = k + 1;
        }
        if rows.len() == 0 {
            proof {
                assert(old(self).facts() + target =~= old(self).facts());
            }
            return Ok(());
        }
        match self.ensure_connection() {
            Ok(_) => {},
            Err(e) => {
                return Err(e);
            },
        }
        match self.begin_tx() {
            Ok(_) => {},
            Err(_) => {
                return Err(StoreError::TransactionError);
            },
        }
        proof {
            assert(target.take(0) =~= Seq::<FactRowView>::empty());
        }
        let mut k: usize = 0;
        while k < rows.len()
            invariant
                k <= rows@.len(),
                rows@.len() == entities@.len(),
                target == fact_rows_of(entities@),
                forall|j: int| 0 <= j < rows@.len() ==> (#[trigger] rows@[j])@ == target[j],
                self.conn is Some,
                self.path == old(self).path,
                self.conn_failed == old(self).conn_failed,
                self.committed_facts == old(self).committed_facts,
                self.committed_resources == old(self).committed_resources,
                self.pending_resources@ == Seq::<ResourceRowView>::empty(),
                self.pending_facts@ == target.take(k as int),
            decreases rows@.len() - k,
        {
            match self.insert_fact_row(&rows[k]) {
                Ok(_) => {},
                Err(_) => {
                    let _ = self.rollback_tx();
                    return Err(StoreError::TransactionError);
                },
            }
            proof {
                assert(target.take(k as int).push(target[k as int]) =~= target.take(k + 1));
            }
            k = k + 1;
        }
        proof {
            assert(target.take(rows@.len() as int) =~= target);
        }
        match self.commit_tx() {
            Ok(_) => {
                proof {
                    assert(self.committed_resources@ =~= old(self).committed_resources@);
                }
                Ok(())
            },
            Err(_) => Err(StoreError::TransactionError),
        }
    }

    /// Writes a batch of resources in one atomic transaction, in order,
    /// each blob byte for byte; same all-or-nothing contract as fact
    /// writes.
    #[verifier::loop_isolation(false)]
    pub fn write_resources(&mut self, resources: &Vec<StoreResource>) -> (r: Result<
        (),
        StoreError,
    >)
        requires
            old(self).wf(),
        ensures
            final(self).wf(),
            final(self).spec_path() == old(self).spec_path(),
            final(self).facts() == old(self).facts(),
            old(self).ready() ==> final(self).ready(),
            old(self).failed() ==> final(self).failed(),
            r matches Ok(_) ==> final(self).resources() == old(self).resources()
                + resource_rows_of(resources@),
            r matches Err(_) ==> final(self).resources() == old(self).resources(),
            r matches Err(e) ==> (e == StoreError::EncodeError || e == StoreError::ConnectionError
                || e == StoreError::TransactionError),
            (forall|k: int|
                0 <= k < resources@.len() ==> timestamp_encodable(
                    (#[trigger] resources@[k])@.timestamp,
                )) ==> r != Err::<(), StoreError>(StoreError::EncodeError),
            (exists|k: int|
                0 <= k < resources@.len() && !timestamp_encodable(
                    (#[trigger] resources@[k])@.timestamp,
                )) ==> r == Err::<(), StoreError>(StoreError::EncodeError),
            (old(self).failed() && resources@.len() > 0 && (forall|k: int|
                0 <= k < resources@.len() ==> timestamp_encodable(
                    (#[trigger] resources@[k])@.timestamp,
                ))) ==> r == Err::<(), StoreError>(StoreError::ConnectionError),
            resources@.len() == 0 ==> r == Ok::<(), StoreError>(()),
    {
        let ghost target = resource_rows_of(resources@);
        let mut rows: Vec<ResourceRow> = Vec::new();
        let mut k: usize = 0;
        while k < resources.len()
            invariant
                k <= resources@.len(),
                target == resource_rows_of(resources@),
                rows@.len() == k,
                forall|j: int| 0 <= j < k ==> (#[trigger] rows@[j])@ == target[j],
                forall|j: int|
                    0 <= j < k ==> timestamp_encodable((#[trigger] resources@[j])@.timestamp),
            decreases resources@.len() - k,
        {
            match encode_resource(&resources[k]) {
                Ok(row) => {
                    rows.push(row);
                },
                Err(e) => {
                    return Err(e);
                },
            }
            k = k + 1;
        }
        if rows.len() == 0 {
            proof {
                assert(old(self).resources() + target =~= old(self).resources());
            }
            return Ok(());
        }
        match self.ensure_connection() {
            Ok(_) => {},
            Err(e) => {
                return Err(e);
            },
        }
        match self.begin_tx() {
            Ok(_) => {},
            Err(_) => {
                return Err(StoreError::TransactionError);
            },
        }
        proof {
            assert(target.take(0) =~= Seq::<ResourceRowView>::empty());
        }
        let mut k: usize = 0;
        while k < rows.len()
            invariant
                k <= rows@.len(),
                rows@.len() == resources@.len(),
                target == resource_rows_of(resources@),
                forall|j: int| 0 <= j < rows@.len() ==> (#[trigger] rows@[j])@ == target[j],
                self.conn is Some,
                self.path == old(self).path,
                self.conn_failed == old(self).conn_failed,
                self.committed_facts == old(self).committed_facts,
                self.committed_resources == old(self).committed_resources,
                self.pending_facts@ == Seq::<FactRowView>::empty(),
                self.pending_resources@ == target.take(k as int),
            decreases rows@.len() - k,
        {
            match self.insert_resource_row(&rows[k]) {
                Ok(_) => {},
                Err(_) => {
                    let _ = self.rollback_tx();
                    return Err(StoreError::TransactionError);
                },
            }
            proof {
                assert(target.take(k as int).push(target[k as int]) =~= target.take(k + 1));
            }
            k = k + 1;
        }
        proof {
            assert(target.take(rows@.len() as int) =~= target);
        }
        match self.commit_tx() {
            Ok(_) => {
                proof {
                    assert(self.committed_facts@ =~= old(self).committed_facts@);
                }
                Ok(())
            },
            Err(_) => Err(StoreError::TransactionError),
        }
    }

    /// Reads every fact whose entity is one of the given identifiers.
    /// An empty identifier list yields an empty result without touching
    /// the engine. Every returned fact belongs to one of the asked-for
    /// entities, and every fact this handle committed under an asked-for
    /// entity is in the result; duplicates among the identifiers do not
    /// duplicate rows. A malformed stored row — bad identifier text, bad
    /// timestamp, bad value text, or a column of the wrong type — aborts
    /// the whole read with `DecodeError`; an engine failure surfaces as
    /// `ConnectionError`. The queries all run inside one read snapshot,
    /// so the result reflects a single database state. The rows come back
    /// in engine order, with no ordering promised.
    #[verifier::loop_isolation(false)]
    pub fn read_entities(&mut self, entities: &Vec<u128>) -> (r: Result<
        Vec<StoreEntity>,
        StoreError,
    >)
        requires
            old(self).wf(),
        ensures
            final(self).wf(),
            final(self).spec_path() == old(self).spec_path(),
            final(self).facts() == old(self).facts(),
            final(self).resources() == old(self).resources(),
            old(self).ready() ==> final(self).ready(),
            old(self).failed() ==> final(self).failed(),
            entities@.len() == 0 ==> (r matches Ok(v) && v@.len() == 0),
            (old(self).failed() && entities@.len() > 0) ==> r == Err::<
                Vec<StoreEntity>,
                StoreError,
            >(StoreError::ConnectionError),
            r matches Ok(v) ==> forall|k: int|
                0 <= k < v@.len() ==> contains_id(entities@, (#[trigger] v@[k])@.entity),
            r matches Ok(v) ==> covers_facts(final(self).facts(), entities@, v@),
            r matches Err(e) ==> (e == StoreError::ConnectionError || e == StoreError::DecodeError),
    {
        let mut out: Vec<StoreEntity> = Vec::new();
        if entities.len() == 0 {
            return Ok(out);
        }
        match self.ensure_connection() {
            Ok(_) => {},
            Err(e) => {
                return Err(e);
            },
        }
        match self.begin_read_tx() {
            Ok(_) => {},
            Err(_) => {
                return Err(StoreError::ConnectionError);
            },
        }
        let mut k: usize = 0;
        while k < entities.len()
            invariant
                k <= entities@.len(),
                self.conn is Some,
                self.path == old(self).path,
                self.conn_failed == old(self).conn_failed,
                self.committed_facts == old(self).committed_facts,
                self.committed_resources == old(self).committed_resources,
                self.pending_facts@ == Seq::<FactRowView>::empty(),
                self.pending_resources@ == Seq::<ResourceRowView>::empty(),
                forall|i: int|
                    0 <= i < out@.len() ==> contains_id(entities@, (#[trigger] out@[i])@.entity),
                forall|f: StoreEntityView, j: int|
                    #![trigger self.facts()[j], fact_row_of(f)]
                    0 <= j < self.facts().len() && self.facts()[j] == fact_row_of(f) && (exists|
                        j2: int,
                    |
                        0 <= j2 < k && entities@[j2] == f.entity) && wf_value_view(f.value)
                        ==> exists|i: int| 0 <= i < out@.len() && out@[i]@ == f,
            decreases entities@.len() - k,
        {
            let mut seen = false;
            let mut j: usize = 0;
            while j < k
                invariant
                    j <= k <= entities@.len(),
                    seen ==> exists|i: int| 0 <= i < k && entities@[i] == entities@[k as int],
                decreases k - j,
            {
                if entities[j] == entities[k] {
                    seen = true;
                }
                j = j + 1;
            }
            if !seen {
                let id_text = uuid_to_text(entities[k]);
                let rows = match self.query_fact_rows(&id_text) {
                    Ok(rows) => rows,
                    Err(e) => {
                        let _ = self.rollback_tx();
                        return Err(Self::read_error_of(e));
                    },
                };
                let mut i: usize = 0;
                while i < rows.len()
                    invariant
                        i <= rows@.len(),
                        k < entities@.len(),
                        self.conn is Some,
                        self.path == old(self).path,
                        self.conn_failed == old(self).conn_failed,
                        self.committed_facts == old(self).committed_facts,
                        self.committed_resources == old(self).committed_resources,
                        self.pending_facts@ == Seq::<FactRowView>::empty(),
                        self.pending_resources@ == Seq::<ResourceRowView>::empty(),
                        id_text@ == crate::ids::uuid_text_of(entities@[k as int]),
                        forall|q: int|
                            0 <= q < rows@.len() ==> (#[trigger] rows@[q])@.entity == id_text@,
                        forall|q: int|
                            0 <= q < i ==> exists|w: int|
                                0 <= w < out@.len() && decoded_fact(
                                    out@[w]@,
                                    (#[trigger] rows@[q])@,
                                ),
                        forall|q: int|
                            0 <= q < out@.len() ==> contains_id(
                                entities@,
                                (#[trigger] out@[q])@.entity,
                            ),
                        forall|f: StoreEntityView, j2: int|
                            #![trigger self.facts()[j2], fact_row_of(f)]
                            0 <= j2 < self.facts().len() && self.facts()[j2] == fact_row_of(f) && (
                            exists|j3: int| 0 <= j3 < k && entities@[j3] == f.entity)
                                && wf_value_view(f.value) ==> exists|w: int|
                                0 <= w < out@.len() && out@[w]@ == f,
                    decreases rows@.len() - i,
                {
                    let ghost pre = out@;
                    match decode_fact_row(&rows[i]) {
                        Ok(f) => {
                            proof {
                                assert(f@.entity == entities@[k as int]);
                            }
                            out.push(f);
                            proof {
                                assert forall|q: int| 0 <= q < out@.len() implies contains_id(
                                    entities@,
                                    (#[trigger] out@[q])@.entity,
                                ) by {
                                    if q < pre.len() {
                                        assert(out@[q] == pre[q]);
                                    } else {
                                        assert((out@[q])@.entity == entities@[k as int]);
                                    }
                                }
                                assert forall|q: int| 0 <= q < i + 1 implies exists|w: int|
                                    0 <= w < out@.len() && decoded_fact(
                                        out@[w]@,
                                        (#[trigger] rows@[q])@,
                                    ) by {
                                    if q < i {
                                        let w0 = choose|w0: int|
                                            0 <= w0 < pre.len() && decoded_fact(
                                                pre[w0]@,
                                                rows@[q]@,
                                            );
                                        assert(out@[w0] == pre[w0]);
                                        assert(decoded_fact(out@[w0]@, rows@[q]@));
                                    } else {
                                        assert(out@[pre.len() as int]@ == f@);
                                        assert(decoded_fact(out@[pre.len() as int]@, rows@[q]@));
                                    }
                                }
                                assert forall|f2: StoreEntityView, j2: int|
                                    0 <= j2 < self.facts().len() && #[trigger] self.facts()[j2]
                                        == #[trigger] fact_row_of(f2) && (exists|j3: int|
                                        0 <= j3 < k && entities@[j3] == f2.entity)
                                        && wf_value_view(f2.value) implies exists|w: int|
                                    0 <= w < out@.len() && out@[w]@ == f2 by {
                                    let w0 = choose|w0: int|
                                        0 <= w0 < pre.len() && pre[w0]@ == f2;
                                    assert(out@[w0] == pre[w0]);
                                    assert(out@[w0]@ == f2);
                                }
                            }
                        },
                        Err(_) => {
                            let _ = self.rollback_tx();
                            return Err(StoreError::DecodeError);
                        },
                    }
                    i = i + 1;
                }
                proof {
                    assert forall|f: StoreEntityView, j2: int|
                        0 <= j2 < self.facts().len() && #[trigger] self.facts()[j2]
                            == #[trigger] fact_row_of(f) && (exists|j3: int|
                            0 <= j3 < k + 1 && entities@[j3] == f.entity) && wf_value_view(f.value)
                        implies exists|w: int| 0 <= w < out@.len() && out@[w]@ == f by {
                        let j3 = choose|j3: int| 0 <= j3 < k + 1 && entities@[j3] == f.entity;
                        if j3 < k {
                            assert(exists|j4: int| 0 <= j4 < k && entities@[j4] == f.entity);
                        } else {
                            assert(fact_row_of(f).entity == id_text@);
                            let q = choose|q: int|
                                0 <= q < rows@.len() && rows@[q]@ == self.facts()[j2];
                            let w = choose|w: int|
                                0 <= w < out@.len() && decoded_fact(out@[w]@, rows@[q]@);
                            lemma_decoded_fact_of_encoding(out@[w]@, f);
                        }
                    }
                }
            } else {
                proof {
                    let i0 = choose|i0: int| 0 <= i0 < k && entities@[i0] == entities@[k as int];
                    assert forall|f: StoreEntityView, j2: int|
                        0 <= j2 < self.facts().len() && #[trigger] self.facts()[j2]
                            == #[trigger] fact_row_of(f) && (exists|j3: int|
                            0 <= j3 < k + 1 && entities@[j3] == f.entity) && wf_value_view(f.value)
                        implies exists|w: int| 0 <= w < out@.len() && out@[w]@ == f by {
                        let j3 = choose|j3: int| 0 <= j3 < k + 1 && entities@[j3] == f.entity;
                        if j3 == k {
                            assert(entities@[i0] == f.entity);
                        }
                        assert(exists|j4: int| 0 <= j4 < k && entities@[j4] == f.entity);
                    }
                }
            }
            k = k + 1;
        }
        let _ = self.rollback_tx();
        proof {
            assert(covers_facts(self.facts(), entities@, out@)) by {
                assert forall|f: StoreEntityView, j: int|
                    0 <= j < self.facts().len() && #[trigger] self.facts()[j]
                        == #[trigger] fact_row_of(f) && contains_id(entities@, f.entity)
                        && wf_value_view(f.value) implies exists|i: int|
                    0 <= i < out@.len() && out@[i]@ == f by {
                    assert(exists|j2: int|
                        0 <= j2 < entities@.len() && entities@[j2] == f.entity);
                }
            }
        }
        Ok(out)
    }

    /// Reads every resource whose identifier is one of the given ones,
    /// blobs byte for byte; same contract and read snapshot as the fact
    /// read.
    #[verifier::loop_isolation(false)]
    pub fn read_resources(&mut self, resources: &Vec<u128>) -> (r: Result<
        Vec<StoreResource>,
        StoreError,
    >)
        requires
            old(self).wf(),
        ensures
            final(self).wf(),
            final(self).spec_path() == old(self).spec_path(),
            final(self).facts() == old(self).facts(),
            final(self).resources() == old(self).resources(),
            old(self).ready() ==> final(self).ready(),
            old(self).failed() ==> final(self).failed(),
            resources@.len() == 0 ==> (r matches Ok(v) && v@.len() == 0),
            (old(self).failed() && resources@.len() > 0) ==> r == Err::<
                Vec<StoreResource>,
                StoreError,
            >(StoreError::ConnectionError),
            r matches Ok(v) ==> forall|k: int|
                0 <= k < v@.len() ==> contains_id(resources@, (#[trigger] v@[k])@.resource),
            r matches Ok(v) ==> covers_resources(final(self).resources(), resources@, v@),
            r matches Err(e) ==> (e == StoreError::ConnectionError || e == StoreError::DecodeError),
    {
        let mut out: Vec<StoreResource> = Vec::new();
        if resources.len() == 0 {
            return Ok(out);
        }
        match self.ensure_connection() {
            Ok(_) => {},
            Err(e) => {
                return Err(e);
            },
        }
        match self.begin_read_tx() {
            Ok(_) => {},
            Err(_) => {
                return Err(StoreError::ConnectionError);
            },
        }
        let mut k: usize = 0;
        while k < resources.len()
            invariant
                k <= resources@.len(),
                self.conn is Some,
                self.path == old(self).path,
                self.conn_failed == old(self).conn_failed,
                self.committed_facts == old(self).committed_facts,
                self.committed_resources == old(self).committed_resources,
                self.pending_facts@ == Seq::<FactRowView>::empty(),
                self.pending_resources@ == Seq::<ResourceRowView>::empty(),
                forall|i: int|
                    0 <= i < out@.len() ==> contains_id(
                        resources@,
                        (#[trigger] out@[i])@.resource,
                    ),
                forall|x: StoreResourceView, j: int|
                    #![trigger self.resources()[j], resource_row_of(x)]
                    0 <= j < self.resources().len() && self.resources()[j] == resource_row_of(x)
                        && (exists|j2: int| 0 <= j2 < k && resources@[j2] == x.resource) ==> exists|
                        i: int,
                    |
                        0 <= i < out@.len() && out@[i]@ == x,
            decreases resources@.len() - k,
        {
            let mut seen = false;
            let mut j: usize = 0;
            while j < k
                invariant
                    j <= k <= resources@.len(),
                    seen ==> exists|i: int| 0 <= i < k && resources@[i] == resources@[k as int],
                decreases k - j,
            {
                if resources[j] == resources[k] {
                    seen = true;
                }
                j = j + 1;
            }
            if !seen {
                let id_text = uuid_to_text(resources[k]);
                let rows = match self.query_resource_rows(&id_text) {
                    Ok(rows) => rows,
                    Err(e) => {
                        let _ = self.rollback_tx();
                        return Err(Self::read_error_of(e));
                    },
                };
                let mut i: usize = 0;
                while i < rows.len()
                    invariant
                        i <= rows@.len(),
                        k < resources@.len(),
                        self.conn is Some,
                        self.path == old(self).path,
                        self.conn_failed == old(self).conn_failed,
                        self.committed_facts == old(self).committed_facts,
                        self.committed_resources == old(self).committed_resources,
                        self.pending_facts@ == Seq::<FactRowView>::empty(),
                        self.pending_resources@ == Seq::<ResourceRowView>::empty(),
                        id_text@ == crate::ids::uuid_text_of(resources@[k as int]),
                        forall|q: int|
                            0 <= q < rows@.len() ==> (#[trigger] rows@[q])@.resource == id_text@,
                        forall|q: int|
                            0 <= q < i ==> exists|w: int|
                                0 <= w < out@.len() && decoded_resource(
                                    out@[w]@,
                                    (#[trigger] rows@[q])@,
                                ),
                        forall|q: int|
                            0 <= q < out@.len() ==> contains_id(
                                resources@,
                                (#[trigger] out@[q])@.resource,
                            ),
                        forall|x: StoreResourceView, j2: int|
                            #![trigger self.resources()[j2], resource_row_of(x)]
                            0 <= j2 < self.resources().len() && self.resources()[j2]
                                == resource_row_of(x) && (exists|j3: int|
                                0 <= j3 < k && resources@[j3] == x.resource) ==> exists|w: int|
                                0 <= w < out@.len() && out@[w]@ == x,
                    decreases rows@.len() - i,
                {
                    let ghost pre = out@;
                    match decode_resource_row(&rows[i]) {
                        Ok(x) => {
                            proof {
                                assert(x@.resource == resources@[k as int]);
                            }
                            out.push(x);
                            proof {
                                assert forall|q: int| 0 <= q < out@.len() implies contains_id(
                                    resources@,
                                    (#[trigger] out@[q])@.resource,
                                ) by {
                                    if q < pre.len() {
                                        assert(out@[q] == pre[q]);
                                    } else {
                                        assert((out@[q])@.resource == resources@[k as int]);
                                    }
                                }
                                assert forall|q: int| 0 <= q < i + 1 implies exists|w: int|
                                    0 <= w < out@.len() && decoded_resource(
                                        out@[w]@,
                                        (#[trigger] rows@[q])@,
                                    ) by {
                                    if q < i {
                                        let w0 = choose|w0: int|
                                            0 <= w0 < pre.len() && decoded_resource(
                                                pre[w0]@,
                                                rows@[q]@,
                                            );
                                        assert(out@[w0] == pre[w0]);
                                        assert(decoded_resource(out@[w0]@, rows@[q]@));
                                    } else {
                                        assert(out@[pre.len() as int]@ == x@);
                                        assert(decoded_resource(
                                            out@[pre.len() as int]@,
                                            rows@[q]@,
                                        ));
                                    }
                                }
                                assert forall|x2: StoreResourceView, j2: int|
                                    0 <= j2 < self.resources().len()
                                        && #[trigger] self.resources()[j2]
                                        == #[trigger] resource_row_of(x2) && (exists|j3: int|
                                        0 <= j3 < k && resources@[j3] == x2.resource) implies
                                    exists|w: int| 0 <= w < out@.len() && out@[w]@ == x2 by {
                                    let w0 = choose|w0: int|
                                        0 <= w0 < pre.len() && pre[w0]@ == x2;
                                    assert(out@[w0] == pre[w0]);
                                    assert(out@[w0]@ == x2);
                                }
                            }
                        },
                        Err(_) => {
                            let _ = self.rollback_tx();
                            return Err(StoreError::DecodeError);
                        },
                    }
                    i = i + 1;
                }
                proof {
                    assert forall|x: StoreResourceView, j2: int|
                        0 <= j2 < self.resources().len() && #[trigger] self.resources()[j2]
                            == #[trigger] resource_row_of(x) && (exists|j3: int|
                            0 <= j3 < k + 1 && resources@[j3] == x.resource) implies exists|w: int|
                        0 <= w < out@.len() && out@[w]@ == x by {
                        let j3 = choose|j3: int| 0 <= j3 < k + 1 && resources@[j3] == x.resource;
                        if j3 < k {
                            assert(exists|j4: int| 0 <= j4 < k && resources@[j4] == x.resource);
                        } else {
                            assert(resource_row_of(x).resource == id_text@);
                            let q = choose|q: int|
                                0 <= q < rows@.len() && rows@[q]@ == self.resources()[j2];
                            let w = choose|w: int|
                                0 <= w < out@.len() && decoded_resource(out@[w]@, rows@[q]@);
                            lemma_decoded_resource_of_encoding(out@[w]@, x);
                        }
                    }
                }
            } else {
                proof {
                    let i0 = choose|i0: int| 0 <= i0 < k && resources@[i0] == resources@[k as int];
                    assert forall|x: StoreResourceView, j2: int|
                        0 <= j2 < self.resources().len() && #[trigger] self.resources()[j2]
                            == #[trigger] resource_row_of(x) && (exists|j3: int|
                            0 <= j3 < k + 1 && resources@[j3] == x.resource) implies exists|w: int|
                        0 <= w < out@.len() && out@[w]@ == x by {
                        let j3 = choose|j3: int| 0 <= j3 < k + 1 && resources@[j3] == x.resource;
                        if j3 == k {
                            assert(resources@[i0] == x.resource);
                        }
                        assert(exists|j4: int| 0 <= j4 < k && resources@[j4] == x.resource);
                    }
                }
            }
            k = k + 1;
        }
        let _ = self.rollback_tx();
        proof {
            assert(covers_resources(self.resources(), resources@, out@)) by {
                assert forall|x: StoreResourceView, j: int|
                    0 <= j < self.resources().len() && #[trigger] self.resources()[j]
                        == #[trigger] resource_row_of(x) && contains_id(resources@, x.resource)
                    implies exists|i: int| 0 <= i < out@.len() && out@[i]@ == x by {
                    assert(exists|j2: int|
                        0 <= j2 < resources@.len() && resources@[j2] == x.resource);
                }
            }
        }
        Ok(out)
    }

    /// Resolves the root entity: the entity of the fact with the smallest
    /// timestamp, ties broken by the lexicographically smallest canonical
    /// entity text. Fails with `NotFound` exactly when the fact table is
    /// empty — in particular never while this handle has committed facts.
    /// The choice itself is made by `resolve_root`, which pins it down
    /// exactly for whatever rows the engine returned.
    pub fn root_entity(&mut self) -> (r: Result<u128, StoreError>)
        requires
            old(self).wf(),
        ensures
            final(self).wf(),
            final(self).spec_path() == old(self).spec_path(),
            final(self).facts() == old(self).facts(),
            final(self).resources() == old(self).resources(),
            old(self).ready() ==> final(self).ready(),
            old(self).failed() ==> final(self).failed(),
            old(self).failed() ==> r == Err::<u128, StoreError>(StoreError::ConnectionError),
            r == Err::<u128, StoreError>(StoreError::NotFound) ==> final(self).facts()
                == Seq::<FactRowView>::empty(),
            r matches Err(e) ==> (e == StoreError::NotFound || e == StoreError::ConnectionError
                || e == StoreError::DecodeError),
    {
        match self.ensure_connection() {
            Ok(_) => {},
            Err(e) => {
                return Err(e);
            },
        }
        let rows = match self.query_root_rows() {
            Ok(rows) => rows,
            Err(e) => {
                return Err(Self::read_error_of(e));
            },
        };
        let text = match resolve_root(&rows) {
            Ok(text) => text,
            Err(e) => {
                proof {
                    assert(self.facts() =~= Seq::<FactRowView>::empty());
                }
                return Err(e);
            },
        };
        match uuid_from_text(text.as_str()) {
            Some(n) => Ok(n),
            None => Err(StoreError::DecodeError),
        }
    }
}

} // verus!
