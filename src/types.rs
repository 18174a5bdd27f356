use vstd::prelude::*;
use crate::keymap::KeyMap;

verus! {

/// Errors reported by the engine.
#[derive(Debug, Clone, PartialEq, Eq)]
pub enum DbError {
    Storage(String),
    Query(String),
    Schema(String),
    Serialization(String),
    TransactionConflict(String),
    Transaction(String),
    Deadlock(String),
    Compaction(String),
    GarbageCollection(String),
}

/// A transaction identifier; 0 stands for "no transaction".
#[derive(Debug, Clone, Copy, PartialEq, Eq, Structural, Hash)]
pub struct TransactionId(pub u64);

impl TransactionId {
    /// Wraps `id`. Fresh ids, nonzero and increasing, are handed out by
    /// `TransactionManager::begin_transaction`.
    pub fn new(id: u64) -> (r: Self)
        ensures
            r.0 == id,
    {
        TransactionId(id)
    }

    pub fn as_u64(&self) -> (r: u64)
        ensures
            r == self.0,
    {
        self.0
    }
}

/// A point in time, in microseconds; 0 stands for "never".
#[derive(Debug, Clone, Copy, PartialEq, Eq, Structural, PartialOrd, Ord, Hash)]
pub struct VersionTimestamp(pub u64);

/// Relies on std::time::SystemTime::elapsed, read from the Unix epoch: the
/// microseconds since then, or 0 when the clock reads earlier than the epoch.
/// Nothing is assumed of the value.
#[verifier::external_body]
fn clock_micros() -> (r: u64) {
    match std::time::UNIX_EPOCH.elapsed() {
        Ok(d) => d.as_micros() as u64,
        Err(_) => 0,
    }
}

impl VersionTimestamp {
    /// The current wall-clock time. Nothing is promised of it: the clock may
    /// go backwards, so it is not monotonic. Monotonic stamps come from
    /// `TransactionManager::next_commit_ts` and from the run stamps of
    /// `LsmStorage` (`last_run_ts`).
    pub fn now() -> (r: Self) {
        VersionTimestamp(clock_micros())
    }

    pub fn from_u64(t: u64) -> (r: Self)
        ensures
            r.0 == t,
    {
        VersionTimestamp(t)
    }

    pub fn as_u64(&self) -> (r: u64)
        ensures
            r == self.0,
    {
        self.0
    }
}

#[derive(Debug, Clone, Copy, PartialEq, Eq, Structural)]
pub enum TransactionState {
    Active,
    Committed,
    Aborted,
}

/// One version of a key's value, with the transactions and times that created
/// and expired it. An empty value is a tombstone.
#[derive(Debug, Clone)]
pub struct VersionedRecord {
    pub value: Vec<u8>,
    pub created_tx: TransactionId,
    pub expired_tx: TransactionId,
    pub created_ts: VersionTimestamp,
    pub expired_ts: VersionTimestamp,
}

/// The visibility rule of a version under a transaction id and a snapshot time.
pub open spec fn visible_at(r: VersionedRecord, tx: u64, snapshot: u64) -> bool {
    &&& r.created_ts.0 <= snapshot
    &&& (r.expired_tx.0 == 0 || r.expired_ts.0 > snapshot)
    &&& r.created_tx.0 != tx
}

impl VersionedRecord {
    /// A live version of `value` created by `tx_id` now.
    pub fn new(value: Vec<u8>, tx_id: TransactionId) -> (r: Self)
        ensures
            r.value@ == value@,
            r.created_tx == tx_id,
            r.expired_tx.0 == 0,
            r.expired_ts.0 == 0,
    {
        let now = VersionTimestamp::now();
        VersionedRecord {
            value,
            created_tx: tx_id,
            expired_tx: TransactionId(0),
            created_ts: now,
            expired_ts: VersionTimestamp(0),
        }
    }

    /// A copy of this version.
    pub fn duplicate(&self) -> (r: Self)
        ensures
            r.value@ == self.value@,
            r.created_tx == self.created_tx,
            r.expired_tx == self.expired_tx,
            r.created_ts == self.created_ts,
            r.expired_ts == self.expired_ts,
    {
        VersionedRecord {
            value: crate::keys::copy_bytes(self.value.as_slice()),
            created_tx: self.created_tx,
            expired_tx: self.expired_tx,
            created_ts: self.created_ts,
            expired_ts: self.expired_ts,
        }
    }

    pub fn is_visible(&self, tx_id: TransactionId, snapshot_ts: VersionTimestamp) -> (r: bool)
        ensures
            r == visible_at(*self, tx_id.0, snapshot_ts.0),
    {
        self.created_ts.0 <= snapshot_ts.0 && (self.expired_tx.0 == 0 || self.expired_ts.0
            > snapshot_ts.0) && self.created_tx.0 != tx_id.0
    }

    /// Stamps this version as expired by `tx_id` at time `ts`, which is not
    /// before the version was created.
    pub fn mark_expired(&mut self, tx_id: TransactionId, ts: VersionTimestamp)
        requires
            ts.0 >= old(self).created_ts.0,
        ensures
            final(self).expired_ts.0 >= final(self).created_ts.0,
            final(self).expired_tx == tx_id,
            final(self).expired_ts == ts,
            final(self).value == old(self).value,
            final(self).created_tx == old(self).created_tx,
            final(self).created_ts == old(self).created_ts,
    {
        self.expired_tx = tx_id;
        self.expired_ts = ts;
    }
}

/// A transaction: its id, the snapshot it reads, its state, and its buffered
/// writes (`Some(value)` to put, `None` to delete).
pub struct Transaction {
    pub id: TransactionId,
    pub snapshot_ts: VersionTimestamp,
    pub state: TransactionState,
    pub writes: KeyMap<Option<Vec<u8>>>,
}

/// The view of a buffered write.
pub open spec fn write_view(w: Option<Vec<u8>>) -> Option<Seq<u8>> {
    match w {
        Some(v) => Some(v@),
        None => None,
    }
}

impl Transaction {
    pub open spec fn wf(&self) -> bool {
        self.writes.wf()
    }

    /// Buffered writes, key to `Some(value)` or `None` for a delete.
    pub open spec fn writes_view(&self) -> Map<Seq<u8>, Option<Seq<u8>>> {
        self.writes@.map_values(|w: Option<Vec<u8>>| write_view(w))
    }

    pub fn new(id: TransactionId, snapshot_ts: VersionTimestamp) -> (r: Self)
        ensures
            r.wf(),
            r.id == id,
            r.snapshot_ts == snapshot_ts,
            r.state == TransactionState::Active,
            r.writes_view() == Map::<Seq<u8>, Option<Seq<u8>>>::empty(),
    {
        let r = Transaction { id, snapshot_ts, state: TransactionState::Active, writes: KeyMap::new() };
        assert(r.writes_view() =~= Map::<Seq<u8>, Option<Seq<u8>>>::empty());
        r
    }

    /// Buffers a write of `value` to `key`.
    pub fn put(&mut self, key: Vec<u8>, value: Vec<u8>)
        requires
            old(self).wf(),
        ensures
            final(self).wf(),
            final(self).writes_view() == old(self).writes_view().insert(key@, Some(value@)),
            final(self).id == old(self).id,
            final(self).snapshot_ts == old(self).snapshot_ts,
            final(self).state == old(self).state,
    {
        let ghost kv = key@;
        let ghost vv = value@;
        self.writes.insert(key, Some(value));
        assert(self.writes_view() =~= old(self).writes_view().insert(kv, Some(vv)));
    }

    /// Buffers a delete of `key`.
    pub fn delete(&mut self, key: Vec<u8>)
        requires
            old(self).wf(),
        ensures
            final(self).wf(),
            final(self).writes_view() == old(self).writes_view().insert(key@, None),
            final(self).id == old(self).id,
            final(self).snapshot_ts == old(self).snapshot_ts,
            final(self).state == old(self).state,
    {
        let ghost kv = key@;
        self.writes.insert(key, None);
        assert(self.writes_view() =~= old(self).writes_view().insert(kv, None));
    }
}

} // verus!
