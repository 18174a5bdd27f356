use vstd::prelude::*;
use crate::keymap::{bytes_view, entries_map, keys_increasing, with_prefix, KeyMap};
use crate::keys::{copy_bytes, has_prefix, lex_lt, starts_with};
use crate::lsm::{batch_bytes, batch_view, opt_bytes, stored_value, LsmStorage};
use crate::txn::TransactionManager;
use crate::types::{DbError, Transaction, TransactionState, VersionTimestamp, VersionedRecord};
use crate::versions::{sees, chain_or_empty, committed_chain, newest_visible, store_after_commit, RecordView, VersionStore};

verus! {

/// What a read returns for a stored value: nothing for a tombstone.
pub open spec fn value_read(v: Seq<u8>) -> Option<Seq<u8>> {
    if v.len() > 0 {
        Some(v)
    } else {
        None
    }
}

/// Bounds every version in the store keeps: created at or before the latest
/// commit, by a transaction id already handed out.
pub open spec fn versions_bounded(m: Map<Seq<u8>, Seq<RecordView>>, latest: u64, next_id: u64) -> bool {
    forall|k: Seq<u8>, i: int| #[trigger] m.contains_key(k) && 0 <= i < m[k].len()
        ==> #[trigger] m[k][i].3 <= latest && m[k][i].1 < next_id
}

/// The MVCC engine: transactions over the LSM engine, with a version store
/// that holds each key's chain of versions.
pub struct MvccStorage {
    pub lsm: LsmStorage,
    pub versions: VersionStore,
    pub txm: TransactionManager,
}

impl MvccStorage {
    pub open spec fn wf(&self) -> bool {
        &&& self.lsm.wf()
        &&& self.versions.wf()
        &&& self.txm.wf()
        &&& versions_bounded(self.versions@, self.txm.latest_commit_ts, self.txm.next_tx_id)
    }

    /// Whether a key that `tx` writes got a version after `tx`'s snapshot.
    pub open spec fn conflicts(&self, tx: &Transaction) -> bool {
        exists|k: Seq<u8>| #[trigger] tx.writes_view().contains_key(k)
            && chain_or_empty(self.versions@, k).len() > 0
            && chain_or_empty(self.versions@, k).last().3 > tx.snapshot_ts.0
    }

    /// What `tx` reads for `k`: its own buffered write first; else the newest
    /// version it sees at its snapshot; else nothing.
    pub open spec fn read_for(&self, tx: &Transaction, k: Seq<u8>) -> Option<Seq<u8>> {
        if tx.writes_view().contains_key(k) {
            match tx.writes_view()[k] {
                Some(v) => value_read(v),
                None => None,
            }
        } else {
            match newest_visible(chain_or_empty(self.versions@, k), tx.id.0, tx.snapshot_ts.0) {
                Some(r) => value_read(r.0),
                None => None,
            }
        }
    }

    /// `reader` was begun on state `s`: it reads the latest commit's snapshot
    /// under a fresh id, with nothing buffered.
    pub open spec fn begun_on(s: MvccStorage, reader: Transaction) -> bool {
        &&& reader.wf()
        &&& reader.snapshot_ts.0 == s.txm.latest_commit_ts
        &&& reader.id.0 >= s.txm.next_tx_id
        &&& reader.state == TransactionState::Active
        &&& reader.writes_view() == Map::<Seq<u8>, Option<Seq<u8>>>::empty()
    }

    /// `after` is `before` once `tx` has committed at `ts`.
    pub open spec fn commit_effect(before: MvccStorage, after: MvccStorage, tx: Transaction, ts: u64) -> bool {
        &&& ts > before.txm.latest_commit_ts
        &&& after.txm.latest_commit_ts == ts
        &&& after.txm.next_tx_id == before.txm.next_tx_id
        &&& after.txm.active_view() == before.txm.active_view().remove(tx.id.0)
        &&& after.txm.committed_view() == before.txm.committed_view().insert(tx.id.0, ts)
        &&& after.versions@ == store_after_commit(before.versions@, batch_view(tx.writes@), tx.id.0, ts)
        &&& after.lsm.contents() == before.lsm.contents().union_prefer_right(batch_view(tx.writes@))
    }

    /// The engine over `lsm`, whose live entries become the versions of a
    /// first committed transaction, so that every later snapshot sees them.
    pub fn new(lsm: LsmStorage) -> (r: Self)
        requires
            lsm.wf(),
        ensures
            r.wf(),
            r.lsm == lsm,
            r.txm.next_tx_id == 2,
            Self::loaded_from(r, lsm),
    {
        let r = Self::with_next_transaction_id(lsm, 1);
        r.unwrap()
    }

    /// The engine holds `lsm`'s live entries as the versions of the one
    /// committed transaction, and nothing is active.
    pub open spec fn loaded_from(r: MvccStorage, lsm: LsmStorage) -> bool {
        &&& r.txm.latest_commit_ts > 0
        &&& r.txm.active_view() == Map::<u64, u64>::empty()
        &&& r.txm.committed_view() == Map::<u64, u64>::empty().insert((r.txm.next_tx_id - 1) as u64, r.txm.latest_commit_ts)
        &&& r.versions@ == store_after_commit(
            Map::<Seq<u8>, Seq<RecordView>>::empty(),
            lsm.live(),
            (r.txm.next_tx_id - 1) as u64,
            r.txm.latest_commit_ts,
        )
        &&& forall|reader: Transaction, k: Seq<u8>| Self::begun_on(r, reader) ==> #[trigger] r.read_for(&reader, k)
            == lsm.read(k)
    }

    /// The engine over `lsm` whose transaction ids start at `next_tx_id`
    /// (from 1 when it is 0): the high-water mark kept from before a restart.
    /// The first id loads `lsm`'s live entries as versions. Fails only when
    /// no id is left.
    pub fn with_next_transaction_id(lsm: LsmStorage, next_tx_id: u64) -> (r: Result<Self, DbError>)
        requires
            lsm.wf(),
        ensures
            r is Ok <==> next_tx_id < u64::MAX,
            r matches Err(e) ==> e is Transaction,
            r matches Ok(s) ==> {
                &&& s.wf()
                &&& s.lsm == lsm
                &&& s.txm.next_tx_id == (if next_tx_id == 0 { 1 } else { next_tx_id }) + 1
                &&& Self::loaded_from(s, lsm)
            },
    {
        let mut txm = TransactionManager::with_next_id(next_tx_id);
        let mut tx = match txm.begin_transaction() {
            Ok(t) => t,
            Err(e) => return Err(e),
        };
        let empty: Vec<u8> = Vec::new();
        let entries = lsm.scan(empty.as_slice());
        let ghost ev = entries@;
        let mut i: usize = 0;
        proof {
            assert(ev.take(0) =~= Seq::<(Vec<u8>, Vec<u8>)>::empty());
            assert(tx.writes_view() =~= bytes_view(ev.take(0)).map_values(|v: Seq<u8>| Some(v)));
        }
        while i < entries.len()
            invariant
                i <= ev.len(),
                ev == entries@,
                keys_increasing(ev),
                tx.wf(),
                tx.state == TransactionState::Active,
                txm.wf(),
                txm.is_active(&tx),
                tx.writes_view() == bytes_view(ev.take(i as int)).map_values(|v: Seq<u8>| Some(v)),
            decreases ev.len() - i,
        {
            let ghost before = tx.writes_view();
            proof {
                assert(ev.take(i + 1) =~= ev.take(i as int).push(ev[i as int]));
                crate::keymap::lemma_keys_increasing_take(ev, i + 1);
                crate::keymap::lemma_bytes_view_push(ev.take(i as int), ev[i as int]);
            }
            tx.put(copy_bytes(entries[i].0.as_slice()), copy_bytes(entries[i].1.as_slice()));
            proof {
                assert(tx.writes_view() =~= bytes_view(ev.take(i + 1)).map_values(|v: Seq<u8>| Some(v)));
            }
            i = i + 1;
        }
        let ghost live = lsm.live();
        proof {
            assert(ev.take(i as int) =~= ev);
            assert(empty@ =~= Seq::<u8>::empty());
            assert(bytes_view(ev) =~= live) by {
                assert forall|k: Seq<u8>| has_prefix(k, Seq::<u8>::empty()) by {
                    assert(k.subrange(0, 0) =~= Seq::<u8>::empty());
                }
            }
            assert(batch_view(tx.writes@) =~= live) by {
                assert forall|k: Seq<u8>| #[trigger] batch_view(tx.writes@).contains_key(k) implies batch_view(tx.writes@)[k]
                    == live[k] by {
                    assert(tx.writes_view().contains_key(k));
                    assert(tx.writes_view()[k] == Some(live[k]));
                }
                assert forall|k: Seq<u8>| #[trigger] live.contains_key(k) implies batch_view(tx.writes@).contains_key(k) by {
                    assert(tx.writes_view().contains_key(k));
                }
            }
        }
        let ts = txm.next_commit_ts().unwrap();
        let mut versions = VersionStore::new();
        versions.commit_writes(&tx.writes, tx.id.0, ts.0);
        let ghost id = tx.id.0;
        let res = txm.commit_at(&mut tx, ts);
        proof {
            assert(res is Ok);
        }
        let r = MvccStorage { lsm, versions, txm };
        proof {
            let m = r.versions@;
            assert(id == r.txm.next_tx_id - 1);
            assert forall|k: Seq<u8>, j: int| #[trigger] m.contains_key(k) && 0 <= j < m[k].len()
                implies #[trigger] m[k][j].3 <= r.txm.latest_commit_ts && m[k][j].1 < r.txm.next_tx_id by {
                assert(live.contains_key(k));
                assert(m[k] == committed_chain(Seq::<RecordView>::empty(), live[k], id, ts.0));
            }
            assert(r.txm.active_view() =~= Map::<u64, u64>::empty());
            assert(r.txm.committed_view() =~= Map::<u64, u64>::empty().insert(id, ts.0));
            assert forall|reader: Transaction, k: Seq<u8>| Self::begun_on(r, reader) implies #[trigger] r.read_for(&reader, k)
                == lsm.read(k) by {
                assert(!reader.writes_view().contains_key(k));
                if live.contains_key(k) {
                    let c = committed_chain(Seq::<RecordView>::empty(), live[k], id, ts.0);
                    assert(chain_or_empty(m, k) == c);
                    assert(c.last() == (live[k], id, 0u64, ts.0, 0u64));
                    assert(sees(c.last(), reader.id.0, reader.snapshot_ts.0));
                } else {
                    assert(chain_or_empty(m, k) =~= Seq::<RecordView>::empty());
                }
            }
        }
        Ok(r)
    }

    /// Whether committing `tx` now would succeed: it is active, lost no
    /// write-write race, a commit timestamp is left, and its writes fit the
    /// memtable's byte count.
    pub fn can_commit(&self, tx: &Transaction) -> (r: bool)
        requires
            self.wf(),
            tx.wf(),
        ensures
            r == (self.txm.is_active(tx) && !self.conflicts(tx) && self.txm.latest_commit_ts < u64::MAX
                && self.lsm.memtable.size + batch_bytes(tx.writes.entries@) <= u64::MAX),
    {
        self.txm.is_active_transaction(tx) && !self.find_conflict(tx) && self.txm.latest_commit_ts < u64::MAX
            && self.lsm.batch_fits(&tx.writes)
    }

    /// Starts a transaction on the latest committed snapshot.
    pub fn begin_transaction(&mut self) -> (r: Result<Transaction, DbError>)
        requires
            old(self).wf(),
        ensures
            final(self).wf(),
            r is Ok <==> old(self).txm.next_tx_id < u64::MAX,
            r is Err ==> *final(self) == *old(self),
            r matches Ok(tx) ==> {
                &&& Self::begun_on(*old(self), tx)
                &&& final(self).txm.is_active(&tx)
                &&& final(self).lsm == old(self).lsm
                &&& final(self).versions == old(self).versions
                &&& final(self).txm.latest_commit_ts == old(self).txm.latest_commit_ts
                &&& final(self).txm.committed_view() == old(self).txm.committed_view()
                &&& final(self).txm.active_view() == old(self).txm.active_view().insert(tx.id.0, tx.snapshot_ts.0)
                &&& final(self).txm.next_tx_id == old(self).txm.next_tx_id + 1
            },
    {
        let r = self.txm.begin_transaction();
        proof {
            if r is Ok {
                let tx = r->Ok_0;
                assert(self.txm.active_view().contains_key(tx.id.0));
            }
        }
        r
    }

    /// What `tx` reads for `key`.
    pub fn get_for_transaction(&self, key: &[u8], tx: &Transaction) -> (r: Option<Vec<u8>>)
        requires
            self.wf(),
            tx.wf(),
        ensures
            opt_bytes(r) == self.read_for(tx, key@),
    {
        match tx.writes.get(key) {
            Some(w) => {
                return match w {
                    Some(v) => {
                        if v.len() > 0 {
                            Some(crate::keys::copy_bytes(v.as_slice()))
                        } else {
                            None
                        }
                    },
                    None => None,
                };
            },
            None => {},
        }
        match self.versions.visible(key, tx.id, tx.snapshot_ts) {
            Some(rec) => {
                if rec.value.len() > 0 {
                    Some(crate::keys::copy_bytes(rec.value.as_slice()))
                } else {
                    None
                }
            },
            None => None,
        }
    }

    /// The newest version of `key` that `tx` sees, if any.
    pub fn get_version(&self, key: &[u8], tx: &Transaction) -> (r: Option<VersionedRecord>)
        requires
            self.wf(),
        ensures
            r is Some <==> newest_visible(chain_or_empty(self.versions@, key@), tx.id.0, tx.snapshot_ts.0) is Some,
            r matches Some(x) ==> newest_visible(chain_or_empty(self.versions@, key@), tx.id.0, tx.snapshot_ts.0)
                == Some(crate::versions::record_view(x)),
    {
        match self.versions.visible(key, tx.id, tx.snapshot_ts) {
            Some(rec) => Some(rec.duplicate()),
            None => None,
        }
    }

    /// Finds whether a key that `tx` writes got a version after its snapshot.
    pub fn find_conflict(&self, tx: &Transaction) -> (r: bool)
        requires
            self.wf(),
            tx.wf(),
        ensures
            r == self.conflicts(tx),
    {
        let s = &tx.writes.entries;
        let mut i: usize = 0;
        while i < s.len()
            invariant
                self.wf(),
                tx.wf(),
                s == &tx.writes.entries,
                i <= s@.len(),
                forall|j: int| 0 <= j < i ==> !(chain_or_empty(self.versions@, #[trigger] s@[j].0@).len() > 0
                    && chain_or_empty(self.versions@, s@[j].0@).last().3 > tx.snapshot_ts.0),
            decreases s@.len() - i,
        {
            if self.versions.written_after(s[i].0.as_slice(), tx.snapshot_ts.0) {
                proof {
                    tx.writes.lemma_view_at(i as int);
                    assert(tx.writes_view().contains_key(s@[i as int].0@));
                }
                return true;
            }
            i = i + 1;
        }
        proof {
            assert forall|k: Seq<u8>| #[trigger] tx.writes_view().contains_key(k) implies !(chain_or_empty(
                self.versions@,
                k,
            ).len() > 0 && chain_or_empty(self.versions@, k).last().3 > tx.snapshot_ts.0) by {
                let j = crate::keymap::key_index(s@, k);
                assert(s@[j].0@ == k);
            }
        }
        false
    }

    /// Commits `tx` under snapshot isolation, first committer wins. A
    /// transaction that is not active is refused with nothing changed. One
    /// that lost a write-write race is rolled back and fails with a conflict.
    /// Otherwise every buffered write becomes a new version at a fresh commit
    /// timestamp and is applied to the LSM engine.
    pub fn commit_transaction(&mut self, tx: &mut Transaction) -> (r: Result<(), DbError>)
        requires
            old(self).wf(),
            old(tx).wf(),
        ensures
            final(self).wf(),
            final(tx).wf(),
            !old(self).txm.is_active(&*old(tx)) ==> r == Err::<(), DbError>(DbError::Transaction(r->Err_0->Transaction_0))
                && *final(self) == *old(self) && *final(tx) == *old(tx),
            old(self).txm.is_active(&*old(tx)) && old(self).conflicts(&*old(tx)) ==> r == Err::<(), DbError>(
                DbError::TransactionConflict(r->Err_0->TransactionConflict_0)),
            old(self).txm.is_active(&*old(tx)) && !old(self).conflicts(&*old(tx))
                && old(self).txm.latest_commit_ts < u64::MAX
                && old(self).lsm.memtable.size + batch_bytes(old(tx).writes.entries@) <= u64::MAX ==> r is Ok,
            r is Ok ==> Self::commit_effect(*old(self), *final(self), *old(tx), final(self).txm.latest_commit_ts),
            r is Ok ==> old(self).txm.is_active(&*old(tx)) && !old(self).conflicts(&*old(tx))
                && old(self).txm.latest_commit_ts < u64::MAX
                && old(self).lsm.memtable.size + batch_bytes(old(tx).writes.entries@) <= u64::MAX,
            r is Ok ==> final(tx).state == TransactionState::Committed,
            r is Err ==> final(self).versions == old(self).versions && final(self).lsm == old(self).lsm,
            r is Err && old(self).txm.is_active(&*old(tx)) ==> final(tx).state == TransactionState::Aborted
                && final(self).txm.active_view() == old(self).txm.active_view().remove(old(tx).id.0)
                && final(self).txm.committed_view() == old(self).txm.committed_view(),
            final(tx).id == old(tx).id && final(tx).writes == old(tx).writes,
    {
        if !self.txm.is_active_transaction(tx) {
            return Err(DbError::Transaction("transaction not active".to_string()));
        }
        if self.find_conflict(tx) {
            let _ = self.txm.rollback_transaction(tx);
            return Err(DbError::TransactionConflict("a newer version was committed after the snapshot".to_string()));
        }
        let ts = match self.txm.next_commit_ts() {
            Some(t) => t,
            None => {
                let _ = self.txm.rollback_transaction(tx);
                return Err(DbError::Transaction("commit timestamps exhausted".to_string()));
            },
        };
        match self.lsm.apply_batch(&tx.writes) {
            Ok(()) => {},
            Err(e) => {
                let _ = self.txm.rollback_transaction(tx);
                return Err(e);
            },
        }
        proof {
            assert forall|k: Seq<u8>, i: int| #[trigger] self.versions@.contains_key(k) && 0 <= i < self.versions@[k].len()
                implies #[trigger] self.versions@[k][i].3 < ts.0 by {}
            let id = tx.id.0;
            assert(self.txm.active_view().contains_key(id));
            let j = crate::txn::id_index(self.txm.active@, id);
            assert(0 < self.txm.active@[j].0 < self.txm.next_tx_id);
        }
        let ghost old_versions = self.versions@;
        self.versions.commit_writes(&tx.writes, tx.id.0, ts.0);
        let res = self.txm.commit_at(tx, ts);
        proof {
            assert(res is Ok);
            let w = batch_view(old(tx).writes@);
            assert forall|k: Seq<u8>, i: int| #[trigger] self.versions@.contains_key(k) && 0 <= i < self.versions@[k].len()
                implies #[trigger] self.versions@[k][i].3 <= self.txm.latest_commit_ts && self.versions@[k][i].1 < self.txm.next_tx_id by {
                if w.contains_key(k) {
                    let c = chain_or_empty(old_versions, k);
                    assert(self.versions@[k] == committed_chain(c, w[k], old(tx).id.0, ts.0));
                    if i < c.len() {
                        assert(old_versions.contains_key(k));
                        assert(c[i].3 <= old(self).txm.latest_commit_ts);
                    }
                } else {
                    assert(old_versions.contains_key(k));
                    assert(self.versions@[k] == old_versions[k]);
                    assert(old_versions[k][i].3 <= old(self).txm.latest_commit_ts);
                }
            }
        }
        Ok(())
    }

    /// Ends `tx` without applying any of its writes.
    pub fn rollback_transaction(&mut self, tx: &mut Transaction) -> (r: Result<(), DbError>)
        requires
            old(self).wf(),
            old(tx).wf(),
        ensures
            final(self).wf(),
            final(tx).wf(),
            r is Ok <==> old(self).txm.is_active(&*old(tx)),
            final(self).versions == old(self).versions,
            final(self).lsm == old(self).lsm,
            r is Ok ==> final(tx).state == TransactionState::Aborted,
            r is Err ==> *final(self) == *old(self) && *final(tx) == *old(tx),
    {
        self.txm.rollback_transaction(tx)
    }

    /// Writes `value` under `key` outside any explicit transaction: as a
    /// transaction of this one write, begun and committed at once, so that
    /// the write becomes a version and every snapshot taken before it keeps
    /// not seeing it. An empty value deletes the key.
    pub fn put(&mut self, key: &[u8], value: &[u8]) -> (r: Result<(), DbError>)
        requires
            old(self).wf(),
        ensures
            final(self).wf(),
            r is Ok <==> old(self).txm.next_tx_id < u64::MAX && old(self).txm.latest_commit_ts < u64::MAX
                && old(self).lsm.memtable.can_insert(key@, value@),
            r is Err ==> final(self).lsm == old(self).lsm && final(self).versions == old(self).versions,
            r is Ok ==> {
                &&& final(self).lsm.contents() == old(self).lsm.contents().insert(key@, value@)
                &&& final(self).txm.latest_commit_ts > old(self).txm.latest_commit_ts
                &&& final(self).txm.active_view() == old(self).txm.active_view()
                &&& final(self).versions@ == store_after_commit(
                    old(self).versions@,
                    Map::<Seq<u8>, Seq<u8>>::empty().insert(key@, value@),
                    old(self).txm.next_tx_id,
                    final(self).txm.latest_commit_ts,
                )
                &&& forall|reader: Transaction| Self::begun_on(*final(self), reader)
                    ==> #[trigger] final(self).read_for(&reader, key@) == value_read(value@)
            },
    {
        let mut tx = match self.begin_transaction() {
            Ok(t) => t,
            Err(e) => return Err(e),
        };
        let ghost id = tx.id.0;
        let ghost mid = *self;
        tx.put(copy_bytes(key), copy_bytes(value));
        proof {
            assert(tx.writes_view() =~= Map::<Seq<u8>, Option<Seq<u8>>>::empty().insert(key@, Some(value@)));
            tx.writes.lemma_dom_len();
            assert(tx.writes@.dom() =~= set![key@]);
            assert(tx.writes.entries@.len() == 1);
            tx.writes.lemma_view_at(0);
            let e = tx.writes.entries@[0];
            assert(e.0@ == key@);
            assert(tx.writes_view()[key@] == Some(value@));
            assert(stored_value(e.1) == value@);
            assert(tx.writes.entries@.drop_last() =~= Seq::<(Vec<u8>, Option<Vec<u8>>)>::empty());
            assert(tx.writes.entries@.last() == e);
            assert(batch_bytes(Seq::<(Vec<u8>, Option<Vec<u8>>)>::empty()) == 0);
            assert(batch_bytes(tx.writes.entries@) == key@.len() + value@.len());
            assert(batch_view(tx.writes@) =~= Map::<Seq<u8>, Seq<u8>>::empty().insert(key@, value@));
            assert(!self.conflicts(&tx)) by {
                if self.conflicts(&tx) {
                    let k = choose|k: Seq<u8>| #[trigger] tx.writes_view().contains_key(k)
                        && chain_or_empty(self.versions@, k).len() > 0
                        && chain_or_empty(self.versions@, k).last().3 > tx.snapshot_ts.0;
                    let c = chain_or_empty(self.versions@, k);
                    assert(self.versions@.contains_key(k));
                    assert(c[c.len() - 1].3 <= self.txm.latest_commit_ts);
                }
            }
        }
        let ghost wtx = tx;
        let r = self.commit_transaction(&mut tx);
        proof {
            if r is Ok {
                assert(Self::commit_effect(mid, *self, wtx, self.txm.latest_commit_ts));
                assert forall|reader: Transaction| Self::begun_on(*self, reader)
                    implies #[trigger] self.read_for(&reader, key@) == value_read(value@) by {
                    crate::laws::law_commit_visible(mid, *self, wtx, self.txm.latest_commit_ts, reader, key@);
                }
                assert(self.lsm.contents() =~= old(self).lsm.contents().insert(key@, value@));
            }
        }
        r
    }

    /// Deletes `key` outside any explicit transaction: `put` of a tombstone.
    pub fn delete(&mut self, key: &[u8]) -> (r: Result<(), DbError>)
        requires
            old(self).wf(),
        ensures
            final(self).wf(),
            r is Ok <==> old(self).txm.next_tx_id < u64::MAX && old(self).txm.latest_commit_ts < u64::MAX
                && old(self).lsm.memtable.can_insert(key@, Seq::empty()),
            r is Err ==> final(self).lsm == old(self).lsm && final(self).versions == old(self).versions,
            r is Ok ==> final(self).lsm.contents() == old(self).lsm.contents().insert(key@, Seq::empty())
                && forall|reader: Transaction| Self::begun_on(*final(self), reader)
                    ==> #[trigger] final(self).read_for(&reader, key@) is None,
    {
        let empty: Vec<u8> = Vec::new();
        assert(empty@ =~= Seq::<u8>::empty());
        self.put(key, empty.as_slice())
    }

    /// Whether `put(key, value)` would succeed now.
    pub fn can_put(&self, key: &[u8], value: &[u8]) -> (r: bool)
        ensures
            r == (self.txm.next_tx_id < u64::MAX && self.txm.latest_commit_ts < u64::MAX
                && self.lsm.memtable.can_insert(key@, value@)),
    {
        self.txm.next_tx_id < u64::MAX && self.txm.latest_commit_ts < u64::MAX && self.lsm.memtable.has_room_for(key, value)
    }

    /// Reads outside any transaction, from the LSM engine.
    pub fn get(&self, key: &[u8]) -> (r: Option<Vec<u8>>)
        requires
            self.wf(),
        ensures
            opt_bytes(r) == self.lsm.read(key@),
    {
        self.lsm.get(key)
    }

    /// The oldest snapshot any active transaction reads, if one is active.
    pub fn get_oldest_snapshot_timestamp(&self) -> (r: Option<VersionTimestamp>)
        requires
            self.wf(),
        ensures
            r is None <==> self.txm.active_view().dom() == Set::<u64>::empty(),
            r matches Some(t) ==> (exists|id: u64| #[trigger] self.txm.active_view().contains_key(id)
                && self.txm.active_view()[id] == t.0),
            r matches Some(t) ==> forall|id: u64| #[trigger] self.txm.active_view().contains_key(id)
                ==> t.0 <= self.txm.active_view()[id],
    {
        self.txm.oldest_active_snapshot_ts()
    }
}

} // verus!

verus! {

/// Adds to `acc` (with empty values) every key of `entries` that starts
/// with `prefix`.
pub fn collect_prefixed_keys<V>(acc: &mut KeyMap<Vec<u8>>, entries: &Vec<(Vec<u8>, V)>, prefix: &[u8])
    requires
        old(acc).wf(),
        keys_increasing(entries@),
    ensures
        final(acc).wf(),
        forall|k: Seq<u8>| #[trigger] final(acc)@.contains_key(k) <==> old(acc)@.contains_key(k)
            || (entries_map(entries@).contains_key(k) && has_prefix(k, prefix@)),
{
    let mut j: usize = 0;
    while j < entries.len()
        invariant
            acc.wf(),
            j <= entries@.len(),
            keys_increasing(entries@),
            forall|k: Seq<u8>| #[trigger] acc@.contains_key(k) <==> old(acc)@.contains_key(k)
                || (exists|i: int| 0 <= i < j && #[trigger] entries@[i].0@ == k && has_prefix(k, prefix@)),
        decreases entries@.len() - j,
    {
        if starts_with(entries[j].0.as_slice(), prefix) {
            let ghost kj = entries@[j as int].0@;
            acc.insert(copy_bytes(entries[j].0.as_slice()), Vec::new());
            assert forall|k: Seq<u8>| #[trigger] acc@.contains_key(k) <==> old(acc)@.contains_key(k)
                || (exists|i: int| 0 <= i < j + 1 && #[trigger] entries@[i].0@ == k && has_prefix(k, prefix@)) by {
                if k == kj {
                    assert(entries@[j as int].0@ == k);
                }
            }
        } else {
            assert forall|k: Seq<u8>| #[trigger] acc@.contains_key(k) <==> old(acc)@.contains_key(k)
                || (exists|i: int| 0 <= i < j + 1 && #[trigger] entries@[i].0@ == k && has_prefix(k, prefix@)) by {
                if exists|i: int| 0 <= i < j + 1 && #[trigger] entries@[i].0@ == k && has_prefix(k, prefix@) {
                    let i = choose|i: int| 0 <= i < j + 1 && #[trigger] entries@[i].0@ == k && has_prefix(k, prefix@);
                    assert(i != j);
                }
            }
        }
        j = j + 1;
    }
}

impl MvccStorage {
    /// What `tx` reads under `prefix`: every key starting with it that `tx`
    /// reads a value for.
    pub open spec fn scan_view_for(&self, tx: &Transaction, prefix: Seq<u8>) -> Map<Seq<u8>, Seq<u8>> {
        Map::new(
            |k: Seq<u8>| has_prefix(k, prefix) && self.read_for(tx, k) is Some,
            |k: Seq<u8>| self.read_for(tx, k)->Some_0,
        )
    }

    /// One entry per key starting with `prefix` that `tx` reads a value
    /// for, in key order, with that value.
    pub fn scan_for_transaction(&self, prefix: &[u8], tx: &Transaction) -> (r: Vec<(Vec<u8>, Vec<u8>)>)
        requires
            self.wf(),
            tx.wf(),
        ensures
            keys_increasing(r@),
            bytes_view(r@) == self.scan_view_for(tx, prefix@),
    {
        let mut acc: KeyMap<Vec<u8>> = KeyMap::new();
        let ghost a0 = acc@;
        collect_prefixed_keys(&mut acc, &tx.writes.entries, prefix);
        let ghost a1 = acc@;
        collect_prefixed_keys(&mut acc, &self.versions.chains.entries, prefix);
        proof {
            assert forall|k: Seq<u8>| #[trigger] acc@.contains_key(k) implies has_prefix(k, prefix@) by {
                if !has_prefix(k, prefix@) {
                    assert(a1.contains_key(k));
                    assert(a0.contains_key(k));
                }
            }
        }
        let ghost target = self.scan_view_for(tx, prefix@);
        proof {
            assert forall|k: Seq<u8>| #[trigger] target.contains_key(k) implies acc@.contains_key(k) by {
                if tx.writes_view().contains_key(k) {
                    assert(tx.writes@.contains_key(k));
                } else {
                    assert(chain_or_empty(self.versions@, k).len() > 0);
                    assert(self.versions.chains@.contains_key(k));
                }
            }
        }
        let s = &acc.entries;
        let mut out: Vec<(Vec<u8>, Vec<u8>)> = Vec::new();
        let mut i: usize = 0;
        proof {
            assert forall|k: Seq<u8>| #[trigger] entries_map(s@).contains_key(k) implies has_prefix(k, prefix@) by {
                assert(acc@.contains_key(k));
            }
            assert(bytes_view(out@) =~= target.restrict(entries_map(s@.take(0)).dom()));
        }
        while i < s.len()
            invariant
                self.wf(),
                tx.wf(),
                target == self.scan_view_for(tx, prefix@),
                s == &acc.entries,
                i <= s@.len(),
                keys_increasing(s@),
                keys_increasing(out@),
                forall|k: Seq<u8>| #[trigger] target.contains_key(k) ==> entries_map(s@).contains_key(k),
                forall|a: int, b: int| 0 <= a < out@.len() && i <= b < s@.len() ==> lex_lt(#[trigger] out@[a].0@, #[trigger] s@[b].0@),
                bytes_view(out@) == target.restrict(entries_map(s@.take(i as int)).dom()),
                forall|k: Seq<u8>| #[trigger] entries_map(s@).contains_key(k) ==> has_prefix(k, prefix@),
            decreases s@.len() - i,
        {
            let ghost before = out@;
            let ghost k = s@[i as int].0@;
            proof {
                assert(s@.take(i + 1) =~= s@.take(i as int).push(s@[i as int]));
                crate::keymap::lemma_keys_increasing_take(s@, i + 1);
                crate::keymap::lemma_entries_map_push(s@.take(i as int), s@[i as int]);
                crate::keymap::lemma_entries_map_at(s@, i as int);
            }
            match self.get_for_transaction(s[i].0.as_slice(), tx) {
                Some(v) => {
                    let key = copy_bytes(s[i].0.as_slice());
                    let ghost x = (key, v);
                    out.push((key, v));
                    proof {
                        assert(out@ == before.push(x));
                        assert(keys_increasing(out@)) by {
                            assert forall|a: int, b: int| 0 <= a < b < out@.len() implies lex_lt(#[trigger] out@[a].0@, #[trigger] out@[b].0@) by {
                                if b == before.len() {
                                    assert(out@[a] == before[a]);
                                } else {
                                    assert(out@[a] == before[a] && out@[b] == before[b]);
                                }
                            }
                        }
                        crate::keymap::lemma_bytes_view_push(before, x);
                        assert forall|a: int, b: int| 0 <= a < out@.len() && i + 1 <= b < s@.len() implies lex_lt(#[trigger] out@[a].0@, #[trigger] s@[b].0@) by {
                            if a < before.len() {
                                assert(out@[a] == before[a]);
                            }
                        }
                        assert(target.contains_key(k));
                        assert(bytes_view(out@) =~= target.restrict(entries_map(s@.take(i + 1)).dom()));
                    }
                },
                None => {
                    proof {
                        assert(!target.contains_key(k));
                        assert(bytes_view(out@) =~= target.restrict(entries_map(s@.take(i + 1)).dom()));
                    }
                },
            }
            i = i + 1;
        }
        proof {
            assert(s@.take(i as int) =~= s@);
            assert(bytes_view(out@) =~= target);
        }
        out
    }
}

} // verus!
