use vstd::prelude::*;
use crate::keymap::{bytes_view, keys_increasing, lemma_entries_map_push, lemma_keys_increasing_take, with_prefix, KeyMap};
use crate::memtable::{MemTable, DEFAULT_FLUSH_THRESHOLD};
use crate::sstable::{absorb_prefixed, drop_tombstones, in_read_order, live_only, runs_from, RunCatalog, SSTable};
use crate::types::{DbError, VersionTimestamp};
use crate::codec::{is_full_replay, lemma_replayed_unique, log_bytes, log_prefix_of, replay_wal_with_end, replayed, wal_views, WalEntryView, WalRecord};

verus! {

/// What a read of `k` returns against the contents `m`: its value, unless the
/// key is absent or holds a tombstone.
pub open spec fn read_of(m: Map<Seq<u8>, Seq<u8>>, k: Seq<u8>) -> Option<Seq<u8>> {
    if m.contains_key(k) && m[k].len() > 0 {
        Some(m[k])
    } else {
        None
    }
}

/// The view of an optional byte vector.
pub open spec fn opt_bytes(o: Option<Vec<u8>>) -> Option<Seq<u8>> {
    match o {
        Some(v) => Some(v@),
        None => None,
    }
}

/// What a buffered write stores: the value, or a tombstone for a delete.
pub open spec fn stored_value(w: Option<Vec<u8>>) -> Seq<u8> {
    match w {
        Some(v) => v@,
        None => Seq::empty(),
    }
}

/// The stored values of a batch of buffered writes.
pub open spec fn batch_view(m: Map<Seq<u8>, Option<Vec<u8>>>) -> Map<Seq<u8>, Seq<u8>> {
    m.map_values(|w: Option<Vec<u8>>| stored_value(w))
}

/// Bytes that a batch of writes adds to a memtable at most.
pub open spec fn batch_bytes(s: Seq<(Vec<u8>, Option<Vec<u8>>)>) -> nat
    decreases s.len(),
{
    if s.len() == 0 {
        0
    } else {
        batch_bytes(s.drop_last()) + s.last().0@.len() + stored_value(s.last().1).len()
    }
}

pub proof fn lemma_batch_bytes_take(s: Seq<(Vec<u8>, Option<Vec<u8>>)>, i: int)
    requires
        0 <= i <= s.len(),
    ensures
        batch_bytes(s.take(i)) <= batch_bytes(s),
    decreases s.len(),
{
    if i == s.len() {
        assert(s.take(i) =~= s);
    } else {
        assert(s.drop_last().take(i) =~= s.take(i));
        lemma_batch_bytes_take(s.drop_last(), i);
    }
}

/// The contents after applying log entries `es`, in order, on top of `m`.
pub open spec fn fold_entries(m: Map<Seq<u8>, Seq<u8>>, es: Seq<WalEntryView>) -> Map<Seq<u8>, Seq<u8>>
    decreases es.len(),
{
    if es.len() == 0 {
        m
    } else {
        fold_entries(m, es.drop_last()).insert(es.last().0, es.last().1)
    }
}

/// The key and value bytes of log entries `es`.
pub open spec fn entries_bytes(es: Seq<WalEntryView>) -> nat
    decreases es.len(),
{
    if es.len() == 0 {
        0
    } else {
        entries_bytes(es.drop_last()) + es.last().0.len() + es.last().1.len()
    }
}

pub proof fn lemma_entries_bytes_take(es: Seq<WalEntryView>, i: int)
    requires
        0 <= i <= es.len(),
    ensures
        entries_bytes(es.take(i)) <= entries_bytes(es),
    decreases es.len(),
{
    if i == es.len() {
        assert(es.take(i) =~= es);
    } else {
        assert(es.drop_last().take(i) =~= es.take(i));
        lemma_entries_bytes_take(es.drop_last(), i);
    }
}

/// The LSM engine in memory: the active memtable in front of the catalog of
/// sorted runs. Writes land in the memtable; a full memtable becomes a new
/// level-0 run.
pub struct LsmStorage {
    pub memtable: MemTable,
    pub catalog: RunCatalog,
    pub last_run_ts: u64,
}

impl LsmStorage {
    pub open spec fn wf(&self) -> bool {
        &&& self.memtable.wf()
        &&& self.catalog.wf()
        &&& forall|i: int| 0 <= i < self.catalog.runs@.len() ==> (#[trigger] self.catalog.runs@[i]).created_ts
            <= self.last_run_ts
    }

    /// Every key's newest stored value, tombstones included: the memtable
    /// shadows the runs.
    pub open spec fn contents(&self) -> Map<Seq<u8>, Seq<u8>> {
        self.catalog@.union_prefer_right(self.memtable@)
    }

    /// What a read of `k` returns.
    pub open spec fn read(&self, k: Seq<u8>) -> Option<Seq<u8>> {
        read_of(self.contents(), k)
    }

    /// The live keys and their values.
    pub open spec fn live(&self) -> Map<Seq<u8>, Seq<u8>> {
        live_only(self.contents())
    }

    /// An empty engine with the default flush threshold.
    pub fn new() -> (r: Self)
        ensures
            r.wf(),
            r.contents() == Map::<Seq<u8>, Seq<u8>>::empty(),
            r.memtable.flush_threshold == DEFAULT_FLUSH_THRESHOLD,
            r.catalog.runs@.len() == 0,
            r.memtable@ == Map::<Seq<u8>, Seq<u8>>::empty(),
            r.memtable.size == 0,
            r.last_run_ts == 0,
    {
        Self::with_flush_threshold(DEFAULT_FLUSH_THRESHOLD)
    }

    /// An empty engine whose memtable is flushed once it exceeds
    /// `flush_threshold` bytes.
    pub fn with_flush_threshold(flush_threshold: u64) -> (r: Self)
        ensures
            r.wf(),
            r.contents() == Map::<Seq<u8>, Seq<u8>>::empty(),
            r.memtable.flush_threshold == flush_threshold,
            r.catalog.runs@.len() == 0,
            r.memtable@ == Map::<Seq<u8>, Seq<u8>>::empty(),
            r.memtable.size == 0,
            r.last_run_ts == 0,
    {
        let r = LsmStorage {
            memtable: MemTable::with_threshold(flush_threshold),
            catalog: RunCatalog::new(),
            last_run_ts: 0,
        };
        assert(r.contents() =~= Map::<Seq<u8>, Seq<u8>>::empty());
        r
    }

    /// Writes `value` under `key` (an empty value is a tombstone), then
    /// flushes the memtable if it has grown past its threshold. Fails, with
    /// nothing changed, only when the memtable's byte count would overflow.
    pub fn put(&mut self, key: &[u8], value: &[u8]) -> (r: Result<(), DbError>)
        requires
            old(self).wf(),
        ensures
            final(self).wf(),
            r is Ok <==> old(self).memtable.can_insert(key@, value@),
            r is Ok ==> final(self).contents() == old(self).contents().insert(key@, value@),
            r is Err ==> final(self).contents() == old(self).contents(),
            r matches Err(e) ==> e is Storage,
            r is Ok ==> final(self).memtable.size <= old(self).memtable.size + key@.len() + value@.len(),
            final(self).memtable.flush_threshold == old(self).memtable.flush_threshold,
            r is Err ==> *final(self) == *old(self),
            r is Ok ==> final(self).memtable.size <= final(self).memtable.flush_threshold
                || old(self).last_run_ts == u64::MAX,
            r is Ok ==> final(self).catalog.runs@ == old(self).catalog.runs@ || (
                final(self).catalog.runs@.len() == old(self).catalog.runs@.len() + 1
                && final(self).catalog.runs@[0].level == 0
                && final(self).catalog.runs@.skip(1) == old(self).catalog.runs@),
            final(self).last_run_ts >= old(self).last_run_ts,
    {
        if key.len() as u64 > u64::MAX - self.memtable.size_bytes() || value.len() as u64 > u64::MAX
            - self.memtable.size_bytes() - key.len() as u64 {
            return Err(DbError::Storage("memtable byte count would overflow".to_string()));
        }
        let ghost before = self.contents();
        self.memtable.insert(crate::keys::copy_bytes(key), crate::keys::copy_bytes(value));
        assert(self.contents() =~= before.insert(key@, value@));
        if self.memtable.should_flush() {
            self.flush_memtable();
        }
        Ok(())
    }

    /// Whether a batch of buffered writes fits the memtable's byte count, so
    /// that `apply_batch` succeeds.
    pub fn batch_fits(&self, writes: &KeyMap<Option<Vec<u8>>>) -> (r: bool)
        ensures
            r == (self.memtable.size + batch_bytes(writes.entries@) <= u64::MAX),
    {
        let s = &writes.entries;
        let room = u64::MAX - self.memtable.size_bytes();
        let mut total: u64 = 0;
        let mut i: usize = 0;
        while i < s.len()
            invariant
                i <= s@.len(),
                total == batch_bytes(s@.take(i as int)),
                total <= room,
                room == u64::MAX - self.memtable.size,
                s == &writes.entries,
            decreases s@.len() - i,
        {
            proof {
                assert(s@.take(i + 1).drop_last() =~= s@.take(i as int));
                assert(s@.take(i + 1).last() == s@[i as int]);
            }
            let w = match &s[i].1 {
                Some(v) => v.len(),
                None => 0,
            };
            let k = s[i].0.len();
            if k as u64 > room - total || w as u64 > room - total - k as u64 {
                proof {
                    assert(stored_value(s@[i as int].1).len() == w);
                    assert(batch_bytes(s@.take(i + 1)) == total + k + w);
                    lemma_batch_bytes_take(s@, i + 1);
                    assert(batch_bytes(s@) > room);
                }
                return false;
            }
            total = total + k as u64 + w as u64;
            i = i + 1;
        }
        proof {
            assert(s@.take(i as int) =~= s@);
        }
        true
    }

    /// Applies a batch of buffered writes (a delete writes a tombstone), all
    /// or none. Fails, with nothing changed, only when the memtable's byte
    /// count could overflow.
    pub fn apply_batch(&mut self, writes: &KeyMap<Option<Vec<u8>>>) -> (r: Result<(), DbError>)
        requires
            old(self).wf(),
            writes.wf(),
        ensures
            final(self).wf(),
            r is Ok <==> old(self).memtable.size + batch_bytes(writes.entries@) <= u64::MAX,
            r is Ok ==> final(self).contents() == old(self).contents().union_prefer_right(batch_view(writes@)),
            r is Err ==> *final(self) == *old(self),
            final(self).memtable.flush_threshold == old(self).memtable.flush_threshold,
    {
        let s = &writes.entries;
        let room = u64::MAX - self.memtable.size_bytes();
        let mut total: u64 = 0;
        let mut i: usize = 0;
        while i < s.len()
            invariant
                *self == *old(self),
                old(self).wf(),
                i <= s@.len(),
                total == batch_bytes(s@.take(i as int)),
                total <= room,
                room == u64::MAX - self.memtable.size,
                room == u64::MAX - old(self).memtable.size,
                s == &writes.entries,
            decreases s@.len() - i,
        {
            proof {
                assert(s@.take(i + 1).drop_last() =~= s@.take(i as int));
                assert(s@.take(i + 1).last() == s@[i as int]);
            }
            let w = match &s[i].1 {
                Some(v) => v.len(),
                None => 0,
            };
            let k = s[i].0.len();
            if k as u64 > room - total || w as u64 > room - total - k as u64 {
                proof {
                    assert(stored_value(s@[i as int].1).len() == w);
                    assert(batch_bytes(s@.take(i + 1)) == total + k + w);
                    lemma_batch_bytes_take(s@, i + 1);
                    assert(batch_bytes(s@) > room);
                    assert(old(self).memtable.size + batch_bytes(writes.entries@) > u64::MAX);
                }
                return Err(DbError::Storage("write batch too large for the memtable".to_string()));
            }
            total = total + k as u64 + w as u64;
            i = i + 1;
        }
        proof {
            assert(s@.take(i as int) =~= s@);
        }
        let ghost start = *self;
        let mut j: usize = 0;
        proof {
            assert(s@.take(0) =~= Seq::<(Vec<u8>, Option<Vec<u8>>)>::empty());
            assert(batch_view(crate::keymap::entries_map(s@.take(0))) =~= Map::<Seq<u8>, Seq<u8>>::empty());
            assert(self.contents() =~= start.contents().union_prefer_right(batch_view(crate::keymap::entries_map(s@.take(0)))));
        }
        while j < s.len()
            invariant
                self.wf(),
                j <= s@.len(),
                keys_increasing(s@),
                start.memtable.size + batch_bytes(s@) <= u64::MAX,
                self.memtable.size <= start.memtable.size + batch_bytes(s@.take(j as int)),
                self.contents() == start.contents().union_prefer_right(batch_view(crate::keymap::entries_map(s@.take(j as int)))),
                self.memtable.flush_threshold == start.memtable.flush_threshold,
            decreases s@.len() - j,
        {
            proof {
                assert(s@.take(j + 1).drop_last() =~= s@.take(j as int));
                assert(s@.take(j + 1).last() == s@[j as int]);
                assert(s@.take(j + 1) =~= s@.take(j as int).push(s@[j as int]));
                lemma_keys_increasing_take(s@, j + 1);
                lemma_entries_map_push(s@.take(j as int), s@[j as int]);
                lemma_batch_bytes_take(s@, j + 1);
            }
            let ghost before = self.contents();
            let res = match &s[j].1 {
                Some(v) => self.put(s[j].0.as_slice(), v.as_slice()),
                None => self.delete(s[j].0.as_slice()),
            };
            proof {
                assert(res is Ok);
                assert(self.contents() =~= start.contents().union_prefer_right(batch_view(crate::keymap::entries_map(s@.take(j + 1)))));
            }
            j = j + 1;
        }
        proof {
            assert(s@.take(j as int) =~= s@);
        }
        Ok(())
    }

    /// Re-applies log records in order, as recovery does after a restart.
    /// Fails only when the memtable's byte count would overflow.
    pub fn apply_wal(&mut self, records: &Vec<WalRecord>) -> (r: Result<(), DbError>)
        requires
            old(self).wf(),
        ensures
            final(self).wf(),
            r is Ok ==> final(self).contents() == fold_entries(old(self).contents(), wal_views(records@)),
            r matches Err(e) ==> e is Storage,
            old(self).memtable.size + entries_bytes(wal_views(records@)) <= u64::MAX ==> r is Ok,
            final(self).memtable.flush_threshold == old(self).memtable.flush_threshold,
    {
        let mut i: usize = 0;
        proof {
            assert(wal_views(records@).take(0) =~= Seq::<WalEntryView>::empty());
        }
        while i < records.len()
            invariant
                self.wf(),
                i <= records@.len(),
                self.contents() == fold_entries(old(self).contents(), wal_views(records@).take(i as int)),
                self.memtable.size <= old(self).memtable.size + entries_bytes(wal_views(records@).take(i as int)),
                self.memtable.flush_threshold == old(self).memtable.flush_threshold,
            decreases records@.len() - i,
        {
            proof {
                let vs = wal_views(records@);
                assert(vs.take(i + 1).drop_last() =~= vs.take(i as int));
                assert(vs.take(i + 1).last() == records@[i as int]@);
                lemma_entries_bytes_take(vs, i + 1);
            }
            let res = self.put(records[i].key.as_slice(), records[i].value.as_slice());
            match res {
                Ok(()) => {},
                Err(e) => return Err(e),
            }
            proof {
                let vs = wal_views(records@);
                assert(vs.take(i + 1).drop_last() =~= vs.take(i as int));
                assert(vs.take(i + 1).last() == records@[i as int]@);
            }
            i = i + 1;
        }
        proof {
            assert(wal_views(records@).take(i as int) =~= wal_views(records@));
        }
        Ok(())
    }

    /// Rebuilds the engine after a restart: the runs found on disk go into
    /// the catalog in read order (lower levels first, newest first within a
    /// level), then the log is replayed on top of them. Returns the engine
    /// and where the intact part of the log ends. A run that is not well
    /// formed is refused.
    pub fn recover(runs: Vec<SSTable>, log: &[u8], flush_threshold: u64) -> (r: Result<(LsmStorage, usize), DbError>)
        ensures
            (exists|i: int| 0 <= i < runs@.len() && !(#[trigger] runs@[i]).wf()) <==> (r matches Err(e) && e is Serialization),
            (forall|i: int| 0 <= i < runs@.len() ==> (#[trigger] runs@[i]).wf()) && entries_bytes(replayed(log@))
                <= u64::MAX ==> r is Ok,
            r matches Err(e) ==> e is Serialization || e is Storage,
            r matches Ok((s, end)) ==> {
                &&& s.wf()
                &&& s.memtable.flush_threshold == flush_threshold
                &&& end == log_bytes(replayed(log@)).len()
                &&& is_full_replay(replayed(log@), log@)
                &&& exists|ordered: Seq<SSTable>| #![trigger runs_from(ordered, 0)] {
                    &&& in_read_order(ordered)
                    &&& ordered.to_multiset() == runs@.to_multiset()
                    &&& s.contents() == fold_entries(runs_from(ordered, 0), replayed(log@))
                }
            },
    {
        let mut s = LsmStorage::with_flush_threshold(flush_threshold);
        let mut pending = runs;
        let ghost all = pending@;
        assert(all == runs@);
        let n = pending.len();
        proof {
            broadcast use vstd::multiset::group_multiset_axioms;
            assert(s.catalog.runs@ =~= Seq::<SSTable>::empty());
            vstd::seq_lib::to_multiset_len(s.catalog.runs@);
            assert(s.catalog.runs@.to_multiset() =~= vstd::multiset::Multiset::<SSTable>::empty());
            assert(s.catalog.runs@.to_multiset().add(pending@.to_multiset()) =~= all.to_multiset());
        }
        while pending.len() > 0
            invariant
                s.wf(),
                in_read_order(s.catalog.runs@),
                s.catalog.runs@.len() + pending@.len() == n,
                n == all.len(),
                all == runs@,
                pending@ == all.subrange(0, pending@.len() as int),
                forall|i: int| pending@.len() <= i < n ==> s.last_run_ts >= #[trigger] all[i].created_ts,
                forall|i: int| pending@.len() <= i < n ==> (#[trigger] all[i]).wf(),
                s.memtable.flush_threshold == flush_threshold,
                s.memtable@ == Map::<Seq<u8>, Seq<u8>>::empty(),
                s.memtable.size == 0,
                s.catalog.runs@.to_multiset().add(pending@.to_multiset()) == all.to_multiset(),
            decreases pending@.len(),
        {
            let ghost before = s.catalog.runs@;
            let ghost rest = pending@;
            let run = pending.pop().unwrap();
            if !run.is_well_formed() {
                proof {
                    assert(all[pending@.len() as int] == run);
                    assert(!all[pending@.len() as int].wf());
                }
                return Err(DbError::Serialization("malformed sorted run".to_string()));
            }
            let ghost x = run;
            if run.created_ts > s.last_run_ts {
                s.last_run_ts = run.created_ts;
            }
            s.catalog.install_recovered(run);
            proof {
                broadcast use vstd::multiset::group_multiset_axioms;
                let i = choose|i: int| 0 <= i <= before.len() && s.catalog.runs@ == before.insert(i, x);
                vstd::seq_lib::to_multiset_insert(before, i, x);
                assert(rest =~= pending@.push(x));
                vstd::seq_lib::to_multiset_build(pending@, x);
                assert(s.catalog.runs@.to_multiset().add(pending@.to_multiset()) =~= all.to_multiset());
                assert(all[pending@.len() as int] == x);
            }
        }
        let ghost ordered = s.catalog.runs@;
        proof {
            broadcast use vstd::multiset::group_multiset_axioms;
            assert(pending@ =~= Seq::<SSTable>::empty());
            vstd::seq_lib::to_multiset_len(pending@);
            assert(pending@.to_multiset() =~= vstd::multiset::Multiset::<SSTable>::empty());
            assert(ordered.to_multiset() =~= all.to_multiset());
            assert(s.contents() =~= runs_from(ordered, 0));
            assert(forall|i: int| 0 <= i < all.len() ==> (#[trigger] all[i]).wf());
        }
        let (records, end) = replay_wal_with_end(log);
        proof {
            lemma_replayed_unique(wal_views(records@), log@);
        }
        match s.apply_wal(&records) {
            Ok(()) => {},
            Err(e) => return Err(e),
        }
        Ok((s, end))
    }

    /// Writes a tombstone for `key`.
    pub fn delete(&mut self, key: &[u8]) -> (r: Result<(), DbError>)
        requires
            old(self).wf(),
        ensures
            final(self).wf(),
            r is Ok <==> old(self).memtable.can_insert(key@, Seq::empty()),
            r is Ok ==> final(self).contents() == old(self).contents().insert(key@, Seq::empty()),
            r is Err ==> final(self).contents() == old(self).contents(),
            r is Ok ==> final(self).memtable.size <= old(self).memtable.size + key@.len(),
            final(self).memtable.flush_threshold == old(self).memtable.flush_threshold,
    {
        let empty: Vec<u8> = Vec::new();
        assert(empty@ =~= Seq::<u8>::empty());
        self.put(key, empty.as_slice())
    }

    /// Turns the memtable into a new level-0 run in front of all others.
    /// Every read answers the same before and after. Returns whether a run
    /// was installed: nothing happens to an empty memtable, or when no fresh
    /// run timestamp is left.
    pub fn flush_memtable(&mut self) -> (r: bool)
        requires
            old(self).wf(),
        ensures
            final(self).wf(),
            final(self).contents() == old(self).contents(),
            r ==> final(self).memtable@ == Map::<Seq<u8>, Seq<u8>>::empty(),
            r ==> final(self).memtable.size == 0,
            r ==> final(self).catalog.runs@.len() == old(self).catalog.runs@.len() + 1,
            r ==> final(self).catalog.runs@[0]@ == old(self).memtable@,
            r ==> final(self).catalog.runs@[0].level == 0,
            r ==> final(self).catalog.runs@[0].created_ts == final(self).last_run_ts,
            r ==> final(self).catalog.runs@.skip(1) == old(self).catalog.runs@,
            !r ==> *final(self) == *old(self),
            r <==> old(self).memtable.data.entries@.len() > 0 && old(self).last_run_ts < u64::MAX,
            r ==> final(self).last_run_ts > old(self).last_run_ts,
            final(self).memtable.flush_threshold == old(self).memtable.flush_threshold,
    {
        if self.memtable.len() == 0 || self.last_run_ts == u64::MAX {
            return false;
        }
        let now = VersionTimestamp::now().as_u64();
        let ts = if now > self.last_run_ts { now } else { self.last_run_ts + 1 };
        let mut frozen = MemTable::with_threshold(self.memtable.flush_threshold);
        std::mem::swap(&mut self.memtable, &mut frozen);
        let ghost old_mem = frozen@;
        let run = SSTable::from_memtable(0, ts, frozen);
        self.catalog.install_flush(run);
        self.last_run_ts = ts;
        proof {
            assert(self.catalog.runs@.skip(1) =~= old(self).catalog.runs@);
            assert(self.contents() =~= old(self).contents());
        }
        true
    }

    /// The live value of `key`: the memtable first, then the runs in read
    /// order; a tombstone reads as absent.
    pub fn get(&self, key: &[u8]) -> (r: Option<Vec<u8>>)
        requires
            self.wf(),
        ensures
            opt_bytes(r) == self.read(key@),
    {
        if let Some(v) = self.memtable.get(key) {
            if v.len() > 0 {
                return Some(v);
            }
            return None;
        }
        let runs = &self.catalog.runs;
        let mut i: usize = 0;
        while i < runs.len()
            invariant
                self.wf(),
                runs == &self.catalog.runs,
                i <= runs@.len(),
                !self.memtable@.contains_key(key@),
                self.contents().contains_key(key@) == runs_from(runs@, i as int).contains_key(key@),
                self.contents().contains_key(key@) ==> self.contents()[key@] == runs_from(runs@, i as int)[key@],
            decreases runs@.len() - i,
        {
            assert(runs@[i as int].wf());
            if let Some(v) = runs[i].get(key) {
                if v.len() > 0 {
                    return Some(v);
                }
                return None;
            }
            i = i + 1;
        }
        None
    }

    /// All live entries whose key starts with `prefix`, in key order, each
    /// with its newest value.
    pub fn scan(&self, prefix: &[u8]) -> (r: Vec<(Vec<u8>, Vec<u8>)>)
        requires
            self.wf(),
        ensures
            keys_increasing(r@),
            bytes_view(r@) == with_prefix(self.live(), prefix@),
    {
        let mut acc: KeyMap<Vec<u8>> = KeyMap::new();
        let runs = &self.catalog.runs;
        let mut i: usize = runs.len();
        proof {
            assert(bytes_view(acc.entries@) =~= with_prefix(runs_from(runs@, i as int), prefix@));
        }
        while i > 0
            invariant
                self.wf(),
                runs == &self.catalog.runs,
                i <= runs@.len(),
                acc.wf(),
                bytes_view(acc.entries@) == with_prefix(runs_from(runs@, i as int), prefix@),
            decreases i,
        {
            i = i - 1;
            let ghost before = bytes_view(acc.entries@);
            assert(runs@[i as int].wf());
            absorb_prefixed(&mut acc, &runs[i].data.entries, prefix);
            assert(bytes_view(acc.entries@) =~= with_prefix(runs_from(runs@, i as int), prefix@));
        }
        absorb_prefixed(&mut acc, &self.memtable.data.entries, prefix);
        assert(bytes_view(acc.entries@) =~= with_prefix(self.contents(), prefix@));
        let r = drop_tombstones(&acc.entries);
        assert(bytes_view(r@) =~= with_prefix(self.live(), prefix@));
        r
    }
}

} // verus!
