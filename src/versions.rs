use vstd::prelude::*;
use crate::keys::copy_bytes;
use crate::keymap::{entries_map, keys_increasing, lemma_entries_map_push, lemma_keys_increasing_take, KeyMap};
use crate::lsm::{batch_view, stored_value};
use crate::types::{TransactionId, VersionTimestamp, VersionedRecord};

verus! {

/// A version as plain values: (value, created_tx, expired_tx, created_ts, expired_ts).
pub type RecordView = (Seq<u8>, u64, u64, u64, u64);

pub open spec fn record_view(r: VersionedRecord) -> RecordView {
    (r.value@, r.created_tx.0, r.expired_tx.0, r.created_ts.0, r.expired_ts.0)
}

pub open spec fn chain_view(c: Seq<VersionedRecord>) -> Seq<RecordView> {
    c.map_values(|r: VersionedRecord| record_view(r))
}

/// Whether a transaction `tx` reading at `snapshot` sees version `r`.
pub open spec fn sees(r: RecordView, tx: u64, snapshot: u64) -> bool {
    &&& r.3 <= snapshot
    &&& (r.2 == 0 || r.4 > snapshot)
    &&& r.1 != tx
}

/// The newest version of a chain that `tx` sees at `snapshot`.
pub open spec fn newest_visible(c: Seq<RecordView>, tx: u64, snapshot: u64) -> Option<RecordView>
    decreases c.len(),
{
    if c.len() == 0 {
        None
    } else if sees(c.last(), tx, snapshot) {
        Some(c.last())
    } else {
        newest_visible(c.drop_last(), tx, snapshot)
    }
}

/// A well-formed version chain: created by real transactions at increasing
/// times; each version but the last expired exactly when the next one was
/// created; the last one live.
pub open spec fn chain_wf(c: Seq<RecordView>) -> bool {
    &&& forall|i: int| 0 <= i < c.len() ==> (#[trigger] c[i]).3 > 0 && c[i].1 != 0
    &&& forall|i: int, j: int| 0 <= i < j < c.len() ==> (#[trigger] c[i]).3 < (#[trigger] c[j]).3
    &&& forall|i: int| 0 <= i < c.len() - 1 ==> (#[trigger] c[i]).2 != 0 && c[i].4 == c[i + 1].3
    &&& c.len() > 0 ==> c.last().2 == 0 && c.last().4 == 0
}

/// The chain after a commit by `tx` at `ts` that writes `v`: the live
/// version is expired, and a new live version appended.
pub open spec fn committed_chain(c: Seq<RecordView>, v: Seq<u8>, tx: u64, ts: u64) -> Seq<RecordView> {
    let expired = if c.len() > 0 {
        c.update(c.len() - 1, (c.last().0, c.last().1, tx, c.last().3, ts))
    } else {
        c
    };
    expired.push((v, tx, 0, ts, 0))
}

/// The chain held for `k`, or an empty one.
pub open spec fn chain_or_empty(m: Map<Seq<u8>, Seq<RecordView>>, k: Seq<u8>) -> Seq<RecordView> {
    if m.contains_key(k) {
        m[k]
    } else {
        Seq::empty()
    }
}

/// The store after `tx` commits `writes` (key to stored value) at `ts`.
pub open spec fn store_after_commit(
    m: Map<Seq<u8>, Seq<RecordView>>,
    writes: Map<Seq<u8>, Seq<u8>>,
    tx: u64,
    ts: u64,
) -> Map<Seq<u8>, Seq<RecordView>> {
    Map::new(
        |k: Seq<u8>| m.contains_key(k) || writes.contains_key(k),
        |k: Seq<u8>|
            if writes.contains_key(k) {
                committed_chain(chain_or_empty(m, k), writes[k], tx, ts)
            } else {
                m[k]
            },
    )
}

pub proof fn lemma_committed_chain_wf(c: Seq<RecordView>, v: Seq<u8>, tx: u64, ts: u64)
    requires
        chain_wf(c),
        tx != 0,
        ts > 0,
        forall|i: int| 0 <= i < c.len() ==> (#[trigger] c[i]).3 < ts,
    ensures
        chain_wf(committed_chain(c, v, tx, ts)),
{
    let d = committed_chain(c, v, tx, ts);
    let n = c.len() as int;
    assert forall|i: int| 0 <= i < d.len() implies (#[trigger] d[i]).3 > 0 && d[i].1 != 0 by {
        if i < n {
            assert(d[i].3 == c[i].3 && d[i].1 == c[i].1);
        }
    }
    assert forall|i: int, j: int| 0 <= i < j < d.len() implies (#[trigger] d[i]).3 < (#[trigger] d[j]).3 by {
        assert(d[i].3 == c[i].3);
        if j < n {
            assert(d[j].3 == c[j].3);
        }
    }
    assert forall|i: int| 0 <= i < d.len() - 1 implies (#[trigger] d[i]).2 != 0 && d[i].4 == d[i + 1].3 by {
        if i < n - 1 {
            assert(d[i] == c[i]);
            assert(d[i + 1].3 == c[i + 1].3);
        }
    }
}

/// For every key, its chain of versions, oldest first.
pub struct VersionStore {
    pub chains: KeyMap<Vec<VersionedRecord>>,
}

impl VersionStore {
    pub open spec fn view(&self) -> Map<Seq<u8>, Seq<RecordView>> {
        self.chains@.map_values(|c: Vec<VersionedRecord>| chain_view(c@))
    }

    pub open spec fn wf(&self) -> bool {
        &&& self.chains.wf()
        &&& forall|k: Seq<u8>| #[trigger] self@.contains_key(k) ==> chain_wf(self@[k])
    }

    pub fn new() -> (r: Self)
        ensures
            r.wf(),
            r@ == Map::<Seq<u8>, Seq<RecordView>>::empty(),
    {
        let r = VersionStore { chains: KeyMap::new() };
        assert(r@ =~= Map::<Seq<u8>, Seq<RecordView>>::empty());
        r
    }

    /// Number of versions held for `key`.
    pub fn chain_len(&self, key: &[u8]) -> (r: usize)
        requires
            self.wf(),
        ensures
            r == chain_or_empty(self@, key@).len(),
    {
        match self.chains.get(key) {
            Some(c) => c.len(),
            None => 0,
        }
    }

    /// Whether a version of `key` was created after `snapshot`: a commit of
    /// `key` by a transaction reading at `snapshot` would overwrite it.
    pub fn written_after(&self, key: &[u8], snapshot: u64) -> (r: bool)
        requires
            self.wf(),
        ensures
            r == (chain_or_empty(self@, key@).len() > 0 && chain_or_empty(self@, key@).last().3 > snapshot),
    {
        match self.chains.get(key) {
            Some(c) => {
                if c.len() == 0 {
                    false
                } else {
                    c[c.len() - 1].created_ts.0 > snapshot
                }
            },
            None => false,
        }
    }

    /// The newest version of `key` that `tx_id` sees at `snapshot_ts`,
    /// walking the chain from newest to oldest.
    pub fn visible(&self, key: &[u8], tx_id: TransactionId, snapshot_ts: VersionTimestamp) -> (r: Option<&VersionedRecord>)
        requires
            self.wf(),
        ensures
            r is Some <==> newest_visible(chain_or_empty(self@, key@), tx_id.0, snapshot_ts.0) is Some,
            r matches Some(x) ==> newest_visible(chain_or_empty(self@, key@), tx_id.0, snapshot_ts.0)
                == Some(record_view(*x)),
    {
        let c = match self.chains.get(key) {
            Some(c) => c,
            None => return None,
        };
        let ghost cv = chain_view(c@);
        assert(cv == chain_or_empty(self@, key@));
        assert(cv.take(c@.len() as int) =~= cv);
        let mut i: usize = c.len();
        while i > 0
            invariant
                i <= c@.len(),
                cv == chain_view(c@),
                cv == chain_or_empty(self@, key@),
                newest_visible(cv, tx_id.0, snapshot_ts.0) == newest_visible(cv.take(i as int), tx_id.0, snapshot_ts.0),
            decreases i,
        {
            proof {
                assert(cv.take(i as int).drop_last() =~= cv.take(i - 1));
                assert(cv.take(i as int).last() == record_view(c@[i - 1]));
            }
            if c[i - 1].is_visible(tx_id, snapshot_ts) {
                return Some(&c[i - 1]);
            }
            i = i - 1;
        }
        assert(cv.take(0) =~= Seq::<RecordView>::empty());
        None
    }

    /// Applies the writes of `tx` committing at `ts` (a delete writes a
    /// tombstone): each key's live version is expired and a new one appended.
    pub fn commit_writes(&mut self, writes: &KeyMap<Option<Vec<u8>>>, tx: u64, ts: u64)
        requires
            old(self).wf(),
            writes.wf(),
            tx != 0,
            ts > 0,
            forall|k: Seq<u8>, i: int| #[trigger] old(self)@.contains_key(k) && 0 <= i < old(self)@[k].len()
                ==> #[trigger] old(self)@[k][i].3 < ts,
        ensures
            final(self).wf(),
            final(self)@ == store_after_commit(old(self)@, batch_view(writes@), tx, ts),
    {
        let s = &writes.entries;
        let ghost start = self@;
        let mut i: usize = 0;
        proof {
            assert(s@.take(0) =~= Seq::<(Vec<u8>, Option<Vec<u8>>)>::empty());
            assert(self@ =~= store_after_commit(start, batch_view(entries_map(s@.take(0))), tx, ts));
        }
        while i < s.len()
            invariant
                self.wf(),
                i <= s@.len(),
                keys_increasing(s@),
                tx != 0,
                ts > 0,
                forall|k: Seq<u8>, j: int| #[trigger] start.contains_key(k) && 0 <= j < start[k].len()
                    ==> #[trigger] start[k][j].3 < ts,
                self@ == store_after_commit(start, batch_view(entries_map(s@.take(i as int))), tx, ts),
            decreases s@.len() - i,
        {
            let ghost done = batch_view(entries_map(s@.take(i as int)));
            let ghost k = s@[i as int].0@;
            let ghost v = stored_value(s@[i as int].1);
            proof {
                assert(s@.take(i + 1) =~= s@.take(i as int).push(s@[i as int]));
                lemma_keys_increasing_take(s@, i + 1);
                lemma_entries_map_push(s@.take(i as int), s@[i as int]);
                assert(!done.contains_key(k));
                assert(chain_or_empty(self@, k) == chain_or_empty(start, k));
            }
            let ghost before = self@;
            let (_, prev) = self.chains.insert(copy_bytes(s[i].0.as_slice()), Vec::new());
            let mut chain = match prev {
                Some(c) => c,
                None => Vec::new(),
            };
            let ghost old_chain = chain_view(chain@);
            assert(old_chain == chain_or_empty(start, k));
            let n = chain.len();
            if n > 0 {
                let mut last = chain.pop().unwrap();
                proof {
                    if start.contains_key(k) {
                        assert(start[k][n - 1].3 < ts);
                    }
                    assert(record_view(last) == old_chain[n - 1]);
                }
                last.mark_expired(TransactionId::new(tx), VersionTimestamp::from_u64(ts));
                chain.push(last);
            }
            let value = match &s[i].1 {
                Some(w) => copy_bytes(w.as_slice()),
                None => Vec::new(),
            };
            chain.push(VersionedRecord {
                value,
                created_tx: TransactionId::new(tx),
                expired_tx: TransactionId::new(0),
                created_ts: VersionTimestamp::from_u64(ts),
                expired_ts: VersionTimestamp::from_u64(0),
            });
            proof {
                assert(chain_view(chain@) =~= committed_chain(old_chain, v, tx, ts));
                if start.contains_key(k) {
                    assert forall|j: int| 0 <= j < old_chain.len() implies (#[trigger] old_chain[j]).3 < ts by {
                        assert(start[k][j].3 < ts);
                    }
                }
                lemma_committed_chain_wf(old_chain, v, tx, ts);
            }
            self.chains.insert(copy_bytes(s[i].0.as_slice()), chain);
            proof {
                assert(self@ =~= before.insert(k, committed_chain(old_chain, v, tx, ts)));
                assert(batch_view(entries_map(s@.take(i + 1))) =~= done.insert(k, v));
                assert(self@ =~= store_after_commit(start, batch_view(entries_map(s@.take(i + 1))), tx, ts));
                assert forall|kk: Seq<u8>| #[trigger] self@.contains_key(kk) implies chain_wf(self@[kk]) by {
                    if kk != k {
                        assert(before.contains_key(kk));
                    }
                }
            }
            i = i + 1;
        }
        proof {
            assert(s@.take(i as int) =~= s@);
        }
    }
}

} // verus!
