use vstd::prelude::*;

use crate::types::{DbError, Transaction, TransactionId, TransactionState, VersionTimestamp};

verus! {

/// Pairs of (transaction id, timestamp) whose ids are distinct.
pub open spec fn ids_unique(s: Seq<(u64, u64)>) -> bool {
    forall|i: int, j: int| 0 <= i < j < s.len() ==> #[trigger] s[i].0 != #[trigger] s[j].0
}

/// Position of `id` in `s`, where it occurs.
pub open spec fn id_index(s: Seq<(u64, u64)>, id: u64) -> int {
    choose|i: int| 0 <= i < s.len() && #[trigger] s[i].0 == id
}

/// The map from id to timestamp that `s` stands for.
pub open spec fn id_map(s: Seq<(u64, u64)>) -> Map<u64, u64> {
    Map::new(
        |id: u64| exists|i: int| 0 <= i < s.len() && #[trigger] s[i].0 == id,
        |id: u64| s[id_index(s, id)].1,
    )
}

pub proof fn lemma_id_map_at(s: Seq<(u64, u64)>, i: int)
    requires
        ids_unique(s),
        0 <= i < s.len(),
    ensures
        id_map(s).contains_key(s[i].0),
        id_map(s)[s[i].0] == s[i].1,
{
    let j = id_index(s, s[i].0);
    assert(0 <= j < s.len() && s[j].0 == s[i].0);
    if j < i {
        assert(s[j].0 != s[i].0);
    } else if i < j {
        assert(s[i].0 != s[j].0);
    }
    assert(j == i);
}

pub proof fn lemma_id_map_push(s: Seq<(u64, u64)>, x: (u64, u64))
    requires
        ids_unique(s),
        forall|i: int| 0 <= i < s.len() ==> #[trigger] s[i].0 != x.0,
    ensures
        ids_unique(s.push(x)),
        id_map(s.push(x)) == id_map(s).insert(x.0, x.1),
{
    let t = s.push(x);
    assert(ids_unique(t)) by {
        assert forall|i: int, j: int| 0 <= i < j < t.len() implies #[trigger] t[i].0 != #[trigger] t[j].0 by {
            assert(t[i] == s[i]);
            if j < s.len() {
                assert(t[j] == s[j]);
            }
        }
    }
    assert(id_map(t) =~= id_map(s).insert(x.0, x.1)) by {
        assert forall|id: u64| #[trigger] id_map(t).contains_key(id) == id_map(s).insert(x.0, x.1).contains_key(id) by {
            if id_map(s).contains_key(id) {
                let j = id_index(s, id);
                assert(t[j] == s[j]);
            }
            if id_map(t).contains_key(id) {
                let j = id_index(t, id);
                if j < s.len() {
                    assert(t[j] == s[j]);
                }
            }
            assert(t[s.len() as int] == x);
        }
        assert forall|id: u64| #[trigger] id_map(t).contains_key(id) implies id_map(t)[id] == id_map(s).insert(x.0, x.1)[id] by {
            let j = id_index(t, id);
            lemma_id_map_at(t, j);
            if j < s.len() {
                assert(t[j] == s[j]);
                lemma_id_map_at(s, j);
            }
        }
    }
}

pub proof fn lemma_id_map_remove(s: Seq<(u64, u64)>, i: int)
    requires
        ids_unique(s),
        0 <= i < s.len(),
    ensures
        ids_unique(s.remove(i)),
        id_map(s.remove(i)) == id_map(s).remove(s[i].0),
{
    let t = s.remove(i);
    assert(ids_unique(t)) by {
        assert forall|a: int, b: int| 0 <= a < b < t.len() implies #[trigger] t[a].0 != #[trigger] t[b].0 by {
            let a2 = if a < i { a } else { a + 1 };
            let b2 = if b < i { b } else { b + 1 };
            assert(t[a] == s[a2] && t[b] == s[b2]);
        }
    }
    assert(id_map(t) =~= id_map(s).remove(s[i].0)) by {
        assert forall|id: u64| #[trigger] id_map(t).contains_key(id) == id_map(s).remove(s[i].0).contains_key(id) by {
            if id_map(s).contains_key(id) && id != s[i].0 {
                let j = id_index(s, id);
                if j < i {
                    assert(t[j] == s[j]);
                } else {
                    assert(t[j - 1] == s[j]);
                }
            }
            if id_map(t).contains_key(id) {
                let j = id_index(t, id);
                let j2 = if j < i { j } else { j + 1 };
                assert(t[j] == s[j2]);
            }
        }
        assert forall|id: u64| #[trigger] id_map(t).contains_key(id) implies id_map(t)[id] == id_map(s).remove(s[i].0)[id] by {
            let j = id_index(t, id);
            lemma_id_map_at(t, j);
            let j2 = if j < i { j } else { j + 1 };
            assert(t[j] == s[j2]);
            lemma_id_map_at(s, j2);
        }
    }
}

/// Finds `id` among the pairs.
fn find_id(s: &Vec<(u64, u64)>, id: u64) -> (r: Option<usize>)
    requires
        ids_unique(s@),
    ensures
        r is Some <==> id_map(s@).contains_key(id),
        r matches Some(i) ==> i < s@.len() && s@[i as int].0 == id,
{
    let mut i: usize = 0;
    while i < s.len()
        invariant
            i <= s@.len(),
            forall|j: int| 0 <= j < i ==> #[trigger] s@[j].0 != id,
        decreases s@.len() - i,
    {
        if s[i].0 == id {
            return Some(i);
        }
        i = i + 1;
    }
    None
}

/// Allocates transaction ids, tracks the active transactions with their
/// snapshots, and records commit timestamps.
pub struct TransactionManager {
    /// Active transactions: (id, snapshot timestamp), in order of id.
    pub active: Vec<(u64, u64)>,
    /// Committed transactions: (id, commit timestamp), in order of id.
    pub committed: Vec<(u64, u64)>,
    pub next_tx_id: u64,
    pub latest_commit_ts: u64,
}

impl TransactionManager {
    pub open spec fn wf(&self) -> bool {
        &&& ids_unique(self.active@)
        &&& ids_unique(self.committed@)
        &&& self.next_tx_id >= 1
        &&& forall|i: int| 0 <= i < self.active@.len() ==> 0 < #[trigger] self.active@[i].0 < self.next_tx_id
        &&& forall|i: int| 0 <= i < self.committed@.len() ==> 0 < #[trigger] self.committed@[i].0 < self.next_tx_id
        &&& forall|id: u64| #[trigger] self.active_view().contains_key(id) ==> !self.committed_view().contains_key(id)
        &&& forall|i: int| 0 <= i < self.committed@.len() ==> #[trigger] self.committed@[i].1 <= self.latest_commit_ts
        &&& forall|i: int| 0 <= i < self.active@.len() ==> #[trigger] self.active@[i].1 <= self.latest_commit_ts
        &&& self.committed@.len() == 0 ==> self.latest_commit_ts == 0
        &&& self.committed@.len() > 0 ==> exists|i: int| 0 <= i < self.committed@.len() && #[trigger] self.committed@[i].1
            == self.latest_commit_ts
    }

    /// Active transaction id to snapshot timestamp.
    pub open spec fn active_view(&self) -> Map<u64, u64> {
        id_map(self.active@)
    }

    /// Committed transaction id to commit timestamp.
    pub open spec fn committed_view(&self) -> Map<u64, u64> {
        id_map(self.committed@)
    }

    /// Whether `tx` may still commit or roll back here.
    pub open spec fn is_active(&self, tx: &Transaction) -> bool {
        tx.state == TransactionState::Active && self.active_view().contains_key(tx.id.0)
    }

    pub fn new() -> (r: Self)
        ensures
            r.wf(),
            r.active_view() == Map::<u64, u64>::empty(),
            r.committed_view() == Map::<u64, u64>::empty(),
            r.latest_commit_ts == 0,
            r.next_tx_id == 1,
    {
        Self::with_next_id(1)
    }

    /// A registry that hands out ids from `next_tx_id` on (from 1 when it is
    /// 0), so that ids stay fresh across a restart when the high-water mark
    /// of the previous run is given.
    pub fn with_next_id(next_tx_id: u64) -> (r: Self)
        ensures
            r.wf(),
            r.active_view() == Map::<u64, u64>::empty(),
            r.committed_view() == Map::<u64, u64>::empty(),
            r.latest_commit_ts == 0,
            r.next_tx_id == if next_tx_id == 0 { 1 } else { next_tx_id },
    {
        let next = if next_tx_id == 0 { 1 } else { next_tx_id };
        let r = TransactionManager { active: Vec::new(), committed: Vec::new(), next_tx_id: next, latest_commit_ts: 0 };
        assert(r.active_view() =~= Map::<u64, u64>::empty());
        assert(r.committed_view() =~= Map::<u64, u64>::empty());
        r
    }

    /// The id the next transaction gets: the high-water mark to keep across
    /// a restart.
    pub fn next_transaction_id(&self) -> (r: u64)
        ensures
            r == self.next_tx_id,
    {
        self.next_tx_id
    }

    /// Starts a transaction with a fresh id, reading the snapshot of the
    /// latest commit. Fails only when the id space is used up.
    pub fn begin_transaction(&mut self) -> (r: Result<Transaction, DbError>)
        requires
            old(self).wf(),
        ensures
            final(self).wf(),
            r is Ok <==> old(self).next_tx_id < u64::MAX,
            r is Err ==> *final(self) == *old(self),
            r matches Err(e) ==> e is Transaction,
            r matches Ok(tx) ==> {
                &&& tx.wf()
                &&& tx.id.0 == old(self).next_tx_id
                &&& tx.id.0 >= 1
                &&& final(self).next_tx_id == old(self).next_tx_id + 1
                &&& !old(self).active_view().contains_key(tx.id.0)
                &&& !old(self).committed_view().contains_key(tx.id.0)
                &&& tx.snapshot_ts.0 == old(self).latest_commit_ts
                &&& tx.state == TransactionState::Active
                &&& tx.writes_view() == Map::<Seq<u8>, Option<Seq<u8>>>::empty()
                &&& final(self).active_view() == old(self).active_view().insert(tx.id.0, tx.snapshot_ts.0)
                &&& final(self).committed_view() == old(self).committed_view()
                &&& final(self).latest_commit_ts == old(self).latest_commit_ts
            },
    {
        if self.next_tx_id == u64::MAX {
            return Err(DbError::Transaction("transaction ids exhausted".to_string()));
        }
        let id = self.next_tx_id;
        let snapshot = self.latest_commit_ts;
        proof {
            assert forall|i: int| 0 <= i < self.active@.len() implies #[trigger] self.active@[i].0 != id by {}
            lemma_id_map_push(self.active@, (id, snapshot));
            if self.active_view().contains_key(id) {
                lemma_id_map_at(self.active@, id_index(self.active@, id));
            }
            if self.committed_view().contains_key(id) {
                lemma_id_map_at(self.committed@, id_index(self.committed@, id));
            }
        }
        self.active.push((id, snapshot));
        self.next_tx_id = id + 1;
        proof {
            assert forall|x: u64| #[trigger] self.active_view().contains_key(x) implies !self.committed_view().contains_key(x) by {
                if x == id && self.committed_view().contains_key(x) {
                    lemma_id_map_at(self.committed@, id_index(self.committed@, x));
                }
            }
        }
        Ok(Transaction::new(TransactionId::new(id), VersionTimestamp::from_u64(snapshot)))
    }

    /// A commit timestamp later than every earlier one: the clock's reading,
    /// or one past the latest commit if the clock lags. `None` when no later
    /// timestamp exists.
    pub fn next_commit_ts(&self) -> (r: Option<VersionTimestamp>)
        ensures
            r is Some <==> self.latest_commit_ts < u64::MAX,
            r matches Some(t) ==> t.0 > self.latest_commit_ts,
    {
        if self.latest_commit_ts == u64::MAX {
            return None;
        }
        let now = VersionTimestamp::now().as_u64();
        if now > self.latest_commit_ts {
            Some(VersionTimestamp::from_u64(now))
        } else {
            Some(VersionTimestamp::from_u64(self.latest_commit_ts + 1))
        }
    }

    /// Records `tx` as committed at `ts` and marks it Committed.
    pub fn commit_at(&mut self, tx: &mut Transaction, ts: VersionTimestamp) -> (r: Result<(), DbError>)
        requires
            old(self).wf(),
            ts.0 > old(self).latest_commit_ts,
        ensures
            final(self).wf(),
            r is Ok <==> old(self).is_active(&*old(tx)),
            r is Err ==> *final(self) == *old(self) && *final(tx) == *old(tx),
            r matches Err(e) ==> e is Transaction,
            r is Ok ==> {
                &&& final(self).active_view() == old(self).active_view().remove(old(tx).id.0)
                &&& final(self).committed_view() == old(self).committed_view().insert(old(tx).id.0, ts.0)
                &&& final(self).latest_commit_ts == ts.0
                &&& final(self).next_tx_id == old(self).next_tx_id
                &&& final(tx).state == TransactionState::Committed
                &&& final(tx).id == old(tx).id
                &&& final(tx).snapshot_ts == old(tx).snapshot_ts
                &&& final(tx).writes == old(tx).writes
            },
    {
        let id = tx.id.0;
        let pos = match find_id(&self.active, id) {
            Some(i) => i,
            None => return Err(DbError::Transaction("transaction not active".to_string())),
        };
        if tx.state != TransactionState::Active {
            return Err(DbError::Transaction("transaction not active".to_string()));
        }
        proof {
            lemma_id_map_at(self.active@, pos as int);
            assert(self.active_view().contains_key(id));
            assert(!self.committed_view().contains_key(id));
            assert forall|i: int| 0 <= i < self.committed@.len() implies #[trigger] self.committed@[i].0 != id by {
                if self.committed@[i].0 == id {
                    lemma_id_map_at(self.committed@, i);
                }
            }
            lemma_id_map_remove(self.active@, pos as int);
            lemma_id_map_push(self.committed@, (id, ts.0));
        }
        self.active.remove(pos);
        self.committed.push((id, ts.0));
        self.latest_commit_ts = ts.0;
        tx.state = TransactionState::Committed;
        proof {
            assert(self.committed@[self.committed@.len() - 1].1 == self.latest_commit_ts);
            assert forall|x: u64| #[trigger] self.active_view().contains_key(x) implies !self.committed_view().contains_key(x) by {
                assert(old(self).active_view().contains_key(x));
            }
            assert forall|i: int| 0 <= i < self.active@.len() implies 0 < #[trigger] self.active@[i].0 < self.next_tx_id by {
                let i2 = if i < pos { i } else { i + 1 };
                assert(self.active@[i] == old(self).active@[i2]);
            }
            assert forall|i: int| 0 <= i < self.active@.len() implies #[trigger] self.active@[i].1 <= self.latest_commit_ts by {
                let i2 = if i < pos { i } else { i + 1 };
                assert(self.active@[i] == old(self).active@[i2]);
            }
        }
        Ok(())
    }

    /// Commits `tx` at a fresh timestamp.
    pub fn commit_transaction(&mut self, tx: &mut Transaction) -> (r: Result<(), DbError>)
        requires
            old(self).wf(),
        ensures
            final(self).wf(),
            r is Ok <==> old(self).is_active(&*old(tx)) && old(self).latest_commit_ts < u64::MAX,
            r is Err ==> *final(self) == *old(self) && *final(tx) == *old(tx),
            r matches Err(e) ==> e is Transaction,
            r is Ok ==> {
                &&& final(self).active_view() == old(self).active_view().remove(old(tx).id.0)
                &&& final(self).committed_view() == old(self).committed_view().insert(old(tx).id.0, final(self).latest_commit_ts)
                &&& final(self).latest_commit_ts > old(self).latest_commit_ts
                &&& final(self).next_tx_id == old(self).next_tx_id
                &&& final(tx).state == TransactionState::Committed
                &&& final(tx).id == old(tx).id
                &&& final(tx).snapshot_ts == old(tx).snapshot_ts
                &&& final(tx).writes == old(tx).writes
            },
    {
        match self.next_commit_ts() {
            Some(ts) => self.commit_at(tx, ts),
            None => Err(DbError::Transaction("commit timestamps exhausted".to_string())),
        }
    }

    /// Ends `tx` without committing it and marks it Aborted.
    pub fn rollback_transaction(&mut self, tx: &mut Transaction) -> (r: Result<(), DbError>)
        requires
            old(self).wf(),
        ensures
            final(self).wf(),
            r is Ok <==> old(self).is_active(&*old(tx)),
            r is Err ==> *final(self) == *old(self) && *final(tx) == *old(tx),
            r matches Err(e) ==> e is Transaction,
            r is Ok ==> {
                &&& final(self).active_view() == old(self).active_view().remove(old(tx).id.0)
                &&& final(self).committed_view() == old(self).committed_view()
                &&& final(self).latest_commit_ts == old(self).latest_commit_ts
                &&& final(self).next_tx_id == old(self).next_tx_id
                &&& final(tx).state == TransactionState::Aborted
                &&& final(tx).id == old(tx).id
                &&& final(tx).snapshot_ts == old(tx).snapshot_ts
                &&& final(tx).writes == old(tx).writes
            },
    {
        let id = tx.id.0;
        let pos = match find_id(&self.active, id) {
            Some(i) => i,
            None => return Err(DbError::Transaction("transaction not active".to_string())),
        };
        if tx.state != TransactionState::Active {
            return Err(DbError::Transaction("transaction not active".to_string()));
        }
        proof {
            lemma_id_map_remove(self.active@, pos as int);
        }
        self.active.remove(pos);
        tx.state = TransactionState::Aborted;
        proof {
            assert forall|x: u64| #[trigger] self.active_view().contains_key(x) implies !self.committed_view().contains_key(x) by {
                assert(old(self).active_view().contains_key(x));
            }
            assert forall|i: int| 0 <= i < self.active@.len() implies 0 < #[trigger] self.active@[i].0 < self.next_tx_id by {
                let i2 = if i < pos { i } else { i + 1 };
                assert(self.active@[i] == old(self).active@[i2]);
            }
            assert forall|i: int| 0 <= i < self.active@.len() implies #[trigger] self.active@[i].1 <= self.latest_commit_ts by {
                let i2 = if i < pos { i } else { i + 1 };
                assert(self.active@[i] == old(self).active@[i2]);
            }
        }
        Ok(())
    }

    /// Whether `tx` is active here.
    pub fn is_active_transaction(&self, tx: &Transaction) -> (r: bool)
        requires
            self.wf(),
        ensures
            r == self.is_active(tx),
    {
        tx.state == TransactionState::Active && find_id(&self.active, tx.id.0).is_some()
    }

    pub fn is_transaction_committed(&self, tx_id: TransactionId) -> (r: bool)
        requires
            self.wf(),
        ensures
            r == self.committed_view().contains_key(tx_id.0),
    {
        find_id(&self.committed, tx_id.0).is_some()
    }

    pub fn get_commit_timestamp(&self, tx_id: TransactionId) -> (r: Option<VersionTimestamp>)
        requires
            self.wf(),
        ensures
            r is Some <==> self.committed_view().contains_key(tx_id.0),
            r matches Some(t) ==> t.0 == self.committed_view()[tx_id.0],
    {
        match find_id(&self.committed, tx_id.0) {
            Some(i) => {
                proof {
                    lemma_id_map_at(self.committed@, i as int);
                }
                Some(VersionTimestamp::from_u64(self.committed[i].1))
            },
            None => None,
        }
    }

    /// The largest commit timestamp so far, or 0 before any commit.
    pub fn get_latest_commit_timestamp(&self) -> (r: VersionTimestamp)
        requires
            self.wf(),
        ensures
            r.0 == self.latest_commit_ts,
            self.committed_view().dom() == Set::<u64>::empty() ==> r.0 == 0,
            forall|id: u64| #[trigger] self.committed_view().contains_key(id) ==> self.committed_view()[id] <= r.0,
            self.committed_view().dom() != Set::<u64>::empty() ==> exists|id: u64| #[trigger] self.committed_view().contains_key(id)
                && self.committed_view()[id] == r.0,
    {
        proof {
            if self.committed@.len() > 0 {
                let i = choose|i: int| 0 <= i < self.committed@.len() && #[trigger] self.committed@[i].1 == self.latest_commit_ts;
                lemma_id_map_at(self.committed@, i);
            } else {
                assert(self.committed_view().dom() =~= Set::<u64>::empty());
            }
            assert forall|id: u64| #[trigger] self.committed_view().contains_key(id) implies self.committed_view()[id] <= self.latest_commit_ts by {
                lemma_id_map_at(self.committed@, id_index(self.committed@, id));
            }
        }
        VersionTimestamp::from_u64(self.latest_commit_ts)
    }

    /// The smallest snapshot timestamp among active transactions, if any.
    pub fn oldest_active_snapshot_ts(&self) -> (r: Option<VersionTimestamp>)
        requires
            self.wf(),
        ensures
            r is None <==> self.active_view().dom() == Set::<u64>::empty(),
            r matches Some(t) ==> (exists|id: u64| #[trigger] self.active_view().contains_key(id)
                && self.active_view()[id] == t.0),
            r matches Some(t) ==> forall|id: u64| #[trigger] self.active_view().contains_key(id)
                ==> t.0 <= self.active_view()[id],
    {
        if self.active.len() == 0 {
            assert(self.active_view().dom() =~= Set::<u64>::empty());
            return None;
        }
        let mut best: u64 = self.active[0].1;
        let mut at: usize = 0;
        let mut i: usize = 1;
        while i < self.active.len()
            invariant
                1 <= i <= self.active@.len(),
                at < i,
                best == self.active@[at as int].1,
                forall|j: int| 0 <= j < i ==> best <= #[trigger] self.active@[j].1,
            decreases self.active@.len() - i,
        {
            if self.active[i].1 < best {
                best = self.active[i].1;
                at = i;
            }
            i = i + 1;
        }
        proof {
            lemma_id_map_at(self.active@, at as int);
            assert(self.active_view().contains_key(self.active@[0].0)) by {
                lemma_id_map_at(self.active@, 0);
            }
            assert forall|id: u64| #[trigger] self.active_view().contains_key(id) implies best <= self.active_view()[id] by {
                lemma_id_map_at(self.active@, id_index(self.active@, id));
            }
        }
        Some(VersionTimestamp::from_u64(best))
    }
}

} // verus!
