use vstd::prelude::*;
use crate::config::{GcConfig, GcStats};
use crate::keymap::{entries_map, key_index, lemma_entries_map_at};
use crate::keys::copy_bytes;
use crate::mvcc::MvccStorage;
use crate::types::{DbError, VersionTimestamp, VersionedRecord};
use crate::versions::{chain_view, chain_wf, RecordView, VersionStore};

verus! {

/// How many versions at the front of a chain may go: each of them expired
/// strictly before `horizon`, none of them the newest, and at least
/// `min_keep` versions left behind.
pub open spec fn obsolete_count(c: Seq<RecordView>, horizon: u64, min_keep: nat) -> int {
    obsolete_from(c, horizon, removal_limit(c.len(), min_keep), 0)
}

/// The most versions a chain of `len` may lose: all but `min_keep`, and
/// never the newest. In a well-formed chain the newest version is the live
/// one (a commit expires a version only when it appends the next), so it is
/// never an expired tombstone and always stays.
pub open spec fn removal_limit(len: nat, min_keep: nat) -> int {
    let keep = if min_keep > 1 { min_keep } else { 1 };
    if len > keep { len - keep } else { 0 }
}

pub open spec fn obsolete_from(c: Seq<RecordView>, horizon: u64, limit: int, i: int) -> int
    decreases limit - i,
{
    if i < 0 || i >= limit || i >= c.len() || !(c[i].2 != 0 && 0 < c[i].4 < horizon) {
        i
    } else {
        obsolete_from(c, horizon, limit, i + 1)
    }
}

pub proof fn lemma_obsolete_from(c: Seq<RecordView>, horizon: u64, limit: int, i: int)
    requires
        0 <= i <= limit,
        limit <= c.len(),
    ensures
        i <= obsolete_from(c, horizon, limit, i) <= limit,
        forall|j: int| i <= j < obsolete_from(c, horizon, limit, i) ==> (#[trigger] c[j]).2 != 0 && 0 < c[j].4 < horizon,
    decreases limit - i,
{
    if i < limit && c[i].2 != 0 && 0 < c[i].4 < horizon {
        lemma_obsolete_from(c, horizon, limit, i + 1);
    }
}

/// The store once GC at `horizon` has trimmed every chain.
pub open spec fn trimmed(m: Map<Seq<u8>, Seq<RecordView>>, horizon: u64, min_keep: nat) -> Map<Seq<u8>, Seq<RecordView>> {
    Map::new(|k: Seq<u8>| m.contains_key(k), |k: Seq<u8>| m[k].skip(obsolete_count(m[k], horizon, min_keep)))
}

/// The time before which expired versions may go: the oldest active
/// snapshot, or `now` less the retention window if that is earlier.
pub open spec fn gc_horizon(oldest: Option<u64>, now: u64, retention_secs: u64) -> u64 {
    let retention = if retention_secs as int * 1000000 > u64::MAX { u64::MAX as int } else { retention_secs as int * 1000000 };
    let by_time = if now as int > retention { (now - retention) as u64 } else { 0u64 };
    match oldest {
        Some(s) => if s < by_time { s } else { by_time },
        None => by_time,
    }
}

/// Entries with strictly increasing keys hold each key at one position.
pub proof fn lemma_unique_position<V>(s: Seq<(Vec<u8>, V)>, i: int, j: int)
    requires
        crate::keymap::keys_increasing(s),
        0 <= i < s.len(),
        0 <= j < s.len(),
        s[i].0@ == s[j].0@,
    ensures
        i == j,
{
    crate::keys::lemma_lex_irreflexive(s[i].0@);
    if i < j {
        assert(crate::keys::lex_lt(s[i].0@, s[j].0@));
    } else if j < i {
        assert(crate::keys::lex_lt(s[j].0@, s[i].0@));
    }
}

/// How many versions GC at `horizon` removes from the chains `s`.
pub open spec fn removed_count(s: Seq<(Vec<u8>, Vec<VersionedRecord>)>, horizon: u64, min_keep: nat) -> nat
    decreases s.len(),
{
    if s.len() == 0 {
        0
    } else {
        removed_count(s.drop_last(), horizon, min_keep) + obsolete_count(chain_view(s.last().1@), horizon, min_keep) as nat
    }
}

/// `n`, or `usize::MAX` when that is smaller.
pub open spec fn capped_count(n: nat) -> nat {
    if n > usize::MAX { usize::MAX as nat } else { n }
}

/// Removes obsolete versions from the version store, one collection at a time.
pub struct GarbageCollector {
    pub config: GcConfig,
    pub is_collecting: bool,
}

/// Removes the obsolete front of one chain; returns how many went.
fn trim_chain(chain: &mut Vec<VersionedRecord>, horizon: u64, min_keep: u32) -> (r: usize)
    ensures
        r == obsolete_count(chain_view(old(chain)@), horizon, min_keep as nat),
        chain_view(final(chain)@) == chain_view(old(chain)@).skip(r as int),
{
    let ghost c = chain_view(chain@);
    let len = chain.len();
    let keep: usize = if min_keep > 1 { min_keep as usize } else { 1 };
    let limit: usize = if len > keep { len - keep } else { 0 };
    assert(limit == removal_limit(c.len(), min_keep as nat));
    let mut i: usize = 0;
    while i < limit && chain[i].expired_tx.0 != 0 && 0 < chain[i].expired_ts.0 && chain[i].expired_ts.0 < horizon
        invariant
            i <= limit <= chain@.len(),
            c == chain_view(chain@),
            limit == removal_limit(c.len(), min_keep as nat),
            obsolete_from(c, horizon, limit as int, 0) == obsolete_from(c, horizon, limit as int, i as int),
        decreases limit - i,
    {
        assert(c[i as int] == crate::versions::record_view(chain@[i as int]));
        i = i + 1;
    }
    proof {
        if i < limit {
            assert(c[i as int] == crate::versions::record_view(chain@[i as int]));
        }
    }
    let kept = chain.split_off(i);
    let mut dropped = kept;
    std::mem::swap(chain, &mut dropped);
    assert(chain_view(chain@) =~= c.skip(i as int));
    i
}

impl GarbageCollector {
    pub fn new(config: GcConfig) -> (r: Self)
        ensures
            r.config == config,
            !r.is_collecting,
    {
        GarbageCollector { config, is_collecting: false }
    }

    /// Trims every chain of `store` at `horizon`; returns how many versions went.
    pub fn collect_store(&self, store: &mut VersionStore, horizon: u64) -> (r: usize)
        requires
            old(store).wf(),
        ensures
            final(store).wf(),
            final(store)@ == trimmed(old(store)@, horizon, self.config.min_versions_to_keep as nat),
            r == capped_count(removed_count(old(store).chains.entries@, horizon, self.config.min_versions_to_keep as nat)),
    {
        let ghost orig = store.chains.entries@;
        let n = store.chains.entries.len();
        let mut removed: usize = 0;
        let mut i: usize = 0;
        while i < n
            invariant
                store.chains.wf(),
                n == orig.len(),
                i <= n,
                store.chains.entries@.len() == n,
                crate::keymap::keys_increasing(orig),
                orig == old(store).chains.entries@,
                forall|j: int| 0 <= j < n ==> (#[trigger] store.chains.entries@[j]).0@ == orig[j].0@,
                forall|j: int| 0 <= j < i ==> chain_view((#[trigger] store.chains.entries@[j]).1@) == chain_view(orig[j].1@).skip(
                    obsolete_count(chain_view(orig[j].1@), horizon, self.config.min_versions_to_keep as nat)),
                forall|j: int| i <= j < n ==> (#[trigger] store.chains.entries@[j]).1 == orig[j].1,
                removed == capped_count(removed_count(orig.take(i as int), horizon, self.config.min_versions_to_keep as nat)),
            decreases n - i,
        {
            let key = copy_bytes(store.chains.entries[i].0.as_slice());
            let ghost before = store.chains.entries@;
            proof {
                store.chains.lemma_view_at(i as int);
            }
            let (pos, prev) = store.chains.insert(copy_bytes(key.as_slice()), Vec::new());
            proof {
                lemma_unique_position(before, i as int, pos as int);
            }
            let mut chain = match prev {
                Some(c) => c,
                None => Vec::new(),
            };
            assert(chain == orig[i as int].1);
            let gone = trim_chain(&mut chain, horizon, self.config.min_versions_to_keep);
            let ghost trimmed_chain = chain;
            let ghost middle = store.chains.entries@;
            let (pos2, _) = store.chains.insert(key, chain);
            proof {
                lemma_unique_position(middle, i as int, pos2 as int);
            }
            proof {
                let c = chain_view(orig[i as int].1@);
                lemma_obsolete_from(c, horizon, removal_limit(c.len(), self.config.min_versions_to_keep as nat), 0);
                assert(orig.take(i + 1).drop_last() =~= orig.take(i as int));
                assert(orig.take(i + 1).last() == orig[i as int]);
            }
            removed = if gone > usize::MAX - removed { usize::MAX } else { removed + gone };
            proof {
                assert(store.chains.entries@ == before.update(i as int, (key, trimmed_chain)));
            }
            i = i + 1;
        }
        proof {
            assert(orig.take(n as int) =~= orig);
            let m = trimmed(old(store)@, horizon, self.config.min_versions_to_keep as nat);
            assert(old(store)@ == entries_map(orig).map_values(|c: Vec<VersionedRecord>| chain_view(c@)));
            assert(store@ =~= m) by {
                assert forall|k: Seq<u8>| #[trigger] store@.contains_key(k) == m.contains_key(k) by {
                    if store@.contains_key(k) {
                        let j = key_index(store.chains.entries@, k);
                        assert(orig[j].0@ == k);
                    }
                    if m.contains_key(k) {
                        let j = key_index(orig, k);
                        assert(store.chains.entries@[j].0@ == k);
                    }
                }
                assert forall|k: Seq<u8>| #[trigger] store@.contains_key(k) implies store@[k] == m[k] by {
                    let j = key_index(store.chains.entries@, k);
                    lemma_entries_map_at(store.chains.entries@, j);
                    assert(orig[j].0@ == k);
                    lemma_entries_map_at(orig, j);
                }
            }
            assert forall|k: Seq<u8>| #[trigger] store@.contains_key(k) implies chain_wf(store@[k]) by {
                let c = old(store)@[k];
                assert(old(store)@.contains_key(k));
                assert(chain_wf(c));
                let r = obsolete_count(c, horizon, self.config.min_versions_to_keep as nat);
                lemma_obsolete_from(c, horizon, removal_limit(c.len(), self.config.min_versions_to_keep as nat), 0);
                let d = c.skip(r);
                assert(d.len() > 0 ==> d.last() == c.last());
                assert forall|a: int, b: int| 0 <= a < b < d.len() implies (#[trigger] d[a]).3 < (#[trigger] d[b]).3 by {
                    assert(d[a] == c[a + r] && d[b] == c[b + r]);
                }
                assert forall|a: int| 0 <= a < d.len() - 1 implies (#[trigger] d[a]).2 != 0 && d[a].4 == d[a + 1].3 by {
                    assert(d[a] == c[a + r] && d[a + 1] == c[a + 1 + r]);
                }
                assert forall|a: int| 0 <= a < d.len() implies (#[trigger] d[a]).3 > 0 && d[a].1 != 0 by {
                    assert(d[a] == c[a + r]);
                }
            }
        }
        removed
    }

    /// One collection at time `now`: versions that expired before the oldest
    /// active snapshot and before the retention window are removed, keeping
    /// each chain's newest version and at least `min_versions_to_keep`.
    pub fn collect_at(&mut self, mvcc: &mut MvccStorage, now: u64) -> (r: Result<GcStats, DbError>)
        requires
            old(mvcc).wf(),
        ensures
            final(mvcc).wf(),
            final(mvcc).lsm == old(mvcc).lsm,
            final(mvcc).txm == old(mvcc).txm,
            old(self).is_collecting ==> (r matches Err(e) && e is GarbageCollection) && *final(mvcc) == *old(mvcc),
            !old(self).is_collecting ==> r is Ok,
            r is Ok ==> final(mvcc).versions@ == trimmed(
                old(mvcc).versions@,
                gc_horizon(oldest_snapshot(old(mvcc).txm.active_view()), now, old(self).config.version_retention_secs),
                old(self).config.min_versions_to_keep as nat,
            ),
            r matches Ok(st) ==> st.versions_removed == capped_count(removed_count(
                old(mvcc).versions.chains.entries@,
                gc_horizon(oldest_snapshot(old(mvcc).txm.active_view()), now, old(self).config.version_retention_secs),
                old(self).config.min_versions_to_keep as nat,
            )),
            final(self).config == old(self).config,
            final(self).is_collecting == old(self).is_collecting,
    {
        if self.is_collecting {
            return Err(DbError::GarbageCollection("garbage collection already in progress".to_string()));
        }
        self.is_collecting = true;
        let oldest = mvcc.get_oldest_snapshot_timestamp();
        let secs = self.config.version_retention_secs;
        let retention: u64 = if secs > u64::MAX / 1000000 { u64::MAX } else { secs * 1000000 };
        let by_time: u64 = if now > retention { now - retention } else { 0 };
        let horizon = match oldest {
            Some(s) => if s.0 < by_time { s.0 } else { by_time },
            None => by_time,
        };
        proof {
            if secs > u64::MAX / 1000000 {
                assert(secs as int * 1000000 > u64::MAX) by (nonlinear_arith)
                    requires
                        secs > u64::MAX / 1000000,
                ;
            }
            lemma_oldest_snapshot(mvcc.txm.active_view(), oldest);
        }
        let ghost before = mvcc.versions@;
        let removed = self.collect_store(&mut mvcc.versions, horizon);
        proof {
            assert forall|k: Seq<u8>, i: int| #[trigger] mvcc.versions@.contains_key(k) && 0 <= i < mvcc.versions@[k].len()
                implies #[trigger] mvcc.versions@[k][i].3 <= mvcc.txm.latest_commit_ts && mvcc.versions@[k][i].1 < mvcc.txm.next_tx_id by {
                let c = before[k];
                let r = obsolete_count(c, horizon, self.config.min_versions_to_keep as nat);
                lemma_obsolete_from(c, horizon, removal_limit(c.len(), self.config.min_versions_to_keep as nat), 0);
                assert(mvcc.versions@[k][i] == c[i + r]);
            }
        }
        self.is_collecting = false;
        Ok(GcStats { versions_removed: removed, space_reclaimed: 0, duration_ms: 0 })
    }

    /// One collection now.
    pub fn run_garbage_collection(&mut self, mvcc: &mut MvccStorage) -> (r: Result<GcStats, DbError>)
        requires
            old(mvcc).wf(),
        ensures
            final(mvcc).wf(),
            final(mvcc).lsm == old(mvcc).lsm,
            final(mvcc).txm == old(mvcc).txm,
            old(self).is_collecting ==> r is Err && *final(mvcc) == *old(mvcc),
            !old(self).is_collecting ==> r is Ok,
            r matches Ok(st) ==> exists|now: u64| #![trigger gc_horizon(oldest_snapshot(old(mvcc).txm.active_view()), now, old(self).config.version_retention_secs)] {
                &&& final(mvcc).versions@ == trimmed(old(mvcc).versions@,
                    gc_horizon(oldest_snapshot(old(mvcc).txm.active_view()), now, old(self).config.version_retention_secs),
                    old(self).config.min_versions_to_keep as nat)
                &&& st.versions_removed == capped_count(removed_count(old(mvcc).versions.chains.entries@,
                    gc_horizon(oldest_snapshot(old(mvcc).txm.active_view()), now, old(self).config.version_retention_secs),
                    old(self).config.min_versions_to_keep as nat))
            },
            final(self).config == old(self).config,
            final(self).is_collecting == old(self).is_collecting,
    {
        let now = VersionTimestamp::now().as_u64();
        self.collect_at(mvcc, now)
    }
}

/// The smallest snapshot among active transactions, if any is active.
pub open spec fn oldest_snapshot(active: Map<u64, u64>) -> Option<u64> {
    if active.dom() == Set::<u64>::empty() {
        None
    } else {
        Some(active[choose|id: u64| #[trigger] active.contains_key(id) && forall|j: u64| #[trigger] active.contains_key(j) ==> active[id] <= active[j]])
    }
}

pub proof fn lemma_oldest_snapshot(active: Map<u64, u64>, r: Option<VersionTimestamp>)
    requires
        r is None <==> active.dom() == Set::<u64>::empty(),
        r matches Some(t) ==> (exists|id: u64| #[trigger] active.contains_key(id) && active[id] == t.0),
        r matches Some(t) ==> forall|id: u64| #[trigger] active.contains_key(id) ==> t.0 <= active[id],
    ensures
        oldest_snapshot(active) == (match r {
            Some(t) => Some(t.0),
            None => None::<u64>,
        }),
{
    if let Some(t) = r {
        let w = choose|id: u64| #[trigger] active.contains_key(id) && active[id] == t.0;
        assert(active.contains_key(w) && forall|j: u64| #[trigger] active.contains_key(j) ==> active[w] <= active[j]);
        let c = choose|id: u64| #[trigger] active.contains_key(id) && forall|j: u64| #[trigger] active.contains_key(j) ==> active[id] <= active[j];
        assert(active[c] <= active[w]);
        assert(active[w] <= active[c]);
    }
}

} // verus!
