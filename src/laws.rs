//! Properties that relate several operations, stated over the models that
//! the operations' own contracts use, and proved.
use vstd::prelude::*;
use crate::codec::{lemma_log_bytes_split, log_bytes, log_prefix_of, wal_entry_bytes, WalEntryView};
use crate::compaction::merged_view;
use crate::gc::{gc_horizon, obsolete_count, lemma_obsolete_from, oldest_snapshot, removal_limit};
use crate::keymap::{bytes_view, with_prefix};
use crate::keys::has_prefix;
use crate::lsm::{batch_view, fold_entries, LsmStorage};
use crate::mvcc::{value_read, MvccStorage};
use crate::sstable::{lemma_runs_from_shift, runs_from, SSTable};
use crate::txn::{id_index, id_map, ids_unique, lemma_id_map_at, TransactionManager};
use crate::types::Transaction;
use crate::versions::{chain_or_empty, chain_wf, committed_chain, sees, store_after_commit, RecordView};

verus! {

/// After a successful `put(k, v)` with a non-empty `v`, `get(k)` returns `v`.
pub proof fn law_put_then_get(before: LsmStorage, after: LsmStorage, k: Seq<u8>, v: Seq<u8>)
    requires
        after.contents() == before.contents().insert(k, v),
        v.len() > 0,
    ensures
        after.read(k) == Some(v),
{
}

/// A write to another key leaves the read of `k` as it was, so a put stays
/// visible until a later write to its own key.
pub proof fn law_other_write_keeps_read(before: LsmStorage, after: LsmStorage, k2: Seq<u8>, v2: Seq<u8>, k: Seq<u8>)
    requires
        after.contents() == before.contents().insert(k2, v2),
        k2 != k,
    ensures
        after.read(k) == before.read(k),
{
}

/// After a successful `delete(k)`, `get(k)` returns nothing.
pub proof fn law_delete_then_get(before: LsmStorage, after: LsmStorage, k: Seq<u8>)
    requires
        after.contents() == before.contents().insert(k, Seq::empty()),
    ensures
        after.read(k) is None,
{
}

/// A scan for `prefix` holds `k` exactly when `k` starts with `prefix` and
/// is live, and then with the value a read of `k` returns.
pub proof fn law_scan_membership(s: LsmStorage, prefix: Seq<u8>, result: Seq<(Vec<u8>, Vec<u8>)>, k: Seq<u8>)
    requires
        bytes_view(result) == with_prefix(s.live(), prefix),
    ensures
        bytes_view(result).contains_key(k) <==> has_prefix(k, prefix) && s.read(k) is Some,
        bytes_view(result).contains_key(k) ==> s.read(k) == Some(bytes_view(result)[k]),
{
}

/// Writing the same pair twice leaves the engine as writing it once.
pub proof fn law_put_idempotent(m: Map<Seq<u8>, Seq<u8>>, k: Seq<u8>, v: Seq<u8>)
    ensures
        m.insert(k, v).insert(k, v) == m.insert(k, v),
{
    assert(m.insert(k, v).insert(k, v) =~= m.insert(k, v));
}

/// A flush is atomic for readers: every read answers the same before and
/// after, and whatever the memtable held is in the new run.
pub proof fn law_flush_keeps_reads(before: LsmStorage, after: LsmStorage, k: Seq<u8>)
    requires
        after.memtable@ == Map::<Seq<u8>, Seq<u8>>::empty(),
        after.catalog.runs@.len() == before.catalog.runs@.len() + 1,
        after.catalog.runs@[0]@ == before.memtable@,
        after.catalog.runs@.skip(1) == before.catalog.runs@,
    ensures
        after.read(k) == before.read(k),
        before.memtable@.contains_key(k) ==> after.catalog.runs@[0]@.contains_key(k),
{
    let rs = before.catalog.runs@;
    let ts = after.catalog.runs@;
    assert forall|j: int| 0 <= j < rs.len() implies ts[j + 1] == rs[j] by {
        assert(ts.skip(1)[j] == ts[j + 1]);
    }
    lemma_runs_from_shift(rs, ts, 0);
    assert(after.contents() =~= before.contents());
}

/// The newest run of a window that holds `k` decides its merged value.
proof fn lemma_runs_from_first(w: Seq<SSTable>, i: int, k: Seq<u8>) -> (j: int)
    requires
        0 <= i < w.len(),
        w[i]@.contains_key(k),
    ensures
        0 <= j <= i,
        w[j]@.contains_key(k),
        runs_from(w, 0).contains_key(k),
        runs_from(w, 0)[k] == w[j]@[k],
    decreases i,
{
    lemma_runs_from_first_at(w, 0, i, k)
}

proof fn lemma_runs_from_first_at(w: Seq<SSTable>, from: int, i: int, k: Seq<u8>) -> (j: int)
    requires
        0 <= from <= i < w.len(),
        w[i]@.contains_key(k),
    ensures
        from <= j <= i,
        w[j]@.contains_key(k),
        runs_from(w, from).contains_key(k),
        runs_from(w, from)[k] == w[j]@[k],
    decreases i - from,
{
    if w[from]@.contains_key(k) {
        from
    } else {
        lemma_runs_from_first_at(w, from + 1, i, k)
    }
}

/// Compaction keeps values: for every live entry of an input run, the merged
/// run holds that key with the value of the same or a newer input run.
pub proof fn law_merge_keeps_newest(rs: Seq<SSTable>, start: int, end: int, bottom: bool, i: int, k: Seq<u8>) -> (j: int)
    requires
        0 <= start <= i < end <= rs.len(),
        rs[i]@.contains_key(k),
        rs[i]@[k].len() > 0,
    ensures
        start <= j <= i,
        rs[j]@.contains_key(k),
        merged_view(rs, start, end, bottom).contains_key(k) || rs[j]@[k].len() == 0,
        merged_view(rs, start, end, bottom).contains_key(k) ==> merged_view(rs, start, end, bottom)[k] == rs[j]@[k],
{
    let w = rs.subrange(start, end);
    assert(w[i - start] == rs[i]);
    let j0 = lemma_runs_from_first(w, i - start, k);
    assert(w[j0] == rs[j0 + start]);
    j0 + start
}

/// Once `tx` has committed, a transaction begun right after it reads each of
/// `tx`'s writes (nothing for a delete).
pub proof fn law_commit_visible(before: MvccStorage, after: MvccStorage, tx: Transaction, ts: u64, reader: Transaction, k: Seq<u8>)
    requires
        after.wf(),
        MvccStorage::commit_effect(before, after, tx, ts),
        MvccStorage::begun_on(after, reader),
        batch_view(tx.writes@).contains_key(k),
    ensures
        after.read_for(&reader, k) == value_read(batch_view(tx.writes@)[k]),
{
    let c = chain_or_empty(before.versions@, k);
    let v = batch_view(tx.writes@)[k];
    let d = committed_chain(c, v, tx.id.0, ts);
    assert(after.versions@.contains_key(k));
    assert(after.versions@[k] == d);
    assert(chain_or_empty(after.versions@, k) == d);
    let last = d.len() - 1;
    assert(d[last] == (v, tx.id.0, 0u64, ts, 0u64));
    assert(after.versions@[k][last].1 < after.txm.next_tx_id);
    assert(!reader.writes_view().contains_key(k));
    assert(sees(d.last(), reader.id.0, reader.snapshot_ts.0));
}

/// A snapshot sees a version of a well-formed chain exactly when the version
/// was created at or before the snapshot and had not expired by then.
pub proof fn law_snapshot_visibility(c: Seq<RecordView>, i: int, tx: u64, s: u64)
    requires
        chain_wf(c),
        0 <= i < c.len(),
        c[i].1 != tx,
    ensures
        sees(c[i], tx, s) <==> (c[i].3 <= s && (c[i].4 == 0 || c[i].4 > s)),
{
    if i < c.len() - 1 {
        assert(c[i].4 == c[i + 1].3);
        assert(c[i + 1].3 > 0);
    }
}

/// A snapshot sees at most one version of each key.
pub proof fn law_one_visible_version(c: Seq<RecordView>, i: int, j: int, tx: u64, s: u64)
    requires
        chain_wf(c),
        0 <= i < c.len(),
        0 <= j < c.len(),
        sees(c[i], tx, s),
        sees(c[j], tx, s),
    ensures
        i == j,
{
    if i < j {
        assert(c[i].4 == c[i + 1].3);
        if i + 1 < j {
            assert(c[i + 1].3 < c[j].3);
        }
    } else if j < i {
        assert(c[j].4 == c[j + 1].3);
        if j + 1 < i {
            assert(c[j + 1].3 < c[i].3);
        }
    }
}

/// GC leaves every chain at least `min_keep` versions long, or untouched if
/// it was shorter, and never removes the newest version.
pub proof fn law_gc_keeps_min_versions(c: Seq<RecordView>, horizon: u64, min_keep: nat)
    ensures
        c.len() >= min_keep ==> c.skip(obsolete_count(c, horizon, min_keep)).len() >= min_keep,
        c.len() < min_keep ==> c.skip(obsolete_count(c, horizon, min_keep)) == c,
        c.len() > 0 ==> c.skip(obsolete_count(c, horizon, min_keep)).len() > 0,
{
    let limit = removal_limit(c.len(), min_keep);
    lemma_obsolete_from(c, horizon, limit, 0);
    if c.len() < min_keep {
        assert(c.skip(0) =~= c);
    }
}

/// The smallest snapshot among the active transactions of a manager.
proof fn lemma_min_snapshot(s: Seq<(u64, u64)>) -> (i: int)
    requires
        s.len() > 0,
    ensures
        0 <= i < s.len(),
        forall|j: int| 0 <= j < s.len() ==> s[i].1 <= #[trigger] s[j].1,
    decreases s.len(),
{
    if s.len() == 1 {
        0
    } else {
        let i0 = lemma_min_snapshot(s.drop_last());
        assert(forall|j: int| 0 <= j < s.len() - 1 ==> s.drop_last()[j] == s[j]);
        if s[i0].1 <= s.last().1 {
            i0
        } else {
            s.len() - 1
        }
    }
}

proof fn lemma_oldest_le(s: Seq<(u64, u64)>, id: u64)
    requires
        ids_unique(s),
        id_map(s).contains_key(id),
    ensures
        oldest_snapshot(id_map(s)) is Some,
        oldest_snapshot(id_map(s))->0 <= id_map(s)[id],
{
    let a = id_map(s);
    let m = lemma_min_snapshot(s);
    lemma_id_map_at(s, m);
    assert(a.dom() != Set::<u64>::empty()) by {
        assert(a.dom().contains(id));
    }
    assert forall|j: u64| #[trigger] a.contains_key(j) implies a[s[m].0] <= a[j] by {
        let x = id_index(s, j);
        lemma_id_map_at(s, x);
    }
    let o = choose|x: u64| #[trigger] a.contains_key(x) && forall|j: u64| #[trigger] a.contains_key(j) ==> a[x] <= a[j];
    assert(a.contains_key(o) && forall|j: u64| #[trigger] a.contains_key(j) ==> a[o] <= a[j]);
    assert(a[o] <= a[id]);
}

/// No version that GC removes was visible to an active transaction.
pub proof fn law_gc_spares_active(
    txm: TransactionManager,
    c: Seq<RecordView>,
    now: u64,
    retention_secs: u64,
    min_keep: nat,
    id: u64,
    i: int,
)
    requires
        txm.wf(),
        txm.active_view().contains_key(id),
        0 <= i < obsolete_count(c, gc_horizon(oldest_snapshot(txm.active_view()), now, retention_secs), min_keep),
    ensures
        !sees(c[i], id, txm.active_view()[id]),
{
    let horizon = gc_horizon(oldest_snapshot(txm.active_view()), now, retention_secs);
    lemma_obsolete_from(c, horizon, removal_limit(c.len(), min_keep), 0);
    lemma_oldest_le(txm.active@, id);
}

/// With the log holding exactly `es`, replay returns `es`.
pub proof fn lemma_replay_exact(b: Seq<u8>, es: Seq<WalEntryView>, rs: Seq<WalEntryView>)
    requires
        b == log_bytes(es),
        log_prefix_of(rs, b),
        es.len() <= rs.len() && es == rs.take(es.len() as int),
    ensures
        rs == es,
{
    lemma_log_bytes_split(rs, es.len() as int);
    let rest = rs.skip(es.len() as int);
    if rest.len() > 0 {
        assert(log_bytes(rest) == wal_entry_bytes(rest[0]) + log_bytes(rest.drop_first()));
        assert(wal_entry_bytes(rest[0]).len() >= 16);
    }
    assert(rs =~= es);
}

/// The latest write of `k` among `es`.
pub open spec fn last_write(es: Seq<WalEntryView>, k: Seq<u8>) -> Option<Seq<u8>>
    decreases es.len(),
{
    if es.len() == 0 {
        None
    } else if es.last().0 == k {
        Some(es.last().1)
    } else {
        last_write(es.drop_last(), k)
    }
}

proof fn lemma_fold_entries(es: Seq<WalEntryView>, k: Seq<u8>)
    ensures
        fold_entries(Map::empty(), es).contains_key(k) <==> last_write(es, k) is Some,
        last_write(es, k) matches Some(v) ==> fold_entries(Map::empty(), es)[k] == v,
    decreases es.len(),
{
    if es.len() > 0 {
        lemma_fold_entries(es.drop_last(), k);
    }
}

/// Crash safety: a log that holds the writes `es` in full, replayed into an
/// empty engine, reads back for every key the value of its last write.
pub proof fn law_recovery_reads_last_put(b: Seq<u8>, es: Seq<WalEntryView>, replayed: Seq<WalEntryView>, recovered: LsmStorage, k: Seq<u8>)
    requires
        b == log_bytes(es),
        log_prefix_of(replayed, b),
        forall|xs: Seq<WalEntryView>| #[trigger] log_prefix_of(xs, b) ==> xs.len() <= replayed.len() && xs == replayed.take(xs.len() as int),
        recovered.contents() == fold_entries(Map::empty(), replayed),
    ensures
        recovered.read(k) == (match last_write(es, k) {
            Some(v) => value_read(v),
            None => None,
        }),
{
    assert(log_prefix_of(es, b)) by {
        assert(b.take(b.len() as int) =~= b);
    }
    lemma_replay_exact(b, es, replayed);
    lemma_fold_entries(es, k);
}

/// Commits of two transactions whose write sets share no key leave every
/// key's newest version with the same value in either order.
pub proof fn law_disjoint_commits_same_newest(
    m: Map<Seq<u8>, Seq<RecordView>>,
    a: Map<Seq<u8>, Seq<u8>>,
    b: Map<Seq<u8>, Seq<u8>>,
    ta: u64,
    tb: u64,
    s1: u64,
    s2: u64,
    u1: u64,
    u2: u64,
    k: Seq<u8>,
)
    requires
        forall|x: Seq<u8>| !(#[trigger] a.contains_key(x) && b.contains_key(x)),
    ensures
        ({
            let ab = store_after_commit(store_after_commit(m, a, ta, s1), b, tb, s2);
            let ba = store_after_commit(store_after_commit(m, b, tb, u1), a, ta, u2);
            &&& ab.contains_key(k) == ba.contains_key(k)
            &&& (a.contains_key(k) || b.contains_key(k)) ==> ab[k].last().0 == ba[k].last().0
            &&& !(a.contains_key(k) || b.contains_key(k)) && ab.contains_key(k) ==> ab[k] == ba[k]
        }),
{
    let ab1 = store_after_commit(m, a, ta, s1);
    let ba1 = store_after_commit(m, b, tb, u1);
    if a.contains_key(k) {
        assert(!b.contains_key(k));
        assert(store_after_commit(ab1, b, tb, s2)[k] == ab1[k]);
        assert(store_after_commit(ba1, a, ta, u2)[k] == committed_chain(chain_or_empty(ba1, k), a[k], ta, u2));
    } else if b.contains_key(k) {
        assert(store_after_commit(ba1, a, ta, u2)[k] == ba1[k]);
    }
}

/// Commits of two transactions whose write sets share no key leave the LSM
/// engine the same in either order.
pub proof fn law_disjoint_commits_commute(m: Map<Seq<u8>, Seq<u8>>, t1: Transaction, t2: Transaction)
    requires
        forall|k: Seq<u8>| !(#[trigger] t1.writes@.contains_key(k) && t2.writes@.contains_key(k)),
    ensures
        m.union_prefer_right(batch_view(t1.writes@)).union_prefer_right(batch_view(t2.writes@))
            == m.union_prefer_right(batch_view(t2.writes@)).union_prefer_right(batch_view(t1.writes@)),
{
    let a = batch_view(t1.writes@);
    let b = batch_view(t2.writes@);
    assert(m.union_prefer_right(a).union_prefer_right(b) =~= m.union_prefer_right(b).union_prefer_right(a));
}

} // verus!

verus! {

/// After a successful `put(k, v)` with a non-empty `v`, every later state
/// reached by steps that each leave the read of `k` as it was (a flush, a
/// compaction, a write of another key) still reads `v` for `k`.
pub proof fn law_put_read_until_rewrite(states: Seq<LsmStorage>, k: Seq<u8>, v: Seq<u8>)
    requires
        states.len() >= 2,
        states[1].contents() == states[0].contents().insert(k, v),
        v.len() > 0,
        forall|i: int| 1 <= i < states.len() - 1 ==> (#[trigger] states[i + 1]).read(k) == states[i].read(k),
    ensures
        states.last().read(k) == Some(v),
    decreases states.len(),
{
    if states.len() > 2 {
        let shorter = states.drop_last();
        assert forall|i: int| 1 <= i < shorter.len() - 1 implies (#[trigger] shorter[i + 1]).read(k) == shorter[i].read(k) by {
            assert(shorter[i + 1] == states[i + 1] && shorter[i] == states[i]);
        }
        law_put_read_until_rewrite(shorter, k, v);
        let j = states.len() - 2;
        assert(states[j + 1].read(k) == states[j].read(k));
        assert(shorter.last() == states[j]);
    }
}

/// After a successful `delete(k)`, every later state reached by steps that
/// each leave the read of `k` as it was still reads nothing for `k`.
pub proof fn law_delete_read_until_rewrite(states: Seq<LsmStorage>, k: Seq<u8>)
    requires
        states.len() >= 2,
        states[1].contents() == states[0].contents().insert(k, Seq::empty()),
        forall|i: int| 1 <= i < states.len() - 1 ==> (#[trigger] states[i + 1]).read(k) == states[i].read(k),
    ensures
        states.last().read(k) is None,
    decreases states.len(),
{
    if states.len() > 2 {
        let shorter = states.drop_last();
        assert forall|i: int| 1 <= i < shorter.len() - 1 implies (#[trigger] shorter[i + 1]).read(k) == shorter[i].read(k) by {
            assert(shorter[i + 1] == states[i + 1] && shorter[i] == states[i]);
        }
        law_delete_read_until_rewrite(shorter, k);
        let j = states.len() - 2;
        assert(states[j + 1].read(k) == states[j].read(k));
        assert(shorter.last() == states[j]);
    }
}

/// A transaction begun on a well-formed state reads, for a key it has not
/// written, the value of the key's newest version.
pub proof fn lemma_reader_sees_newest(s: MvccStorage, reader: Transaction, k: Seq<u8>)
    requires
        s.wf(),
        MvccStorage::begun_on(s, reader),
    ensures
        s.read_for(&reader, k) == (if chain_or_empty(s.versions@, k).len() > 0 {
            value_read(chain_or_empty(s.versions@, k).last().0)
        } else {
            None
        }),
{
    let c = chain_or_empty(s.versions@, k);
    assert(!reader.writes_view().contains_key(k));
    if c.len() > 0 {
        assert(s.versions@.contains_key(k));
        assert(chain_wf(c));
        let n = c.len() - 1;
        assert(c[n].3 <= s.txm.latest_commit_ts && c[n].1 < s.txm.next_tx_id);
        assert(sees(c.last(), reader.id.0, reader.snapshot_ts.0));
    }
}

/// Two transactions whose write sets share no key, committed in either
/// order, leave the same LSM contents, and every transaction begun
/// afterwards reads the same for every key.
pub proof fn law_disjoint_commits_order_free(
    s0: MvccStorage,
    s1: MvccStorage,
    s2: MvccStorage,
    u1: MvccStorage,
    u2: MvccStorage,
    t1: Transaction,
    t2: Transaction,
    c1: u64,
    c2: u64,
    d2: u64,
    d1: u64,
    r: Transaction,
    q: Transaction,
    k: Seq<u8>,
)
    requires
        forall|x: Seq<u8>| !(#[trigger] t1.writes@.contains_key(x) && t2.writes@.contains_key(x)),
        MvccStorage::commit_effect(s0, s1, t1, c1),
        MvccStorage::commit_effect(s1, s2, t2, c2),
        MvccStorage::commit_effect(s0, u1, t2, d2),
        MvccStorage::commit_effect(u1, u2, t1, d1),
        s2.wf(),
        u2.wf(),
        MvccStorage::begun_on(s2, r),
        MvccStorage::begun_on(u2, q),
    ensures
        s2.lsm.contents() == u2.lsm.contents(),
        s2.read_for(&r, k) == u2.read_for(&q, k),
{
    let a = batch_view(t1.writes@);
    let b = batch_view(t2.writes@);
    law_disjoint_commits_commute(s0.lsm.contents(), t1, t2);
    assert forall|x: Seq<u8>| !(#[trigger] a.contains_key(x) && b.contains_key(x)) by {
        if a.contains_key(x) {
            assert(t1.writes@.contains_key(x));
        }
        if b.contains_key(x) {
            assert(t2.writes@.contains_key(x));
        }
    }
    law_disjoint_commits_same_newest(s0.versions@, a, b, t1.id.0, t2.id.0, c1, c2, d2, d1, k);
    lemma_reader_sees_newest(s2, r, k);
    lemma_reader_sees_newest(u2, q, k);
    let ab = store_after_commit(store_after_commit(s0.versions@, a, t1.id.0, c1), b, t2.id.0, c2);
    let ba = store_after_commit(store_after_commit(s0.versions@, b, t2.id.0, d2), a, t1.id.0, d1);
    assert(s2.versions@ == ab);
    assert(u2.versions@ == ba);
    if a.contains_key(k) || b.contains_key(k) {
        assert(ab.contains_key(k) && ba.contains_key(k));
        assert(ab[k].len() > 0 && ba[k].len() > 0);
    }
}

} // verus!

verus! {

proof fn lemma_chain_kept(states: Seq<MvccStorage>, txs: Seq<Transaction>, tss: Seq<u64>, k: Seq<u8>, i: int)
    requires
        0 <= i < states.len(),
        txs.len() == states.len() - 1,
        tss.len() == states.len() - 1,
        forall|j: int| 0 <= j < states.len() - 1 ==> MvccStorage::commit_effect(states[j], #[trigger] states[j + 1], txs[j], tss[j])
            && !batch_view(txs[j].writes@).contains_key(k),
    ensures
        chain_or_empty(states[i].versions@, k) == chain_or_empty(states[0].versions@, k),
    decreases i,
{
    if i > 0 {
        lemma_chain_kept(states, txs, tss, k, i - 1);
        let j = i - 1;
        assert(MvccStorage::commit_effect(states[j], states[j + 1], txs[j], tss[j]));
    }
}

/// Once `tx` has committed, a transaction begun after any number of later
/// commits that do not write `k` reads `tx`'s write of `k`.
pub proof fn law_commit_visible_later(
    before: MvccStorage,
    tx: Transaction,
    ts: u64,
    states: Seq<MvccStorage>,
    txs: Seq<Transaction>,
    tss: Seq<u64>,
    reader: Transaction,
    k: Seq<u8>,
)
    requires
        states.len() >= 1,
        MvccStorage::commit_effect(before, states[0], tx, ts),
        batch_view(tx.writes@).contains_key(k),
        txs.len() == states.len() - 1,
        tss.len() == states.len() - 1,
        forall|j: int| 0 <= j < states.len() - 1 ==> MvccStorage::commit_effect(states[j], #[trigger] states[j + 1], txs[j], tss[j])
            && !batch_view(txs[j].writes@).contains_key(k),
        states.last().wf(),
        MvccStorage::begun_on(states.last(), reader),
    ensures
        states.last().read_for(&reader, k) == value_read(batch_view(tx.writes@)[k]),
{
    let n = states.len() - 1;
    lemma_chain_kept(states, txs, tss, k, n);
    let c = chain_or_empty(before.versions@, k);
    let v = batch_view(tx.writes@)[k];
    assert(states[0].versions@.contains_key(k));
    assert(chain_or_empty(states[0].versions@, k) == committed_chain(c, v, tx.id.0, ts));
    lemma_reader_sees_newest(states[n], reader, k);
}

} // verus!

verus! {

/// A second successful `put(k, v)` right after the first leaves every read
/// and every scan as the first alone did.
pub proof fn law_put_twice_reads_same(before: LsmStorage, once: LsmStorage, twice: LsmStorage, k: Seq<u8>, v: Seq<u8>)
    requires
        once.contents() == before.contents().insert(k, v),
        twice.contents() == once.contents().insert(k, v),
    ensures
        twice.contents() == once.contents(),
        forall|j: Seq<u8>| #[trigger] twice.read(j) == once.read(j),
        forall|p: Seq<u8>| #[trigger] with_prefix(twice.live(), p) == with_prefix(once.live(), p),
{
    assert(once.contents().insert(k, v) =~= once.contents());
}

} // verus!
