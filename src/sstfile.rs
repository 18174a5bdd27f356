//! The file format of a sorted run: its key/value records in key order, then
//! a footer with the key range, the record count, the level, the creation
//! time, and where the footer starts.
use vstd::prelude::*;
use crate::codec::{decode_pair, encode_pair, lemma_u64_le_injective, pair_bytes, push_u64, read_u64, u64_le};
use crate::keymap::{bytes_view, keys_increasing, KeyMap};
use crate::keys::{compare_keys, lex_lt};
use crate::memtable::entries_size;
use crate::sstable::SSTable;

verus! {

/// A record as plain values.
pub type PairView = (Seq<u8>, Seq<u8>);

pub open spec fn entry_views(s: Seq<(Vec<u8>, Vec<u8>)>) -> Seq<PairView> {
    s.map_values(|e: (Vec<u8>, Vec<u8>)| (e.0@, e.1@))
}

/// The bytes of records `es`, one after another.
pub open spec fn pairs_bytes(es: Seq<PairView>) -> Seq<u8>
    decreases es.len(),
{
    if es.len() == 0 {
        Seq::empty()
    } else {
        pair_bytes(es[0].0, es[0].1) + pairs_bytes(es.drop_first())
    }
}

/// The bytes of a run's file.
pub open spec fn run_bytes(t: SSTable) -> Seq<u8> {
    let es = entry_views(t.data.entries@);
    let recs = pairs_bytes(es);
    let smallest = if es.len() > 0 { es[0].0 } else { Seq::empty() };
    let largest = if es.len() > 0 { es.last().0 } else { Seq::empty() };
    recs + pair_bytes(smallest, largest) + u64_le(es.len() as u64) + u64_le(t.level as u64) + u64_le(t.created_ts)
        + u64_le(recs.len() as u64)
}

pub proof fn lemma_pairs_bytes_split(es: Seq<PairView>, j: int)
    requires
        0 <= j <= es.len(),
    ensures
        pairs_bytes(es) == pairs_bytes(es.take(j)) + pairs_bytes(es.skip(j)),
    decreases j,
{
    if j == 0 {
        assert(es.take(0) =~= Seq::<PairView>::empty());
        assert(es.skip(0) =~= es);
        assert(pairs_bytes(es.take(0)) + pairs_bytes(es) =~= pairs_bytes(es));
    } else {
        lemma_pairs_bytes_split(es.drop_first(), j - 1);
        assert(es.drop_first().take(j - 1) =~= es.take(j).drop_first());
        assert(es.drop_first().skip(j - 1) =~= es.skip(j));
        assert(es.take(j)[0] == es[0]);
        assert(pairs_bytes(es) =~= pairs_bytes(es.take(j)) + pairs_bytes(es.skip(j)));
    }
}

pub proof fn lemma_pairs_bytes_push(es: Seq<PairView>, e: PairView)
    ensures
        pairs_bytes(es.push(e)) == pairs_bytes(es) + pair_bytes(e.0, e.1),
{
    let t = es.push(e);
    lemma_pairs_bytes_split(t, es.len() as int);
    assert(t.take(es.len() as int) =~= es);
    assert(t.skip(es.len() as int) =~= seq![e]);
    assert(seq![e].drop_first() =~= Seq::<PairView>::empty());
    assert(seq![e][0] == e);
    assert(pairs_bytes(Seq::<PairView>::empty()) =~= Seq::<u8>::empty());
    assert(pairs_bytes(seq![e]) =~= pair_bytes(e.0, e.1));
}

/// Runs whose records agree as plain values hold the same map and size.
pub proof fn lemma_same_views(s: Seq<(Vec<u8>, Vec<u8>)>, t: Seq<(Vec<u8>, Vec<u8>)>)
    requires
        entry_views(s) == entry_views(t),
        keys_increasing(t),
    ensures
        keys_increasing(s),
        bytes_view(s) == bytes_view(t),
        entries_size(s) == entries_size(t),
    decreases s.len(),
{
    assert(s.len() == entry_views(s).len());
    assert forall|i: int| 0 <= i < s.len() implies s[i].0@ == t[i].0@ && s[i].1@ == t[i].1@ by {
        assert(entry_views(s)[i] == entry_views(t)[i]);
    }
    assert(keys_increasing(s)) by {
        assert forall|i: int, j: int| 0 <= i < j < s.len() implies lex_lt(#[trigger] s[i].0@, #[trigger] s[j].0@) by {
            assert(lex_lt(t[i].0@, t[j].0@));
        }
    }
    assert(bytes_view(s) =~= bytes_view(t)) by {
        assert forall|k: Seq<u8>| #[trigger] bytes_view(s).contains_key(k) == bytes_view(t).contains_key(k) by {
            if bytes_view(s).contains_key(k) {
                let i = crate::keymap::key_index(s, k);
                assert(t[i].0@ == k);
            }
            if bytes_view(t).contains_key(k) {
                let i = crate::keymap::key_index(t, k);
                assert(s[i].0@ == k);
            }
        }
        assert forall|k: Seq<u8>| #[trigger] bytes_view(s).contains_key(k) implies bytes_view(s)[k] == bytes_view(t)[k] by {
            let i = crate::keymap::key_index(s, k);
            crate::keymap::lemma_bytes_view_at(s, i);
            crate::keymap::lemma_bytes_view_at(t, i);
        }
    }
    if s.len() > 0 {
        assert(entry_views(s.drop_last()) =~= entry_views(s).drop_last());
        assert(entry_views(t.drop_last()) =~= entry_views(t).drop_last());
        assert(keys_increasing(t.drop_last())) by {
            let u = t.drop_last();
            assert forall|i: int, j: int| 0 <= i < j < u.len() implies lex_lt(#[trigger] u[i].0@, #[trigger] u[j].0@) by {
                assert(u[i] == t[i] && u[j] == t[j]);
            }
        }
        lemma_same_views(s.drop_last(), t.drop_last());
        assert(s.last().0@ == t.last().0@ && s.last().1@ == t.last().1@);
    }
}

/// Writes the file bytes of run `t`; `None` when the encoder fails.
pub fn encode_run(t: &SSTable) -> (r: Option<Vec<u8>>)
    requires
        t.wf(),
    ensures
        r is Some,
        r matches Some(b) ==> b@ == run_bytes(*t),
{
    let s = &t.data.entries;
    let mut out: Vec<u8> = Vec::new();
    let mut i: usize = 0;
    proof {
        assert(entry_views(s@).take(0) =~= Seq::<PairView>::empty());
    }
    while i < s.len()
        invariant
            i <= s@.len(),
            out@ == pairs_bytes(entry_views(s@).take(i as int)),
        decreases s@.len() - i,
    {
        if !encode_pair(&mut out, s[i].0.as_slice(), s[i].1.as_slice()) {
            return None;
        }
        proof {
            let es = entry_views(s@);
            assert(es.take(i + 1) =~= es.take(i as int).push(es[i as int]));
            lemma_pairs_bytes_push(es.take(i as int), es[i as int]);
        }
        i = i + 1;
    }
    let ghost es = entry_views(s@);
    proof {
        assert(es.take(i as int) =~= es);
    }
    let records_len = out.len() as u64;
    let empty: Vec<u8> = Vec::new();
    let ok = if s.len() > 0 {
        encode_pair(&mut out, s[0].0.as_slice(), s[s.len() - 1].0.as_slice())
    } else {
        encode_pair(&mut out, empty.as_slice(), empty.as_slice())
    };
    if !ok {
        return None;
    }
    push_u64(&mut out, s.len() as u64);
    push_u64(&mut out, t.level as u64);
    push_u64(&mut out, t.created_ts);
    push_u64(&mut out, records_len);
    proof {
        if s@.len() > 0 {
            assert(es[0].0 == s@[0].0@);
            assert(es.last().0 == s@[s@.len() - 1].0@);
        } else {
            assert(empty@ =~= Seq::<u8>::empty());
        }
        assert(out@ =~= run_bytes(*t));
    }
    Some(out)
}

/// The records of `b[..end]` are exactly `es`, or begin with it.
pub open spec fn records_extend(es: Seq<PairView>, vs: Seq<PairView>) -> bool {
    vs.len() <= es.len() && vs == es.take(vs.len() as int)
}

/// Reads the records that fill `b[..end]` exactly.
pub fn decode_records(b: &[u8], end: usize) -> (r: Option<Vec<(Vec<u8>, Vec<u8>)>>)
    requires
        end <= b@.len(),
    ensures
        r matches Some(x) ==> pairs_bytes(entry_views(x@)) == b@.subrange(0, end as int),
        forall|es: Seq<PairView>| #[trigger] pairs_bytes(es) == b@.subrange(0, end as int)
            ==> (r matches Some(x) && entry_views(x@) == es),
{
    let region = &b[0..end];
    assert(region@ =~= b@.subrange(0, end as int));
    let mut r: Vec<(Vec<u8>, Vec<u8>)> = Vec::new();
    let mut pos: usize = 0;
    proof {
        assert(entry_views(r@) =~= Seq::<PairView>::empty());
        assert(region@.subrange(0, 0) =~= Seq::<u8>::empty());
        assert forall|es: Seq<PairView>| #[trigger] pairs_bytes(es) == region@ implies records_extend(es, entry_views(r@)) by {
            assert(es.take(0) =~= entry_views(r@));
        }
    }
    while pos < end
        invariant
            pos <= end == region@.len(),
            region@ == b@.subrange(0, end as int),
            region@.subrange(0, pos as int) == pairs_bytes(entry_views(r@)),
            forall|es: Seq<PairView>| #[trigger] pairs_bytes(es) == region@ ==> records_extend(es, entry_views(r@)),
        decreases end - pos,
    {
        let ghost vs = entry_views(r@);
        let next = decode_pair(region, pos);
        proof {
            assert forall|es: Seq<PairView>| #[trigger] pairs_bytes(es) == region@ implies es.len() > vs.len()
                && (next matches Some(x) && x.0@ == es[vs.len() as int].0 && x.1@ == es[vs.len() as int].1) by {
                assert(records_extend(es, vs));
                let n = vs.len() as int;
                lemma_pairs_bytes_split(es, n);
                if es.len() == n {
                    assert(es.skip(n).len() == 0);
                    assert(pairs_bytes(es.skip(n)) =~= Seq::<u8>::empty());
                    assert(false);
                }
                let rest = es.skip(n);
                assert(rest[0] == es[n]);
                assert(pairs_bytes(rest) == pair_bytes(es[n].0, es[n].1) + pairs_bytes(rest.drop_first()));
                let w = pair_bytes(es[n].0, es[n].1);
                assert(w =~= region@.subrange(pos as int, pos + w.len()));
            }
        }
        match next {
            Some((k, v, after)) => {
                let ghost e = (k@, v@);
                r.push((k, v));
                proof {
                    assert(entry_views(r@) =~= vs.push(e));
                    lemma_pairs_bytes_push(vs, e);
                    assert(region@.subrange(0, after as int) =~= region@.subrange(0, pos as int) + region@.subrange(pos as int, after as int));
                    assert forall|es: Seq<PairView>| #[trigger] pairs_bytes(es) == region@ implies records_extend(es, entry_views(r@)) by {
                        assert(records_extend(es, vs));
                        let n = vs.len() as int;
                        assert(es.take(n + 1) =~= es.take(n).push(es[n]));
                    }
                    assert(pair_bytes(e.0, e.1).len() > 0);
                }
                pos = after;
            },
            None => {
                return None;
            },
        }
    }
    proof {
        assert(region@.subrange(0, pos as int) =~= region@);
        assert forall|es: Seq<PairView>| #[trigger] pairs_bytes(es) == b@.subrange(0, end as int) implies entry_views(r@) == es by {
            let vs = entry_views(r@);
            assert(records_extend(es, vs));
            let n = vs.len() as int;
            lemma_pairs_bytes_split(es, n);
            let rest = es.skip(n);
            if rest.len() > 0 {
                assert(pairs_bytes(rest) == pair_bytes(rest[0].0, rest[0].1) + pairs_bytes(rest.drop_first()));
            }
            assert(es =~= vs);
        }
    }
    Some(r)
}

/// Whether keys strictly increase along `s`.
fn keys_strictly_increase(s: &Vec<(Vec<u8>, Vec<u8>)>) -> (r: bool)
    ensures
        r == keys_increasing(s@),
{
    let mut i: usize = 1;
    if s.len() == 0 {
        return true;
    }
    while i < s.len()
        invariant
            1 <= i <= s@.len(),
            forall|a: int| 0 <= a < i - 1 ==> lex_lt(#[trigger] s@[a].0@, s@[a + 1].0@),
        decreases s@.len() - i,
    {
        if compare_keys(s[i - 1].0.as_slice(), s[i].0.as_slice()) != -1 {
            proof {
                assert(!lex_lt(s@[i - 1].0@, s@[i as int].0@));
            }
            return false;
        }
        i = i + 1;
    }
    proof {
        assert forall|a: int, c: int| 0 <= a < c < s@.len() implies lex_lt(#[trigger] s@[a].0@, #[trigger] s@[c].0@) by {
            lemma_chain_lt(s@, a, c);
        }
    }
    true
}

proof fn lemma_chain_lt(s: Seq<(Vec<u8>, Vec<u8>)>, a: int, c: int)
    requires
        0 <= a < c < s.len(),
        forall|x: int| 0 <= x < s.len() - 1 ==> lex_lt(#[trigger] s[x].0@, s[x + 1].0@),
    ensures
        lex_lt(s[a].0@, s[c].0@),
    decreases c - a,
{
    if c > a + 1 {
        lemma_chain_lt(s, a, c - 1);
        crate::keys::lemma_lex_transitive(s[a].0@, s[c - 1].0@, s[c].0@);
    }
}

/// The total of key and value lengths, if it fits in a `u64`.
fn checked_entries_size(s: &Vec<(Vec<u8>, Vec<u8>)>) -> (r: Option<u64>)
    ensures
        r is Some <==> entries_size(s@) <= u64::MAX,
        r matches Some(n) ==> n == entries_size(s@),
{
    let mut total: u64 = 0;
    let mut i: usize = 0;
    while i < s.len()
        invariant
            i <= s@.len(),
            total == entries_size(s@.take(i as int)),
        decreases s@.len() - i,
    {
        proof {
            assert(s@.take(i + 1).drop_last() =~= s@.take(i as int));
            assert(s@.take(i + 1).last() == s@[i as int]);
        }
        let k = s[i].0.len() as u64;
        let v = s[i].1.len() as u64;
        if k > u64::MAX - total || v > u64::MAX - total - k {
            proof {
                crate::compaction::lemma_entries_size_take(s@, i + 1);
            }
            return None;
        }
        total = total + k + v;
        i = i + 1;
    }
    assert(s@.take(i as int) =~= s@);
    Some(total)
}

/// Where the parts of a run's file lie.
proof fn lemma_run_bytes_parts(t0: SSTable)
    ensures
        ({
            let b = run_bytes(t0);
            let es = entry_views(t0.data.entries@);
            let recs = pairs_bytes(es);
            let n = b.len() as int;
            let sm = if es.len() > 0 { es[0].0 } else { Seq::<u8>::empty() };
            let lg = if es.len() > 0 { es.last().0 } else { Seq::<u8>::empty() };
            &&& n >= 48
            &&& recs.len() + pair_bytes(sm, lg).len() == n - 32
            &&& b.subrange(0, recs.len() as int) == recs
            &&& b.subrange(recs.len() as int, n - 32) == pair_bytes(sm, lg)
            &&& b.subrange(n - 32, n - 24) == u64_le(es.len() as u64)
            &&& b.subrange(n - 24, n - 16) == u64_le(t0.level as u64)
            &&& b.subrange(n - 16, n - 8) == u64_le(t0.created_ts)
            &&& b.subrange(n - 8, n) == u64_le(recs.len() as u64)
        }),
{
    let b = run_bytes(t0);
    let es = entry_views(t0.data.entries@);
    let recs = pairs_bytes(es);
    let n = b.len() as int;
    let sm = if es.len() > 0 { es[0].0 } else { Seq::<u8>::empty() };
    let lg = if es.len() > 0 { es.last().0 } else { Seq::<u8>::empty() };
    let p = pair_bytes(sm, lg);
    assert(p.len() >= 16);
    assert(b.subrange(0, recs.len() as int) =~= recs);
    assert(b.subrange(recs.len() as int, n - 32) =~= p);
    assert(b.subrange(n - 32, n - 24) =~= u64_le(es.len() as u64));
    assert(b.subrange(n - 24, n - 16) =~= u64_le(t0.level as u64));
    assert(b.subrange(n - 16, n - 8) =~= u64_le(t0.created_ts));
    assert(b.subrange(n - 8, n) =~= u64_le(recs.len() as u64));
}

proof fn lemma_pairs_bytes_len(es: Seq<PairView>)
    ensures
        pairs_bytes(es).len() >= 16 * es.len(),
    decreases es.len(),
{
    if es.len() > 0 {
        lemma_pairs_bytes_len(es.drop_first());
    }
}

/// The footer fields read from the bytes of a run are that run's.
proof fn lemma_footer_fields(t0: SSTable, b: Seq<u8>, rl: u64, ts: u64, level: u64, count: u64)
    requires
        run_bytes(t0) == b,
        b.len() >= 48,
        b.len() <= u64::MAX,
        u64_le(rl) == b.subrange(b.len() - 8, b.len() as int),
        u64_le(ts) == b.subrange(b.len() - 16, b.len() - 8),
        u64_le(level) == b.subrange(b.len() - 24, b.len() - 16),
        u64_le(count) == b.subrange(b.len() - 32, b.len() - 24),
    ensures
        rl == pairs_bytes(entry_views(t0.data.entries@)).len(),
        ts == t0.created_ts,
        level == t0.level as u64,
        count == t0.data.entries@.len(),
{
    lemma_run_bytes_parts(t0);
    let es = entry_views(t0.data.entries@);
    let recs = pairs_bytes(es);
    assert(es.len() == t0.data.entries@.len());
    lemma_pairs_bytes_len(es);
    assert(recs.len() <= b.len());
    lemma_u64_le_injective(rl, recs.len() as u64);
    lemma_u64_le_injective(ts, t0.created_ts);
    lemma_u64_le_injective(level, t0.level as u64);
    lemma_u64_le_injective(count, es.len() as u64);
}

impl SSTable {
    /// Whether the run is well formed: keys strictly increasing and its size
    /// the sum of its key and value lengths.
    pub fn is_well_formed(&self) -> (r: bool)
        ensures
            r == self.wf(),
    {
        if !keys_strictly_increase(&self.data.entries) {
            return false;
        }
        match checked_entries_size(&self.data.entries) {
            Some(n) => n == self.size,
            None => false,
        }
    }
}

/// Reads a run back from its file bytes. Whatever comes back is a
/// well-formed run; the bytes of any run read back as that run.
#[verifier::rlimit(100)]
pub fn decode_run(b: &[u8]) -> (r: Option<SSTable>)
    ensures
        r matches Some(t) ==> t.wf(),
        forall|t0: SSTable| t0.wf() && #[trigger] run_bytes(t0) == b@ ==> (r matches Some(t) && t@ == t0@
            && t.level == t0.level && t.created_ts == t0.created_ts && t.size == t0.size
            && entry_views(t.data.entries@) == entry_views(t0.data.entries@)),
{
    let n = b.len();
    proof {
        assert forall|t0: SSTable| #[trigger] run_bytes(t0) == b@ implies b@.len() >= 48 by {
            lemma_run_bytes_parts(t0);
        }
    }
    if n < 48 {
        return None;
    }
    let rl = read_u64(b, n - 8).unwrap();
    let ts = read_u64(b, n - 16).unwrap();
    let level = read_u64(b, n - 24).unwrap();
    let count = read_u64(b, n - 32).unwrap();
    let footer_end = n - 32;
    proof {
        assert forall|t0: SSTable| t0.wf() && #[trigger] run_bytes(t0) == b@ implies {
            &&& rl == pairs_bytes(entry_views(t0.data.entries@)).len()
            &&& ts == t0.created_ts
            &&& level == t0.level as u64
            &&& count == t0.data.entries@.len()
        } by {
            lemma_footer_fields(t0, b@, rl, ts, level, count);
        }
    }
    if rl > footer_end as u64 || level > u32::MAX as u64 {
        return None;
    }
    let records_end = rl as usize;
    let footer = &b[0..footer_end];
    assert(footer@ =~= b@.subrange(0, footer_end as int));
    match decode_pair(footer, records_end) {
        Some((_, _, after)) => {
            if after != footer_end {
                proof {
                    assert forall|t0: SSTable| t0.wf() && #[trigger] run_bytes(t0) == b@ implies false by {
                        lemma_run_bytes_parts(t0);
                        lemma_footer_fields(t0, b@, rl, ts, level, count);
                        let es = entry_views(t0.data.entries@);
                        let sm = if es.len() > 0 { es[0].0 } else { Seq::<u8>::empty() };
                        let lg = if es.len() > 0 { es.last().0 } else { Seq::<u8>::empty() };
                        let p = pair_bytes(sm, lg);
                        assert(p =~= footer@.subrange(records_end as int, records_end + p.len()));
                    }
                }
                return None;
            }
        },
        None => {
            proof {
                assert forall|t0: SSTable| t0.wf() && #[trigger] run_bytes(t0) == b@ implies false by {
                    lemma_run_bytes_parts(t0);
                    lemma_footer_fields(t0, b@, rl, ts, level, count);
                    let es = entry_views(t0.data.entries@);
                    let sm = if es.len() > 0 { es[0].0 } else { Seq::<u8>::empty() };
                    let lg = if es.len() > 0 { es.last().0 } else { Seq::<u8>::empty() };
                    let p = pair_bytes(sm, lg);
                    assert(p =~= footer@.subrange(records_end as int, records_end + p.len()));
                }
            }
            return None;
        },
    }
    let entries = match decode_records(b, records_end) {
        Some(e) => e,
        None => {
            proof {
                assert forall|t0: SSTable| t0.wf() && #[trigger] run_bytes(t0) == b@ implies false by {
                    lemma_run_bytes_parts(t0);
                    lemma_footer_fields(t0, b@, rl, ts, level, count);
                }
            }
            return None;
        },
    };
    proof {
        assert forall|t0: SSTable| t0.wf() && #[trigger] run_bytes(t0) == b@ implies entry_views(entries@)
            == entry_views(t0.data.entries@) by {
            let es = entry_views(t0.data.entries@);
            assert(pairs_bytes(es) =~= b@.subrange(0, records_end as int));
        }
        assert forall|t0: SSTable| t0.wf() && #[trigger] run_bytes(t0) == b@ implies keys_increasing(entries@)
            && bytes_view(entries@) == t0@ && entries_size(entries@) == t0.size by {
            lemma_same_views(entries@, t0.data.entries@);
        }
    }
    if !keys_strictly_increase(&entries) || count != entries.len() as u64 {
        return None;
    }
    let size = match checked_entries_size(&entries) {
        Some(s) => s,
        None => return None,
    };
    Some(SSTable { level: level as u32, created_ts: ts, data: KeyMap { entries }, size })
}

} // verus!
