use vstd::prelude::*;
use crate::keys::copy_bytes;

verus! {

/// The eight little-endian bytes of `n`.
pub open spec fn u64_le(n: u64) -> Seq<u8> {
    seq![
        n as u8,
        (n >> 8u64) as u8,
        (n >> 16u64) as u8,
        (n >> 24u64) as u8,
        (n >> 32u64) as u8,
        (n >> 40u64) as u8,
        (n >> 48u64) as u8,
        (n >> 56u64) as u8,
    ]
}

pub proof fn lemma_u64_le_injective(a: u64, b: u64)
    requires
        u64_le(a) == u64_le(b),
    ensures
        a == b,
{
    assert(u64_le(a)[0] == u64_le(b)[0]);
    assert(u64_le(a)[1] == u64_le(b)[1]);
    assert(u64_le(a)[2] == u64_le(b)[2]);
    assert(u64_le(a)[3] == u64_le(b)[3]);
    assert(u64_le(a)[4] == u64_le(b)[4]);
    assert(u64_le(a)[5] == u64_le(b)[5]);
    assert(u64_le(a)[6] == u64_le(b)[6]);
    assert(u64_le(a)[7] == u64_le(b)[7]);
    assert((a as u8 == b as u8 && (a >> 8u64) as u8 == (b >> 8u64) as u8 && (a >> 16u64) as u8 == (b
        >> 16u64) as u8 && (a >> 24u64) as u8 == (b >> 24u64) as u8 && (a >> 32u64) as u8 == (b
        >> 32u64) as u8 && (a >> 40u64) as u8 == (b >> 40u64) as u8 && (a >> 48u64) as u8 == (b
        >> 48u64) as u8 && (a >> 56u64) as u8 == (b >> 56u64) as u8) ==> a == b) by (bit_vector);
}

/// Appends the eight little-endian bytes of `n`.
pub fn push_u64(out: &mut Vec<u8>, n: u64)
    ensures
        final(out)@ == old(out)@ + u64_le(n),
{
    out.push(n as u8);
    out.push((n >> 8u64) as u8);
    out.push((n >> 16u64) as u8);
    out.push((n >> 24u64) as u8);
    out.push((n >> 32u64) as u8);
    out.push((n >> 40u64) as u8);
    out.push((n >> 48u64) as u8);
    out.push((n >> 56u64) as u8);
    assert(final(out)@ =~= old(out)@ + u64_le(n));
}

/// Reads eight little-endian bytes at `pos`, if that many are there.
pub fn read_u64(b: &[u8], pos: usize) -> (r: Option<u64>)
    ensures
        r is Some <==> pos + 8 <= b@.len(),
        r matches Some(n) ==> u64_le(n) == b@.subrange(pos as int, pos + 8),
{
    if pos > b.len() || b.len() - pos < 8 {
        return None;
    }
    let b0 = b[pos];
    let b1 = b[pos + 1];
    let b2 = b[pos + 2];
    let b3 = b[pos + 3];
    let b4 = b[pos + 4];
    let b5 = b[pos + 5];
    let b6 = b[pos + 6];
    let b7 = b[pos + 7];
    let n: u64 = (b0 as u64) | ((b1 as u64) << 8u64) | ((b2 as u64) << 16u64) | ((b3 as u64)
        << 24u64) | ((b4 as u64) << 32u64) | ((b5 as u64) << 40u64) | ((b6 as u64) << 48u64) | ((
    b7 as u64) << 56u64);
    assert(n as u8 == b0 && (n >> 8u64) as u8 == b1 && (n >> 16u64) as u8 == b2 && (n >> 24u64) as u8
        == b3 && (n >> 32u64) as u8 == b4 && (n >> 40u64) as u8 == b5 && (n >> 48u64) as u8 == b6 && (n
        >> 56u64) as u8 == b7) by (bit_vector)
        requires
            n == (b0 as u64) | ((b1 as u64) << 8u64) | ((b2 as u64) << 16u64) | ((b3 as u64)
                << 24u64) | ((b4 as u64) << 32u64) | ((b5 as u64) << 40u64) | ((b6 as u64)
                << 48u64) | ((b7 as u64) << 56u64),
    ;
    assert(u64_le(n) =~= b@.subrange(pos as int, pos + 8));
    Some(n)
}

/// A length-prefixed byte string: its length as eight little-endian bytes,
/// then the bytes.
pub open spec fn framed(s: Seq<u8>) -> Seq<u8> {
    u64_le(s.len() as u64) + s
}

/// A key/value record: the framed key, then the framed value.
pub open spec fn pair_bytes(k: Seq<u8>, v: Seq<u8>) -> Seq<u8> {
    framed(k) + framed(v)
}

/// Relies on bincode::serialize (bincode 1.x, default options: fixed-width
/// little-endian integers, no size limit): a tuple of two byte slices is
/// written as each slice's length as a `u64` followed by its bytes. A slice
/// always reports its length and no limit applies, so it does not fail.
#[verifier::external_body]
fn bincode_pair(k: &[u8], v: &[u8]) -> (r: Option<Vec<u8>>)
    ensures
        r is Some,
        r matches Some(b) ==> b@ == pair_bytes(k@, v@),
{
    bincode::serialize(&(k, v)).ok()
}

/// Appends the record for `k` and `v`.
pub fn encode_pair(out: &mut Vec<u8>, k: &[u8], v: &[u8]) -> (r: bool)
    ensures
        r,
        final(out)@ == old(out)@ + pair_bytes(k@, v@),
{
    match bincode_pair(k, v) {
        Some(b) => {
            let mut i: usize = 0;
            let ghost start = out@;
            while i < b.len()
                invariant
                    i <= b@.len(),
                    out@ == start + b@.take(i as int),
                decreases b@.len() - i,
            {
                out.push(b[i]);
                assert(b@.take(i + 1) =~= b@.take(i as int).push(b@[i as int]));
                assert(out@ =~= start + b@.take(i + 1));
                i = i + 1;
            }
            assert(b@.take(i as int) =~= b@);
            true
        },
        None => false,
    }
}

/// Reads a length-prefixed byte string at `pos`; returns it and the position
/// after it.
pub fn decode_framed(b: &[u8], pos: usize) -> (r: Option<(Vec<u8>, usize)>)
    ensures
        r matches Some(x) ==> pos <= x.1 <= b@.len() && b@.subrange(pos as int, x.1 as int)
            == framed(x.0@),
        forall|s: Seq<u8>|
            pos + framed(s).len() <= b@.len() && #[trigger] framed(s) == b@.subrange(
                pos as int,
                pos + framed(s).len(),
            ) ==> (r matches Some(x) && x.0@ == s && x.1 == pos + framed(s).len()),
{
    let rn = read_u64(b, pos);
    if rn.is_none() || b.len() < 8 || pos > b.len() - 8 {
        proof {
            assert forall|s: Seq<u8>|
                pos + framed(s).len() <= b@.len() && #[trigger] framed(s) == b@.subrange(
                    pos as int,
                    pos + framed(s).len(),
                ) implies false by {}
        }
        return None;
    }
    let n = rn.unwrap();
    let start = pos + 8;
    if n > (b.len() - start) as u64 {
        proof {
            assert forall|s: Seq<u8>|
                pos + framed(s).len() <= b@.len() && #[trigger] framed(s) == b@.subrange(
                    pos as int,
                    pos + framed(s).len(),
                ) implies false by {
                assert(s.len() <= b@.len());
                assert(framed(s).subrange(0, 8) =~= u64_le(s.len() as u64));
                assert(b@.subrange(pos as int, pos + framed(s).len()).subrange(0, 8) =~= b@.subrange(pos as int, pos + 8));
                lemma_u64_le_injective(n, s.len() as u64);
            }
        }
        return None;
    }
    let end = start + n as usize;
    let s = copy_bytes(&b[start..end]);
    proof {
        assert(b@.subrange(pos as int, end as int) =~= framed(s@));
        assert forall|t: Seq<u8>|
            pos + framed(t).len() <= b@.len() && #[trigger] framed(t) == b@.subrange(
                pos as int,
                pos + framed(t).len(),
            ) implies s@ == t && end == pos + framed(t).len() by {
            assert(t.len() <= b@.len());
            assert(framed(t).subrange(0, 8) =~= u64_le(t.len() as u64));
            assert(b@.subrange(pos as int, pos + framed(t).len()).subrange(0, 8) =~= b@.subrange(pos as int, pos + 8));
            lemma_u64_le_injective(n, t.len() as u64);
            assert(t =~= framed(t).subrange(8, framed(t).len() as int));
            assert(s@ =~= b@.subrange(pos as int, pos + framed(t).len()).subrange(8, framed(t).len() as int));
        }
    }
    Some((s, end))
}

/// Reads a key/value record at `pos`; returns key, value and the position
/// after the record.
pub fn decode_pair(b: &[u8], pos: usize) -> (r: Option<(Vec<u8>, Vec<u8>, usize)>)
    ensures
        r matches Some(x) ==> pos <= x.2 <= b@.len() && b@.subrange(pos as int, x.2 as int)
            == pair_bytes(x.0@, x.1@),
        forall|k: Seq<u8>, v: Seq<u8>|
            pos + pair_bytes(k, v).len() <= b@.len() && #[trigger] pair_bytes(k, v) == b@.subrange(
                pos as int,
                pos + pair_bytes(k, v).len(),
            ) ==> (r matches Some(x) && x.0@ == k && x.1@ == v && x.2 == pos + pair_bytes(k, v).len()),
{
    proof {
        assert forall|k: Seq<u8>, v: Seq<u8>|
            pos + pair_bytes(k, v).len() <= b@.len() && #[trigger] pair_bytes(k, v) == b@.subrange(
                pos as int,
                pos + pair_bytes(k, v).len(),
            ) implies framed(k) == b@.subrange(pos as int, pos + framed(k).len()) && framed(v)
            == b@.subrange(pos + framed(k).len(), pos + framed(k).len() + framed(v).len()) by {
            assert(framed(k) =~= pair_bytes(k, v).subrange(0, framed(k).len() as int));
            assert(framed(v) =~= pair_bytes(k, v).subrange(framed(k).len() as int, pair_bytes(k, v).len() as int));
        }
    }
    let (k, mid) = match decode_framed(b, pos) {
        Some(x) => x,
        None => return None,
    };
    let (v, end) = match decode_framed(b, mid) {
        Some(x) => x,
        None => return None,
    };
    assert(b@.subrange(pos as int, end as int) =~= b@.subrange(pos as int, mid as int) + b@.subrange(mid as int, end as int));
    Some((k, v, end))
}

} // verus!

verus! {

/// One write-ahead-log entry: a write of `value` to `key`, its sequence
/// number, and the time it was logged.
pub struct WalRecord {
    pub key: Vec<u8>,
    pub value: Vec<u8>,
    pub seq: u64,
    pub timestamp: u64,
}

/// The plain content of a log entry.
pub type WalEntryView = (Seq<u8>, Seq<u8>, u64, u64);

impl WalRecord {
    pub open spec fn view(&self) -> WalEntryView {
        (self.key@, self.value@, self.seq, self.timestamp)
    }
}

/// The bytes of one log entry: the key/value record, then the sequence
/// number and the timestamp as little-endian `u64`s.
pub open spec fn wal_entry_bytes(e: WalEntryView) -> Seq<u8> {
    pair_bytes(e.0, e.1) + u64_le(e.2) + u64_le(e.3)
}

/// The bytes of a log holding `es` in order.
pub open spec fn log_bytes(es: Seq<WalEntryView>) -> Seq<u8>
    decreases es.len(),
{
    if es.len() == 0 {
        Seq::empty()
    } else {
        wal_entry_bytes(es[0]) + log_bytes(es.drop_first())
    }
}

/// The views of a list of log entries.
pub open spec fn wal_views(rs: Seq<WalRecord>) -> Seq<WalEntryView> {
    rs.map_values(|r: WalRecord| r@)
}

pub proof fn lemma_log_bytes_split(es: Seq<WalEntryView>, j: int)
    requires
        0 <= j <= es.len(),
    ensures
        log_bytes(es) == log_bytes(es.take(j)) + log_bytes(es.skip(j)),
    decreases j,
{
    if j == 0 {
        assert(es.take(0) =~= Seq::<WalEntryView>::empty());
        assert(es.skip(0) =~= es);
        assert(log_bytes(es.take(0)) + log_bytes(es) =~= log_bytes(es));
    } else {
        lemma_log_bytes_split(es.drop_first(), j - 1);
        assert(es.drop_first().take(j - 1) =~= es.take(j).drop_first());
        assert(es.drop_first().skip(j - 1) =~= es.skip(j));
        assert(es.take(j)[0] == es[0]);
        assert(log_bytes(es.take(j)) == wal_entry_bytes(es[0]) + log_bytes(es.take(j).drop_first()));
        assert(log_bytes(es) =~= log_bytes(es.take(j)) + log_bytes(es.skip(j)));
    }
}

pub proof fn lemma_log_bytes_push(es: Seq<WalEntryView>, e: WalEntryView)
    ensures
        log_bytes(es.push(e)) == log_bytes(es) + wal_entry_bytes(e),
{
    let t = es.push(e);
    lemma_log_bytes_split(t, es.len() as int);
    assert(t.take(es.len() as int) =~= es);
    assert(t.skip(es.len() as int) =~= seq![e]);
    assert(seq![e].drop_first() =~= Seq::<WalEntryView>::empty());
    assert(seq![e][0] == e);
    assert(log_bytes(Seq::<WalEntryView>::empty()) =~= Seq::<u8>::empty());
    assert(log_bytes(seq![e]) =~= wal_entry_bytes(e));
}

/// The log bytes for one write; `None` when the encoder fails.
pub fn encode_wal_record(key: &[u8], value: &[u8], seq: u64, timestamp: u64) -> (r: Option<Vec<u8>>)
    ensures
        r is Some,
        r matches Some(b) ==> b@ == wal_entry_bytes((key@, value@, seq, timestamp)),
{
    let mut out: Vec<u8> = Vec::new();
    if !encode_pair(&mut out, key, value) {
        return None;
    }
    push_u64(&mut out, seq);
    push_u64(&mut out, timestamp);
    assert(out@ =~= wal_entry_bytes((key@, value@, seq, timestamp)));
    Some(out)
}

/// Reads one log entry at `pos`.
pub fn decode_wal_record(b: &[u8], pos: usize) -> (r: Option<(WalRecord, usize)>)
    ensures
        r matches Some(x) ==> pos <= x.1 <= b@.len() && b@.subrange(pos as int, x.1 as int)
            == wal_entry_bytes(x.0@),
        forall|e: WalEntryView|
            pos + wal_entry_bytes(e).len() <= b@.len() && #[trigger] wal_entry_bytes(e)
                == b@.subrange(pos as int, pos + wal_entry_bytes(e).len()) ==> (r matches Some(x)
                && x.0@ == e && x.1 == pos + wal_entry_bytes(e).len()),
{
    proof {
        assert forall|e: WalEntryView|
            pos + wal_entry_bytes(e).len() <= b@.len() && #[trigger] wal_entry_bytes(e)
                == b@.subrange(pos as int, pos + wal_entry_bytes(e).len()) implies pair_bytes(e.0, e.1)
            == b@.subrange(pos as int, pos + pair_bytes(e.0, e.1).len()) by {
            assert(pair_bytes(e.0, e.1) =~= wal_entry_bytes(e).subrange(0, pair_bytes(e.0, e.1).len() as int));
        }
    }
    let (key, value, mid) = match decode_pair(b, pos) {
        Some(x) => x,
        None => return None,
    };
    let seq = match read_u64(b, mid) {
        Some(n) => n,
        None => return None,
    };
    if b.len() < 16 || mid > b.len() - 16 {
        return None;
    }
    let timestamp = match read_u64(b, mid + 8) {
        Some(n) => n,
        None => return None,
    };
    let end = mid + 16;
    let rec = WalRecord { key, value, seq, timestamp };
    proof {
        assert(b@.subrange(pos as int, end as int) =~= b@.subrange(pos as int, mid as int)
            + b@.subrange(mid as int, mid + 8) + b@.subrange(mid + 8, end as int));
        assert forall|e: WalEntryView|
            pos + wal_entry_bytes(e).len() <= b@.len() && #[trigger] wal_entry_bytes(e)
                == b@.subrange(pos as int, pos + wal_entry_bytes(e).len()) implies rec@ == e && end
            == pos + wal_entry_bytes(e).len() by {
            let p = pair_bytes(e.0, e.1).len() as int;
            assert(u64_le(e.2) =~= wal_entry_bytes(e).subrange(p, p + 8));
            assert(u64_le(e.3) =~= wal_entry_bytes(e).subrange(p + 8, p + 16));
            assert(b@.subrange(mid as int, mid + 8) =~= wal_entry_bytes(e).subrange(p, p + 8));
            assert(b@.subrange(mid + 8, mid + 16) =~= wal_entry_bytes(e).subrange(p + 8, p + 16));
            lemma_u64_le_injective(seq, e.2);
            lemma_u64_le_injective(timestamp, e.3);
        }
    }
    Some((rec, end))
}

/// `es` is what the start of the log `b` holds.
pub open spec fn log_prefix_of(es: Seq<WalEntryView>, b: Seq<u8>) -> bool {
    log_bytes(es).len() <= b.len() && log_bytes(es) == b.take(log_bytes(es).len() as int)
}

/// One of the two entry lists extends the other.
pub open spec fn agrees(es: Seq<WalEntryView>, vs: Seq<WalEntryView>) -> bool {
    if es.len() <= vs.len() {
        es == vs.take(es.len() as int)
    } else {
        vs == es.take(vs.len() as int)
    }
}

proof fn lemma_next_entry(b: Seq<u8>, es: Seq<WalEntryView>, vs: Seq<WalEntryView>)
    requires
        log_prefix_of(es, b),
        log_prefix_of(vs, b),
        es.len() > vs.len(),
        vs == es.take(vs.len() as int),
    ensures
        log_bytes(vs).len() + wal_entry_bytes(es[vs.len() as int]).len() <= b.len(),
        wal_entry_bytes(es[vs.len() as int]) == b.subrange(
            log_bytes(vs).len() as int,
            (log_bytes(vs).len() + wal_entry_bytes(es[vs.len() as int]).len()) as int,
        ),
{
    let n = vs.len() as int;
    let pos = log_bytes(vs).len() as int;
    lemma_log_bytes_split(es, n);
    let rest = es.skip(n);
    assert(rest[0] == es[n]);
    assert(log_bytes(rest) == wal_entry_bytes(es[n]) + log_bytes(rest.drop_first()));
    let w = wal_entry_bytes(es[n]);
    assert(w =~= log_bytes(es).subrange(pos, pos + w.len()));
    assert(w =~= b.subrange(pos, pos + w.len()));
}

proof fn lemma_agrees_push(es: Seq<WalEntryView>, vs: Seq<WalEntryView>, e: WalEntryView)
    requires
        agrees(es, vs),
        es.len() > vs.len() ==> es[vs.len() as int] == e,
    ensures
        agrees(es, vs.push(e)),
{
    let n = vs.len() as int;
    let t = vs.push(e);
    if es.len() <= n {
        assert(t.take(es.len() as int) =~= vs.take(es.len() as int));
    } else {
        assert(es.take(n + 1) =~= es.take(n).push(es[n]));
        assert(t.take(n + 1) =~= t);
        if es.len() == n + 1 {
            assert(es.take(n + 1) =~= es);
        }
    }
}

/// `rs` holds every entry whose bytes are complete at the start of `b`.
pub open spec fn is_full_replay(rs: Seq<WalEntryView>, b: Seq<u8>) -> bool {
    &&& log_prefix_of(rs, b)
    &&& forall|es: Seq<WalEntryView>| #[trigger] log_prefix_of(es, b) ==> es.len() <= rs.len() && es == rs.take(
        es.len() as int,
    )
}

/// The entries that a replay of the log `b` reads back.
pub open spec fn replayed(b: Seq<u8>) -> Seq<WalEntryView> {
    choose|rs: Seq<WalEntryView>| is_full_replay(rs, b)
}

/// A full replay is the one `replayed` names.
pub proof fn lemma_replayed_unique(rs: Seq<WalEntryView>, b: Seq<u8>)
    requires
        is_full_replay(rs, b),
    ensures
        replayed(b) == rs,
{
    let c = replayed(b);
    assert(is_full_replay(c, b));
    assert(c.len() <= rs.len() && c == rs.take(c.len() as int));
    assert(rs.len() <= c.len() && rs == c.take(rs.len() as int));
    assert(c =~= rs);
}

/// Reads the log from the start, entry after entry, and stops at the end or
/// at the first entry that is cut short or malformed. Every entry whose bytes
/// are complete at the start of the log comes back.
pub fn replay_wal(b: &[u8]) -> (r: Vec<WalRecord>)
    ensures
        log_prefix_of(wal_views(r@), b@),
        forall|es: Seq<WalEntryView>| #[trigger] log_prefix_of(es, b@)
            ==> es.len() <= r@.len() && es == wal_views(r@).take(es.len() as int),
{
    replay_wal_with_end(b).0
}

/// Replays the log as `replay_wal` does, and also returns where the entries
/// read back end: the log past that point holds no whole entry.
pub fn replay_wal_with_end(b: &[u8]) -> (r: (Vec<WalRecord>, usize))
    ensures
        log_prefix_of(wal_views(r.0@), b@),
        r.1 == log_bytes(wal_views(r.0@)).len(),
        forall|es: Seq<WalEntryView>| #[trigger] log_prefix_of(es, b@)
            ==> es.len() <= r.0@.len() && es == wal_views(r.0@).take(es.len() as int),
{
    let mut r: Vec<WalRecord> = Vec::new();
    let mut pos: usize = 0;
    proof {
        assert(wal_views(r@) =~= Seq::<WalEntryView>::empty());
        assert(b@.take(0) =~= Seq::<u8>::empty());
        assert forall|es: Seq<WalEntryView>| #[trigger] log_prefix_of(es, b@) implies agrees(es, wal_views(r@)) by {
            assert(es.take(0) =~= wal_views(r@));
            assert(wal_views(r@).take(0) =~= wal_views(r@));
            if es.len() == 0 {
                assert(es =~= wal_views(r@));
            }
        }
    }
    loop
        invariant
            pos == log_bytes(wal_views(r@)).len(),
            log_prefix_of(wal_views(r@), b@),
            forall|es: Seq<WalEntryView>| #[trigger] log_prefix_of(es, b@) ==> agrees(es, wal_views(r@)),
        ensures
            log_prefix_of(wal_views(r@), b@),
            pos == log_bytes(wal_views(r@)).len(),
            forall|es: Seq<WalEntryView>| #[trigger] log_prefix_of(es, b@)
                ==> es.len() <= r@.len() && es == wal_views(r@).take(es.len() as int),
        decreases b@.len() - pos,
    {
        let ghost vs = wal_views(r@);
        let next = decode_wal_record(b, pos);
        proof {
            assert forall|es: Seq<WalEntryView>| #[trigger] log_prefix_of(es, b@) && es.len() > vs.len()
                implies next matches Some(x) && x.0@ == es[vs.len() as int] by {
                assert(agrees(es, vs));
                lemma_next_entry(b@, es, vs);
            }
        }
        match next {
            Some((rec, end)) => {
                let ghost e = rec@;
                r.push(rec);
                proof {
                    assert(wal_views(r@) =~= vs.push(e));
                    lemma_log_bytes_push(vs, e);
                    assert(b@.take(end as int) =~= b@.take(pos as int) + b@.subrange(pos as int, end as int));
                    assert forall|es: Seq<WalEntryView>| #[trigger] log_prefix_of(es, b@) implies agrees(es, wal_views(r@)) by {
                        assert(agrees(es, vs));
                        lemma_agrees_push(es, vs, e);
                    }
                    assert(wal_entry_bytes(e).len() > 0);
                }
                pos = end;
            },
            None => {
                proof {
                    assert forall|es: Seq<WalEntryView>| #[trigger] log_prefix_of(es, b@)
                        implies es.len() <= r@.len() && es == wal_views(r@).take(es.len() as int) by {
                        assert(agrees(es, vs));
                    }
                }
                return (r, pos);
            },
        }
    }
}

} // verus!
