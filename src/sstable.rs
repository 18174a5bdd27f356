use vstd::prelude::*;
use crate::keys::{copy_bytes, lemma_lex_irreflexive, lex_lt, starts_with};
use crate::keymap::{bytes_view, key_index, keys_increasing, lemma_bytes_view_push, with_prefix, KeyMap};
use crate::memtable::{entries_size, MemTable};

verus! {

/// An immutable sorted run: the entries of a flushed memtable or of a merge,
/// with the level it lives at and the time it was created.
pub struct SSTable {
    pub level: u32,
    pub created_ts: u64,
    pub data: KeyMap<Vec<u8>>,
    pub size: u64,
}

impl SSTable {
    pub open spec fn wf(&self) -> bool {
        &&& self.data.wf()
        &&& self.size == entries_size(self.data.entries@)
    }

    pub open spec fn view(&self) -> Map<Seq<u8>, Seq<u8>> {
        bytes_view(self.data.entries@)
    }

    /// The run that a frozen memtable becomes.
    pub fn from_memtable(level: u32, created_ts: u64, memtable: MemTable) -> (r: Self)
        requires
            memtable.wf(),
        ensures
            r.wf(),
            r@ == memtable@,
            r.level == level,
            r.created_ts == created_ts,
            r.size == memtable.size,
    {
        SSTable { level, created_ts, data: memtable.data, size: memtable.size }
    }

    /// The stored value of `key`; a tombstone comes back as an empty value.
    pub fn get(&self, key: &[u8]) -> (r: Option<Vec<u8>>)
        requires
            self.wf(),
        ensures
            r is Some <==> self@.contains_key(key@),
            r matches Some(v) ==> v@ == self@[key@],
    {
        match self.data.get(key) {
            Some(v) => Some(copy_bytes(v.as_slice())),
            None => None,
        }
    }

    pub fn size(&self) -> (r: u64)
        ensures
            r == self.size,
    {
        self.size
    }

    pub fn level(&self) -> (r: u32)
        ensures
            r == self.level,
    {
        self.level
    }

    /// Number of entries, tombstones included.
    pub fn len(&self) -> (r: usize)
        requires
            self.wf(),
        ensures
            r == self.data.entries@.len(),
    {
        self.data.len()
    }
}

/// What a list of runs holds, the run at `i` taking precedence over those after it.
pub open spec fn runs_from(rs: Seq<SSTable>, i: int) -> Map<Seq<u8>, Seq<u8>>
    decreases rs.len() - i,
{
    if i < 0 || i >= rs.len() {
        Map::empty()
    } else {
        runs_from(rs, i + 1).union_prefer_right(rs[i]@)
    }
}

/// Adds to `acc` every entry of `entries` whose key starts with `prefix`,
/// replacing what `acc` held for those keys.
pub fn absorb_prefixed(acc: &mut KeyMap<Vec<u8>>, entries: &Vec<(Vec<u8>, Vec<u8>)>, prefix: &[u8])
    requires
        old(acc).wf(),
        keys_increasing(entries@),
    ensures
        final(acc).wf(),
        bytes_view(final(acc).entries@) == bytes_view(old(acc).entries@).union_prefer_right(
            with_prefix(bytes_view(entries@), prefix@),
        ),
{
    let ghost start = bytes_view(acc.entries@);
    let mut j: usize = 0;
    proof {
        assert(entries@.take(0) =~= Seq::<(Vec<u8>, Vec<u8>)>::empty());
        assert(bytes_view(entries@.take(0)) =~= Map::<Seq<u8>, Seq<u8>>::empty());
        assert(start =~= start.union_prefer_right(with_prefix(bytes_view(entries@.take(0)), prefix@)));
    }
    while j < entries.len()
        invariant
            acc.wf(),
            keys_increasing(entries@),
            j <= entries@.len(),
            bytes_view(acc.entries@) == start.union_prefer_right(
                with_prefix(bytes_view(entries@.take(j as int)), prefix@),
            ),
        decreases entries@.len() - j,
    {
        let ghost before = bytes_view(acc.entries@);
        let ghost e = entries@[j as int];
        proof {
            assert(entries@.take(j + 1) =~= entries@.take(j as int).push(e));
            assert(keys_increasing(entries@.take(j + 1))) by {
                let t = entries@.take(j + 1);
                assert forall|a: int, b: int| 0 <= a < b < t.len() implies lex_lt(#[trigger] t[a].0@, #[trigger] t[b].0@) by {
                    assert(t[a] == entries@[a] && t[b] == entries@[b]);
                }
            }
            lemma_bytes_view_push(entries@.take(j as int), e);
        }
        if starts_with(entries[j].0.as_slice(), prefix) {
            let k = copy_bytes(entries[j].0.as_slice());
            let v = copy_bytes(entries[j].1.as_slice());
            let ghost kv = k@;
            let ghost vv = v@;
            acc.insert(k, v);
            proof {
                assert(bytes_view(acc.entries@) =~= before.insert(kv, vv));
                assert(bytes_view(acc.entries@) =~= start.union_prefer_right(
                    with_prefix(bytes_view(entries@.take(j + 1)), prefix@),
                ));
            }
        } else {
            proof {
                assert(bytes_view(acc.entries@) =~= start.union_prefer_right(
                    with_prefix(bytes_view(entries@.take(j + 1)), prefix@),
                ));
            }
        }
        j = j + 1;
    }
    proof {
        assert(entries@.take(j as int) =~= entries@);
    }
}

/// The entries of `s` whose value is not empty, in the same order.
pub fn drop_tombstones(s: &Vec<(Vec<u8>, Vec<u8>)>) -> (r: Vec<(Vec<u8>, Vec<u8>)>)
    requires
        keys_increasing(s@),
    ensures
        keys_increasing(r@),
        bytes_view(r@) == live_only(bytes_view(s@)),
        entries_size(r@) <= entries_size(s@),
{
    let mut r: Vec<(Vec<u8>, Vec<u8>)> = Vec::new();
    let mut i: usize = 0;
    proof {
        assert(bytes_view(r@) =~= live_only(bytes_view(s@.take(0))));
    }
    while i < s.len()
        invariant
            i <= s@.len(),
            keys_increasing(s@),
            keys_increasing(r@),
            forall|a: int, b: int| 0 <= a < r@.len() && i <= b < s@.len() ==> lex_lt(#[trigger] r@[a].0@, #[trigger] s@[b].0@),
            bytes_view(r@) == live_only(bytes_view(s@.take(i as int))),
            entries_size(r@) <= entries_size(s@.take(i as int)),
        decreases s@.len() - i,
    {
        let ghost before = r@;
        proof {
            assert(s@.take(i + 1) =~= s@.take(i as int).push(s@[i as int]));
            assert(s@.take(i + 1).drop_last() =~= s@.take(i as int));
            assert(keys_increasing(s@.take(i + 1))) by {
                let t = s@.take(i + 1);
                assert forall|a: int, b: int| 0 <= a < b < t.len() implies lex_lt(#[trigger] t[a].0@, #[trigger] t[b].0@) by {
                    assert(t[a] == s@[a] && t[b] == s@[b]);
                }
            }
            lemma_bytes_view_push(s@.take(i as int), s@[i as int]);
        }
        if s[i].1.len() > 0 {
            let k = copy_bytes(s[i].0.as_slice());
            let v = copy_bytes(s[i].1.as_slice());
            let ghost x = (k, v);
            r.push((k, v));
            proof {
                assert(r@ == before.push(x));
                assert(r@.drop_last() =~= before);
                assert(keys_increasing(r@)) by {
                    assert forall|a: int, b: int| 0 <= a < b < r@.len() implies lex_lt(#[trigger] r@[a].0@, #[trigger] r@[b].0@) by {
                        if b == before.len() {
                            assert(r@[a] == before[a]);
                        } else {
                            assert(r@[a] == before[a] && r@[b] == before[b]);
                        }
                    }
                }
                lemma_bytes_view_push(before, x);
                assert forall|a: int, b: int| 0 <= a < r@.len() && i + 1 <= b < s@.len() implies lex_lt(#[trigger] r@[a].0@, #[trigger] s@[b].0@) by {
                    if a < before.len() {
                        assert(r@[a] == before[a]);
                    }
                }
                assert(bytes_view(r@) =~= live_only(bytes_view(s@.take(i + 1))));
            }
        } else {
            proof {
                let k = s@[i as int].0@;
                let t = s@.take(i as int);
                if bytes_view(t).contains_key(k) {
                    let j = key_index(t, k);
                    assert(t[j] == s@[j]);
                    lemma_lex_irreflexive(k);
                    assert(lex_lt(s@[j].0@, s@[i as int].0@));
                }
                assert(bytes_view(r@) =~= live_only(bytes_view(s@.take(i + 1))));
            }
        }
        i = i + 1;
    }
    proof {
        assert(s@.take(i as int) =~= s@);
    }
    r
}

/// The entries of `m` that are not tombstones.
pub open spec fn live_only(m: Map<Seq<u8>, Seq<u8>>) -> Map<Seq<u8>, Seq<u8>> {
    m.restrict(m.dom().filter(|k: Seq<u8>| m[k].len() > 0))
}

/// The registry of live runs, kept in read order: a reader consults
/// `runs[0]` first. Level-0 runs come newest first, then deeper levels.
pub struct RunCatalog {
    pub runs: Vec<SSTable>,
}

impl RunCatalog {
    pub open spec fn wf(&self) -> bool {
        forall|i: int| 0 <= i < self.runs@.len() ==> (#[trigger] self.runs@[i]).wf()
    }

    /// What all runs together hold, earlier runs shadowing later ones.
    pub open spec fn view(&self) -> Map<Seq<u8>, Seq<u8>> {
        runs_from(self.runs@, 0)
    }

    pub fn new() -> (r: Self)
        ensures
            r.wf(),
            r.runs@.len() == 0,
            r@ == Map::<Seq<u8>, Seq<u8>>::empty(),
    {
        RunCatalog { runs: Vec::new() }
    }

    /// Puts a freshly flushed run in front of every other run.
    pub fn install_flush(&mut self, run: SSTable)
        requires
            old(self).wf(),
            run.wf(),
        ensures
            final(self).wf(),
            final(self).runs@ == seq![run].add(old(self).runs@),
            final(self)@ == old(self)@.union_prefer_right(run@),
    {
        let ghost r = run;
        self.runs.insert(0, run);
        proof {
            assert(self.runs@ =~= seq![r].add(old(self).runs@));
            lemma_runs_from_shift(old(self).runs@, self.runs@, 0);
        }
    }
}

/// Read order of runs loaded from disk: lower levels first, and within a
/// level the newest first.
pub open spec fn read_before(a: SSTable, b: SSTable) -> bool {
    a.level < b.level || (a.level == b.level && a.created_ts >= b.created_ts)
}

/// The runs are in read order.
pub open spec fn in_read_order(rs: Seq<SSTable>) -> bool {
    forall|i: int, j: int| 0 <= i < j < rs.len() ==> read_before(#[trigger] rs[i], #[trigger] rs[j])
}

impl RunCatalog {
    /// Adds a run found on disk at its place in read order.
    pub fn install_recovered(&mut self, run: SSTable)
        requires
            old(self).wf(),
            in_read_order(old(self).runs@),
            run.wf(),
        ensures
            final(self).wf(),
            in_read_order(final(self).runs@),
            exists|i: int| 0 <= i <= old(self).runs@.len() && final(self).runs@ == old(self).runs@.insert(i, run),
    {
        let ghost o = run;
        let mut i: usize = 0;
        while i < self.runs.len() && (self.runs[i].level < run.level || (self.runs[i].level == run.level
            && self.runs[i].created_ts >= run.created_ts))
            invariant
                i <= self.runs@.len(),
                self.runs@ == old(self).runs@,
                forall|j: int| 0 <= j < i ==> read_before(#[trigger] self.runs@[j], run),
            decreases self.runs@.len() - i,
        {
            i = i + 1;
        }
        let ghost before = self.runs@;
        self.runs.insert(i, run);
        proof {
            assert(self.runs@ == before.insert(i as int, o));
            assert forall|a: int, b: int| 0 <= a < b < self.runs@.len() implies read_before(#[trigger] self.runs@[a], #[trigger] self.runs@[b]) by {
                if b < i {
                    assert(self.runs@[a] == before[a] && self.runs@[b] == before[b]);
                } else if b == i {
                    assert(self.runs@[a] == before[a]);
                } else if a == i {
                    assert(self.runs@[b] == before[b - 1]);
                    assert(!read_before(before[i as int], o));
                    assert(read_before(before[i as int], before[b - 1]) || i == b - 1);
                } else if a < i {
                    assert(self.runs@[a] == before[a] && self.runs@[b] == before[b - 1]);
                } else {
                    assert(self.runs@[a] == before[a - 1] && self.runs@[b] == before[b - 1]);
                }
            }
            assert forall|j: int| 0 <= j < self.runs@.len() implies (#[trigger] self.runs@[j]).wf() by {
                if j < i {
                    assert(self.runs@[j] == before[j]);
                } else if j > i {
                    assert(self.runs@[j] == before[j - 1]);
                }
            }
        }
    }
}

/// Runs after a prefix of one run hold the same as before it was added.
pub proof fn lemma_runs_from_shift(rs: Seq<SSTable>, ts: Seq<SSTable>, i: int)
    requires
        ts.len() == rs.len() + 1,
        0 <= i <= rs.len(),
        forall|j: int| 0 <= j < rs.len() ==> ts[j + 1] == rs[j],
    ensures
        runs_from(ts, i + 1) == runs_from(rs, i),
    decreases rs.len() - i,
{
    if i < rs.len() {
        lemma_runs_from_shift(rs, ts, i + 1);
        assert(ts[i + 1] == rs[i]);
    }
}

} // verus!
