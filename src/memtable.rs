use vstd::prelude::*;
use crate::keys::{copy_bytes, lex_lt, starts_with};
use crate::keymap::{bytes_view, keys_increasing, lemma_bytes_view_push, with_prefix, KeyMap};

verus! {

/// Default byte size above which a memtable asks to be flushed (1 MiB).
pub const DEFAULT_FLUSH_THRESHOLD: u64 = 1048576;

/// Bytes taken by a sequence of entries: the sum of key and value lengths.
pub open spec fn entries_size(s: Seq<(Vec<u8>, Vec<u8>)>) -> nat
    decreases s.len(),
{
    if s.len() == 0 {
        0
    } else {
        entries_size(s.drop_last()) + s.last().0@.len() + s.last().1@.len()
    }
}

pub proof fn lemma_entries_size_concat(a: Seq<(Vec<u8>, Vec<u8>)>, b: Seq<(Vec<u8>, Vec<u8>)>)
    ensures
        entries_size(a + b) == entries_size(a) + entries_size(b),
    decreases b.len(),
{
    if b.len() == 0 {
        assert(a + b =~= a);
    } else {
        assert((a + b).drop_last() =~= a + b.drop_last());
        lemma_entries_size_concat(a, b.drop_last());
    }
}

pub proof fn lemma_entries_size_one(x: (Vec<u8>, Vec<u8>))
    ensures
        entries_size(seq![x]) == x.0@.len() + x.1@.len(),
{
    assert(seq![x].drop_last() =~= Seq::<(Vec<u8>, Vec<u8>)>::empty());
    assert(seq![x].last() == x);
    assert(entries_size(Seq::<(Vec<u8>, Vec<u8>)>::empty()) == 0);
}

pub proof fn lemma_entries_size_update(s: Seq<(Vec<u8>, Vec<u8>)>, i: int, x: (Vec<u8>, Vec<u8>))
    requires
        0 <= i < s.len(),
    ensures
        entries_size(s.update(i, x)) + s[i].0@.len() + s[i].1@.len() == entries_size(s) + x.0@.len() + x.1@.len(),
{
    let a = s.take(i);
    let c = s.skip(i + 1);
    assert(s =~= a + seq![s[i]] + c);
    assert(s.update(i, x) =~= a + seq![x] + c);
    lemma_entries_size_concat(a + seq![s[i]], c);
    lemma_entries_size_concat(a, seq![s[i]]);
    lemma_entries_size_concat(a + seq![x], c);
    lemma_entries_size_concat(a, seq![x]);
    lemma_entries_size_one(x);
    lemma_entries_size_one(s[i]);
}

pub proof fn lemma_entries_size_insert(s: Seq<(Vec<u8>, Vec<u8>)>, i: int, x: (Vec<u8>, Vec<u8>))
    requires
        0 <= i <= s.len(),
    ensures
        entries_size(s.insert(i, x)) == entries_size(s) + x.0@.len() + x.1@.len(),
{
    let a = s.take(i);
    let c = s.skip(i);
    assert(s =~= a + c);
    assert(s.insert(i, x) =~= a + seq![x] + c);
    lemma_entries_size_concat(a, c);
    lemma_entries_size_concat(a + seq![x], c);
    lemma_entries_size_concat(a, seq![x]);
    lemma_entries_size_one(x);
}

/// The in-memory write buffer: an ordered map from key to value bytes, with
/// its byte size tracked exactly.
pub struct MemTable {
    pub data: KeyMap<Vec<u8>>,
    pub size: u64,
    pub flush_threshold: u64,
}

impl MemTable {
    pub open spec fn wf(&self) -> bool {
        &&& self.data.wf()
        &&& self.size == entries_size(self.data.entries@)
    }

    pub open spec fn view(&self) -> Map<Seq<u8>, Seq<u8>> {
        bytes_view(self.data.entries@)
    }

    /// An empty memtable with the default flush threshold.
    pub fn new() -> (r: Self)
        ensures
            r.wf(),
            r@ == Map::<Seq<u8>, Seq<u8>>::empty(),
            r.flush_threshold == DEFAULT_FLUSH_THRESHOLD,
    {
        Self::with_threshold(DEFAULT_FLUSH_THRESHOLD)
    }

    /// An empty memtable that asks to be flushed once it holds more than
    /// `flush_threshold` bytes.
    pub fn with_threshold(flush_threshold: u64) -> (r: Self)
        ensures
            r.wf(),
            r@ == Map::<Seq<u8>, Seq<u8>>::empty(),
            r.flush_threshold == flush_threshold,
            r.size == 0,
    {
        let data = KeyMap::new();
        let r = MemTable { data, size: 0, flush_threshold };
        assert(r@ =~= Map::<Seq<u8>, Seq<u8>>::empty());
        r
    }

    /// Byte size: the sum of the lengths of all keys and values held.
    pub fn size_bytes(&self) -> (r: u64)
        ensures
            r == self.size,
    {
        self.size
    }

    /// Whether inserting `k` and `v` keeps the byte size within a `u64`.
    pub open spec fn can_insert(&self, k: Seq<u8>, v: Seq<u8>) -> bool {
        self.size + k.len() + v.len() <= u64::MAX
    }

    /// Whether inserting `key` and `value` keeps the byte size within a `u64`.
    pub fn has_room_for(&self, key: &[u8], value: &[u8]) -> (r: bool)
        ensures
            r == self.can_insert(key@, value@),
    {
        key.len() as u64 <= u64::MAX - self.size && value.len() as u64 <= u64::MAX - self.size - key.len() as u64
    }

    /// Sets `key` to `value`; the byte size drops the key's earlier
    /// contribution and adds the new one.
    pub fn insert(&mut self, key: Vec<u8>, value: Vec<u8>)
        requires
            old(self).wf(),
            old(self).can_insert(key@, value@),
        ensures
            final(self).wf(),
            final(self)@ == old(self)@.insert(key@, value@),
            final(self).flush_threshold == old(self).flush_threshold,
            final(self).size <= old(self).size + key@.len() + value@.len(),
    {
        let ghost old_entries = self.data.entries@;
        let ghost kv = (key, value);
        let klen = key.len() as u64;
        let vlen = value.len() as u64;
        let (i, prev) = self.data.insert(key, value);
        proof {
            assert(self@ =~= old(self)@.insert(kv.0@, kv.1@)) by {
                assert forall|k: Seq<u8>| #[trigger] self@.contains_key(k) implies self@[k] == old(self)@.insert(kv.0@, kv.1@)[k] by {
                    if k != kv.0@ {
                        assert(self.data@[k] == old(self).data@[k]);
                    }
                }
            }
        }
        match prev {
            Some(w) => {
                proof {
                    lemma_entries_size_update(old_entries, i as int, kv);
                }
                let wlen = w.len() as u64;
                self.size = (self.size + vlen) - wlen;
            },
            None => {
                proof {
                    lemma_entries_size_insert(old_entries, i as int, kv);
                }
                self.size = self.size + klen + vlen;
            },
        }
    }

    /// The value held for `key`, if any.
    pub fn get(&self, key: &[u8]) -> (r: Option<Vec<u8>>)
        requires
            self.wf(),
        ensures
            r is Some <==> self@.contains_key(key@),
            r matches Some(v) ==> v@ == self@[key@],
    {
        match self.data.get(key) {
            Some(v) => Some(copy_bytes(v.as_slice())),
            None => None,
        }
    }

    /// All entries whose key starts with `prefix`, in key order.
    pub fn scan(&self, prefix: &[u8]) -> (r: Vec<(Vec<u8>, Vec<u8>)>)
        requires
            self.wf(),
        ensures
            keys_increasing(r@),
            bytes_view(r@) == with_prefix(self@, prefix@),
    {
        let s = &self.data.entries;
        let mut r: Vec<(Vec<u8>, Vec<u8>)> = Vec::new();
        let mut i: usize = 0;
        proof {
            assert(bytes_view(r@) =~= with_prefix(bytes_view(s@.take(0)), prefix@));
        }
        while i < s.len()
            invariant
                self.wf(),
                s == &self.data.entries,
                i <= s@.len(),
                keys_increasing(r@),
                forall|a: int, b: int| 0 <= a < r@.len() && i <= b < s@.len() ==> lex_lt(#[trigger] r@[a].0@, #[trigger] s@[b].0@),
                bytes_view(r@) == with_prefix(bytes_view(s@.take(i as int)), prefix@),
                keys_increasing(s@.take(i as int)),
            decreases s@.len() - i,
        {
            let ghost before = r@;
            proof {
                assert(s@.take(i + 1) =~= s@.take(i as int).push(s@[i as int]));
                assert(keys_increasing(s@.take(i + 1))) by {
                    let t = s@.take(i + 1);
                    assert forall|a: int, b: int| 0 <= a < b < t.len() implies lex_lt(#[trigger] t[a].0@, #[trigger] t[b].0@) by {
                        assert(t[a] == s@[a] && t[b] == s@[b]);
                    }
                }
                lemma_bytes_view_push(s@.take(i as int), s@[i as int]);
            }
            if starts_with(s[i].0.as_slice(), prefix) {
                let k = copy_bytes(s[i].0.as_slice());
                let v = copy_bytes(s[i].1.as_slice());
                let ghost x = (k, v);
                r.push((k, v));
                proof {
                    assert(r@ == before.push(x));
                    assert(keys_increasing(r@)) by {
                        assert forall|a: int, b: int| 0 <= a < b < r@.len() implies lex_lt(#[trigger] r@[a].0@, #[trigger] r@[b].0@) by {
                            if b == before.len() {
                                assert(r@[a] == before[a]);
                            } else {
                                assert(r@[a] == before[a] && r@[b] == before[b]);
                            }
                        }
                    }
                    lemma_bytes_view_push(before, x);
                    assert forall|a: int, b: int| 0 <= a < r@.len() && i + 1 <= b < s@.len() implies lex_lt(#[trigger] r@[a].0@, #[trigger] s@[b].0@) by {
                        if a < before.len() {
                            assert(r@[a] == before[a]);
                        }
                    }
                    assert(bytes_view(r@) =~= with_prefix(bytes_view(s@.take(i + 1)), prefix@));
                }
            } else {
                proof {
                    assert(bytes_view(r@) =~= with_prefix(bytes_view(s@.take(i + 1)), prefix@));
                }
            }
            i = i + 1;
        }
        proof {
            assert(s@.take(i as int) =~= s@);
        }
        r
    }

    pub fn should_flush(&self) -> (r: bool)
        ensures
            r == (self.size > self.flush_threshold),
    {
        self.size > self.flush_threshold
    }

    /// Number of distinct keys held.
    pub fn len(&self) -> (r: usize)
        requires
            self.wf(),
        ensures
            r == self@.dom().len(),
            r == self.data.entries@.len(),
    {
        proof {
            self.data.lemma_dom_len();
            assert(self@.dom() =~= self.data@.dom());
        }
        self.data.len()
    }
}

} // verus!
