use vstd::prelude::*;
use crate::keys::{compare_keys, has_prefix, lex_lt, lemma_lex_irreflexive, lemma_lex_total, lemma_lex_transitive};

verus! {

/// Entries whose keys strictly increase, so that every key occurs once.
pub open spec fn keys_increasing<V>(s: Seq<(Vec<u8>, V)>) -> bool {
    forall|i: int, j: int| 0 <= i < j < s.len() ==> lex_lt(#[trigger] s[i].0@, #[trigger] s[j].0@)
}

/// Whether some entry of `s` has key `k`.
pub open spec fn seq_has_key<V>(s: Seq<(Vec<u8>, V)>, k: Seq<u8>) -> bool {
    exists|i: int| 0 <= i < s.len() && #[trigger] s[i].0@ == k
}

/// The map that a sequence of entries with distinct keys stands for.
pub open spec fn entries_map<V>(s: Seq<(Vec<u8>, V)>) -> Map<Seq<u8>, V> {
    Map::new(
        |k: Seq<u8>| seq_has_key(s, k),
        |k: Seq<u8>| s[key_index(s, k)].1,
    )
}

/// A position of key `k` in `s`, where there is one.
pub open spec fn key_index<V>(s: Seq<(Vec<u8>, V)>, k: Seq<u8>) -> int {
    choose|i: int| 0 <= i < s.len() && #[trigger] s[i].0@ == k
}

/// With strictly increasing keys, entry `i` is what the map holds for its key.
pub proof fn lemma_entries_map_at<V>(s: Seq<(Vec<u8>, V)>, i: int)
    requires
        keys_increasing(s),
        0 <= i < s.len(),
    ensures
        entries_map(s).contains_key(s[i].0@),
        entries_map(s)[s[i].0@] == s[i].1,
{
    let k = s[i].0@;
    assert(seq_has_key(s, k));
    let j = key_index(s, k);
    if j < i {
        lemma_lex_irreflexive(k);
        assert(lex_lt(s[j].0@, s[i].0@));
    } else if i < j {
        lemma_lex_irreflexive(k);
        assert(lex_lt(s[i].0@, s[j].0@));
    }
    assert(j == i);
    assert(entries_map(s)[k] == s[j].1);
}

/// The byte-string map that a sequence of key/value byte entries stands for.
pub open spec fn bytes_view(s: Seq<(Vec<u8>, Vec<u8>)>) -> Map<Seq<u8>, Seq<u8>> {
    entries_map(s).map_values(|v: Vec<u8>| v@)
}

/// Entries of `m` whose key starts with `p`.
pub open spec fn with_prefix(m: Map<Seq<u8>, Seq<u8>>, p: Seq<u8>) -> Map<Seq<u8>, Seq<u8>> {
    m.restrict(m.dom().filter(|k: Seq<u8>| has_prefix(k, p)))
}

pub proof fn lemma_bytes_view_at(s: Seq<(Vec<u8>, Vec<u8>)>, i: int)
    requires
        keys_increasing(s),
        0 <= i < s.len(),
    ensures
        bytes_view(s).contains_key(s[i].0@),
        bytes_view(s)[s[i].0@] == s[i].1@,
{
    lemma_entries_map_at(s, i);
}

/// Appending an entry with a larger key adds that key to the map.
pub proof fn lemma_entries_map_push<V>(s: Seq<(Vec<u8>, V)>, x: (Vec<u8>, V))
    requires
        keys_increasing(s.push(x)),
    ensures
        keys_increasing(s),
        entries_map(s.push(x)) == entries_map(s).insert(x.0@, x.1),
        !entries_map(s).contains_key(x.0@),
{
    let t = s.push(x);
    let n = s.len() as int;
    assert(keys_increasing(s)) by {
        assert forall|i: int, j: int| 0 <= i < j < s.len() implies lex_lt(#[trigger] s[i].0@, #[trigger] s[j].0@) by {
            assert(t[i] == s[i] && t[j] == s[j]);
        }
    }
    assert(!entries_map(s).contains_key(x.0@)) by {
        if entries_map(s).contains_key(x.0@) {
            let j = key_index(s, x.0@);
            assert(t[j] == s[j]);
            assert(t[n] == x);
            lemma_lex_irreflexive(x.0@);
            assert(lex_lt(t[j].0@, t[n].0@));
        }
    }
    assert(entries_map(t) =~= entries_map(s).insert(x.0@, x.1)) by {
        assert forall|k: Seq<u8>| #[trigger] entries_map(t).contains_key(k) == entries_map(s).insert(x.0@, x.1).contains_key(k) by {
            if entries_map(t).contains_key(k) {
                let j = key_index(t, k);
                if j < n {
                    assert(s[j] == t[j]);
                }
            }
            if entries_map(s).contains_key(k) {
                let j = key_index(s, k);
                assert(t[j] == s[j]);
            }
            assert(t[n] == x);
        }
        assert forall|k: Seq<u8>| #[trigger] entries_map(t).contains_key(k) implies entries_map(t)[k] == entries_map(s).insert(x.0@, x.1)[k] by {
            let j = key_index(t, k);
            lemma_entries_map_at(t, j);
            if j < n {
                assert(s[j] == t[j]);
                lemma_entries_map_at(s, j);
                lemma_lex_irreflexive(k);
                assert(lex_lt(t[j].0@, t[n].0@));
            }
        }
    }
}

/// A prefix of strictly increasing entries is strictly increasing.
pub proof fn lemma_keys_increasing_take<V>(s: Seq<(Vec<u8>, V)>, i: int)
    requires
        keys_increasing(s),
        0 <= i <= s.len(),
    ensures
        keys_increasing(s.take(i)),
{
    let t = s.take(i);
    assert forall|a: int, b: int| 0 <= a < b < t.len() implies lex_lt(#[trigger] t[a].0@, #[trigger] t[b].0@) by {
        assert(t[a] == s[a] && t[b] == s[b]);
    }
}

/// Appending an entry with a larger key adds that key to the byte map.
pub proof fn lemma_bytes_view_push(s: Seq<(Vec<u8>, Vec<u8>)>, x: (Vec<u8>, Vec<u8>))
    requires
        keys_increasing(s.push(x)),
    ensures
        keys_increasing(s),
        bytes_view(s.push(x)) == bytes_view(s).insert(x.0@, x.1@),
{
    let t = s.push(x);
    assert(keys_increasing(s)) by {
        assert forall|i: int, j: int| 0 <= i < j < s.len() implies lex_lt(#[trigger] s[i].0@, #[trigger] s[j].0@) by {
            assert(t[i] == s[i] && t[j] == s[j]);
        }
    }
    let n = s.len() as int;
    assert(bytes_view(t) =~= bytes_view(s).insert(x.0@, x.1@)) by {
        assert forall|k: Seq<u8>| #[trigger] bytes_view(t).contains_key(k) == bytes_view(s).insert(x.0@, x.1@).contains_key(k) by {
            if bytes_view(t).contains_key(k) {
                let j = key_index(t, k);
                if j < n {
                    assert(s[j] == t[j]);
                }
            }
            if bytes_view(s).contains_key(k) {
                let j = key_index(s, k);
                assert(t[j] == s[j]);
            }
            assert(t[n] == x);
        }
        assert forall|k: Seq<u8>| #[trigger] bytes_view(t).contains_key(k) implies bytes_view(t)[k] == bytes_view(s).insert(x.0@, x.1@)[k] by {
            let j = key_index(t, k);
            lemma_bytes_view_at(t, j);
            if j < n {
                assert(s[j] == t[j]);
                lemma_bytes_view_at(s, j);
                lemma_lex_irreflexive(k);
                assert(lex_lt(t[j].0@, t[n].0@));
            }
        }
    }
}

/// An ordered map from byte-string keys to values, kept as a vector of entries
/// sorted by key.
pub struct KeyMap<V> {
    pub entries: Vec<(Vec<u8>, V)>,
}

impl<V> KeyMap<V> {
    pub open spec fn wf(&self) -> bool {
        keys_increasing(self.entries@)
    }

    pub open spec fn view(&self) -> Map<Seq<u8>, V> {
        entries_map(self.entries@)
    }

    pub fn new() -> (r: Self)
        ensures
            r.wf(),
            r@ == Map::<Seq<u8>, V>::empty(),
            r.entries@.len() == 0,
    {
        let r = KeyMap { entries: Vec::new() };
        assert(r@ =~= Map::<Seq<u8>, V>::empty());
        r
    }

    pub fn len(&self) -> (r: usize)
        requires
            self.wf(),
        ensures
            r == self.entries@.len(),
            r == self@.dom().len(),
    {
        proof {
            self.lemma_dom_len();
        }
        self.entries.len()
    }

    pub proof fn lemma_dom_len(&self)
        requires
            self.wf(),
        ensures
            self@.dom().len() == self.entries@.len(),
            self@.dom().finite(),
        decreases self.entries@.len(),
    {
        let s = self.entries@;
        let f = |i: int| s[i].0@;
        let idx = Set::new(|i: int| 0 <= i < s.len());
        vstd::set_lib::lemma_int_range(0, s.len() as int);
        assert(idx =~= vstd::set_lib::set_int_range(0, s.len() as int));
        assert(self@.dom() =~= idx.map(f)) by {
            assert forall|k: Seq<u8>| self@.dom().contains(k) implies idx.map(f).contains(k) by {
                let i = choose|i: int| 0 <= i < s.len() && #[trigger] s[i].0@ == k;
                assert(idx.contains(i));
                assert(f(i) == k);
            }
        }
        assert forall|a: int, b: int| idx.contains(a) && idx.contains(b) && #[trigger] f(a) == #[trigger] f(b) implies a == b by {
            if a < b {
                lemma_lex_irreflexive(s[a].0@);
                assert(lex_lt(s[a].0@, s[b].0@));
            } else if b < a {
                lemma_lex_irreflexive(s[a].0@);
                assert(lex_lt(s[b].0@, s[a].0@));
            }
        }
        vstd::set_lib::lemma_map_size(idx, idx.map(f), f);
    }

    pub proof fn lemma_view_at(&self, i: int)
        requires
            self.wf(),
            0 <= i < self.entries@.len(),
        ensures
            self@.contains_key(self.entries@[i].0@),
            self@[self.entries@[i].0@] == self.entries@[i].1,
    {
        lemma_entries_map_at(self.entries@, i);
    }

    /// The position of key `k`, if it is present.
    pub fn find(&self, k: &[u8]) -> (r: Option<usize>)
        requires
            self.wf(),
        ensures
            r matches Some(i) ==> i < self.entries@.len() && self.entries@[i as int].0@ == k@,
            r is None <==> !self@.contains_key(k@),
    {
        let mut i: usize = 0;
        while i < self.entries.len()
            invariant
                self.wf(),
                i <= self.entries@.len(),
                forall|j: int| 0 <= j < i ==> #[trigger] self.entries@[j].0@ != k@,
            decreases self.entries@.len() - i,
        {
            if compare_keys(self.entries[i].0.as_slice(), k) == 0 {
                proof {
                    self.lemma_view_at(i as int);
                }
                return Some(i);
            }
            i = i + 1;
        }
        None
    }

    pub fn get(&self, k: &[u8]) -> (r: Option<&V>)
        requires
            self.wf(),
        ensures
            r is Some <==> self@.contains_key(k@),
            r matches Some(v) ==> *v == self@[k@],
    {
        match self.find(k) {
            Some(i) => {
                proof {
                    self.lemma_view_at(i as int);
                }
                Some(&self.entries[i].1)
            },
            None => None,
        }
    }

    /// Sets the value of `k`. Returns the position of the entry, and the value
    /// that it replaced, if any.
    pub fn insert(&mut self, k: Vec<u8>, v: V) -> (r: (usize, Option<V>))
        requires
            old(self).wf(),
        ensures
            final(self).wf(),
            final(self)@ == old(self)@.insert(k@, v),
            r.1 is Some <==> old(self)@.contains_key(k@),
            r.1 matches Some(w) ==> w == old(self)@[k@]
                && r.0 < old(self).entries@.len()
                && old(self).entries@[r.0 as int].1 == w
                && old(self).entries@[r.0 as int].0@ == k@
                && final(self).entries@ == old(self).entries@.update(r.0 as int, (k, v)),
            r.1 is None ==> r.0 <= old(self).entries@.len()
                && final(self).entries@ == old(self).entries@.insert(r.0 as int, (k, v)),
    {
        let ghost old_entries = self.entries@;
        let mut i: usize = 0;
        while i < self.entries.len() && compare_keys(self.entries[i].0.as_slice(), k.as_slice()) == -1
            invariant
                self.entries@ == old_entries,
                keys_increasing(old_entries),
                i <= old_entries.len(),
                forall|j: int| 0 <= j < i ==> lex_lt(#[trigger] old_entries[j].0@, k@),
            decreases old_entries.len() - i,
        {
            i = i + 1;
        }
        if i < self.entries.len() && compare_keys(self.entries[i].0.as_slice(), k.as_slice()) == 0 {
            let (_, w) = self.entries.remove(i);
            self.entries.insert(i, (k, v));
            proof {
                lemma_entries_map_at(old_entries, i as int);
                let s = self.entries@;
                assert(s =~= old_entries.update(i as int, s[i as int]));
                assert(keys_increasing(s));
                assert(self@ =~= old(self)@.insert(k@, v)) by {
                    assert forall|kk: Seq<u8>| #[trigger] self@.contains_key(kk) == old(self)@.insert(k@, v).contains_key(kk) by {
                        if self@.contains_key(kk) {
                            let j = choose|j: int| 0 <= j < s.len() && #[trigger] s[j].0@ == kk;
                            if j != i {
                                assert(old_entries[j].0@ == kk);
                            }
                        }
                        if old(self)@.contains_key(kk) {
                            let j = choose|j: int| 0 <= j < old_entries.len() && #[trigger] old_entries[j].0@ == kk;
                            assert(s[j].0@ == kk);
                        }
                    }
                    assert forall|kk: Seq<u8>| #[trigger] self@.contains_key(kk) implies self@[kk] == old(self)@.insert(k@, v)[kk] by {
                        let j = choose|j: int| 0 <= j < s.len() && #[trigger] s[j].0@ == kk;
                        lemma_entries_map_at(s, j);
                        if j != i {
                            lemma_entries_map_at(old_entries, j);
                        }
                    }
                }
            }
            (i, Some(w))
        } else {
            proof {
                if i < old_entries.len() {
                    let c = old_entries[i as int].0@;
                    lemma_lex_total(c, k@);
                }
            }
            self.entries.insert(i, (k, v));
            proof {
                let s = self.entries@;
                assert(s =~= old_entries.insert(i as int, (k, v)));
                assert forall|a: int, b: int| 0 <= a < b < s.len() implies lex_lt(#[trigger] s[a].0@, #[trigger] s[b].0@) by {
                    if b == i {
                        assert(s[a] == old_entries[a]);
                    } else if a == i {
                        assert(s[b] == old_entries[b - 1]);
                        if b - 1 > i {
                            lemma_lex_transitive(k@, old_entries[i as int].0@, old_entries[b - 1].0@);
                        }
                    } else if a < i && b > i {
                        assert(s[b] == old_entries[b - 1]);
                        assert(s[a] == old_entries[a]);
                    } else if a > i {
                        assert(s[a] == old_entries[a - 1]);
                        assert(s[b] == old_entries[b - 1]);
                    } else {
                        assert(s[a] == old_entries[a]);
                        assert(s[b] == old_entries[b]);
                    }
                }
                assert(!old(self)@.contains_key(k@)) by {
                    if old(self)@.contains_key(k@) {
                        let j = choose|j: int| 0 <= j < old_entries.len() && #[trigger] old_entries[j].0@ == k@;
                        lemma_lex_irreflexive(k@);
                        if j < i {
                        } else if j > i {
                            assert(lex_lt(old_entries[i as int].0@, old_entries[j].0@));
                            lemma_lex_transitive(k@, old_entries[i as int].0@, k@);
                        }
                    }
                }
                assert(self@ =~= old(self)@.insert(k@, v)) by {
                    assert forall|kk: Seq<u8>| #[trigger] self@.contains_key(kk) == old(self)@.insert(k@, v).contains_key(kk) by {
                        if self@.contains_key(kk) {
                            let j = choose|j: int| 0 <= j < s.len() && #[trigger] s[j].0@ == kk;
                            if j < i {
                                assert(old_entries[j].0@ == kk);
                            } else if j > i {
                                assert(old_entries[j - 1].0@ == kk);
                            }
                        }
                        if old(self)@.contains_key(kk) {
                            let j = choose|j: int| 0 <= j < old_entries.len() && #[trigger] old_entries[j].0@ == kk;
                            if j < i {
                                assert(s[j].0@ == kk);
                            } else {
                                assert(s[j + 1].0@ == kk);
                            }
                        }
                        if kk == k@ {
                            assert(s[i as int].0@ == kk);
                        }
                    }
                    assert forall|kk: Seq<u8>| #[trigger] self@.contains_key(kk) implies self@[kk] == old(self)@.insert(k@, v)[kk] by {
                        let j = choose|j: int| 0 <= j < s.len() && #[trigger] s[j].0@ == kk;
                        lemma_entries_map_at(s, j);
                        if j < i {
                            lemma_entries_map_at(old_entries, j);
                        } else if j > i {
                            lemma_entries_map_at(old_entries, j - 1);
                        }
                    }
                }
            }
            (i, None)
        }
    }
}

} // verus!
