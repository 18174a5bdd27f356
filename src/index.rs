//! Secondary indexes kept as ordinary keys of the engine:
//! `index:<name>:<encoded value>:<record key>`.
use vstd::prelude::*;
use crate::keymap::{bytes_view, key_index, keys_increasing, lemma_bytes_view_at, with_prefix};
use crate::keys::copy_bytes;
use crate::lsm::LsmStorage;
use crate::types::DbError;
use vstd::string::StringSliceAdditionalSpecFns;

verus! {

/// The byte `:` that separates the parts of an index key.
pub const SEPARATOR: u8 = 58;

#[derive(Debug, Clone, Copy, PartialEq, Eq, Structural)]
pub enum IndexType {
    Hash,
    BTree,
}

/// A named index over one field of the records.
#[derive(Debug)]
pub struct IndexDescriptor {
    pub name: String,
    pub field: String,
    pub index_type: IndexType,
}

/// The bytes `index:`.
pub open spec fn index_tag() -> Seq<u8> {
    seq![105u8, 110u8, 100u8, 101u8, 120u8, 58u8]
}

/// The prefix shared by the keys of index `name` for one encoded value.
pub open spec fn index_prefix(name: Seq<u8>, value: Seq<u8>) -> Seq<u8> {
    index_tag() + name + seq![SEPARATOR] + value + seq![SEPARATOR]
}

/// The position of the first separator at or after `from`, or the length.
pub open spec fn separator_at_or_after(s: Seq<u8>, from: int) -> int
    decreases s.len() - from,
{
    if from < 0 || from >= s.len() {
        s.len() as int
    } else if s[from] == SEPARATOR {
        from
    } else {
        separator_at_or_after(s, from + 1)
    }
}

/// What follows the third separator of an index key, or nothing when it has
/// fewer than three.
pub open spec fn record_key_of(s: Seq<u8>) -> Seq<u8> {
    let a = separator_at_or_after(s, 0);
    let b = separator_at_or_after(s, a + 1);
    let c = separator_at_or_after(s, b + 1);
    if c < s.len() {
        s.subrange(c + 1, s.len() as int)
    } else {
        Seq::empty()
    }
}

fn find_separator(s: &[u8], from: usize) -> (r: usize)
    ensures
        r == separator_at_or_after(s@, from as int),
{
    if from >= s.len() {
        return s.len();
    }
    let mut i: usize = from;
    while i < s.len() && s[i] != SEPARATOR
        invariant
            from <= i <= s@.len(),
            separator_at_or_after(s@, from as int) == separator_at_or_after(s@, i as int),
        decreases s@.len() - i,
    {
        i = i + 1;
    }
    i
}

fn push_all(out: &mut Vec<u8>, s: &[u8])
    ensures
        final(out)@ == old(out)@ + s@,
{
    let mut i: usize = 0;
    let ghost start = out@;
    while i < s.len()
        invariant
            i <= s@.len(),
            out@ == start + s@.take(i as int),
        decreases s@.len() - i,
    {
        out.push(s[i]);
        assert(s@.take(i + 1) =~= s@.take(i as int).push(s@[i as int]));
        assert(out@ =~= start + s@.take(i + 1));
        i = i + 1;
    }
    assert(s@.take(i as int) =~= s@);
}

/// `x` is the record key of some entry of `m`.
pub open spec fn listed_by(m: Map<Seq<u8>, Seq<u8>>, x: Seq<u8>) -> bool {
    exists|k: Seq<u8>| #[trigger] m.contains_key(k) && x == record_key_of(k)
}

/// The registry of index descriptors, one per name.
pub struct IndexManager {
    pub indexes: Vec<IndexDescriptor>,
}

impl IndexManager {
    pub open spec fn wf(&self) -> bool {
        forall|i: int, j: int| 0 <= i < j < self.indexes@.len() ==> #[trigger] self.indexes@[i].name@ != #[trigger] self.indexes@[j].name@
    }

    /// The names of the registered indexes.
    pub open spec fn names(&self) -> Set<Seq<char>> {
        Set::new(|n: Seq<char>| exists|i: int| 0 <= i < self.indexes@.len() && #[trigger] self.indexes@[i].name@ == n)
    }

    pub fn new() -> (r: Self)
        ensures
            r.wf(),
            r.names() == Set::<Seq<char>>::empty(),
    {
        let r = IndexManager { indexes: Vec::new() };
        assert(r.names() =~= Set::<Seq<char>>::empty());
        r
    }

    fn position(&self, name: &String) -> (r: Option<usize>)
        requires
            self.wf(),
        ensures
            r is Some <==> self.names().contains(name@),
            r matches Some(i) ==> i < self.indexes@.len() && self.indexes@[i as int].name@ == name@,
    {
        let mut i: usize = 0;
        while i < self.indexes.len()
            invariant
                i <= self.indexes@.len(),
                forall|j: int| 0 <= j < i ==> #[trigger] self.indexes@[j].name@ != name@,
            decreases self.indexes@.len() - i,
        {
            if self.indexes[i].name == *name {
                return Some(i);
            }
            i = i + 1;
        }
        None
    }

    /// Registers `descriptor`, replacing an index of the same name.
    pub fn create_index(&mut self, descriptor: IndexDescriptor) -> (r: Result<(), DbError>)
        requires
            old(self).wf(),
        ensures
            final(self).wf(),
            r is Ok,
            final(self).names() == old(self).names().insert(descriptor.name@),
    {
        let ghost name = descriptor.name@;
        match self.position(&descriptor.name) {
            Some(i) => {
                self.indexes.remove(i);
                self.indexes.insert(i, descriptor);
                proof {
                    assert forall|a: int, b: int| 0 <= a < b < self.indexes@.len() implies #[trigger] self.indexes@[a].name@
                        != #[trigger] self.indexes@[b].name@ by {
                        if a != i && b != i {
                            assert(self.indexes@[a] == old(self).indexes@[a]);
                            assert(self.indexes@[b] == old(self).indexes@[b]);
                        } else if a == i {
                            assert(self.indexes@[b] == old(self).indexes@[b]);
                        } else {
                            assert(self.indexes@[a] == old(self).indexes@[a]);
                        }
                    }
                    assert(self.names() =~= old(self).names().insert(name)) by {
                        assert forall|n: Seq<char>| #[trigger] self.names().contains(n) == old(self).names().insert(name).contains(n) by {
                            if self.names().contains(n) {
                                let j = choose|j: int| 0 <= j < self.indexes@.len() && #[trigger] self.indexes@[j].name@ == n;
                                if j != i {
                                    assert(old(self).indexes@[j].name@ == n);
                                }
                            }
                            if old(self).names().contains(n) {
                                let j = choose|j: int| 0 <= j < old(self).indexes@.len() && #[trigger] old(self).indexes@[j].name@ == n;
                                if j != i {
                                    assert(self.indexes@[j].name@ == n);
                                } else {
                                    assert(self.indexes@[i as int].name@ == name);
                                }
                            }
                            if n == name {
                                assert(self.indexes@[i as int].name@ == name);
                            }
                        }
                    }
                }
            },
            None => {
                self.indexes.push(descriptor);
                proof {
                    let last = self.indexes@.len() - 1;
                    assert forall|a: int, b: int| 0 <= a < b < self.indexes@.len() implies #[trigger] self.indexes@[a].name@
                        != #[trigger] self.indexes@[b].name@ by {
                        assert(self.indexes@[a] == old(self).indexes@[a]);
                        if b < last {
                            assert(self.indexes@[b] == old(self).indexes@[b]);
                        } else {
                            assert(!old(self).names().contains(name));
                            assert(old(self).indexes@[a].name@ != name);
                        }
                    }
                    assert(self.names() =~= old(self).names().insert(name)) by {
                        assert forall|n: Seq<char>| #[trigger] self.names().contains(n) == old(self).names().insert(name).contains(n) by {
                            if self.names().contains(n) {
                                let j = choose|j: int| 0 <= j < self.indexes@.len() && #[trigger] self.indexes@[j].name@ == n;
                                if j < last {
                                    assert(old(self).indexes@[j].name@ == n);
                                }
                            }
                            if old(self).names().contains(n) {
                                let j = choose|j: int| 0 <= j < old(self).indexes@.len() && #[trigger] old(self).indexes@[j].name@ == n;
                                assert(self.indexes@[j].name@ == n);
                            }
                            if n == name {
                                assert(self.indexes@[last].name@ == name);
                            }
                        }
                    }
                }
            },
        }
        Ok(())
    }

    /// Removes the index called `index_name`, if there is one.
    pub fn drop_index(&mut self, index_name: &str) -> (r: Result<(), DbError>)
        requires
            old(self).wf(),
        ensures
            final(self).wf(),
            r is Ok,
            final(self).names() == old(self).names().remove(index_name@),
    {
        let name = index_name.to_owned();
        match self.position(&name) {
            Some(i) => {
                self.indexes.remove(i);
                proof {
                    assert forall|a: int, b: int| 0 <= a < b < self.indexes@.len() implies #[trigger] self.indexes@[a].name@
                        != #[trigger] self.indexes@[b].name@ by {
                        let a2 = if a < i { a } else { a + 1 };
                        let b2 = if b < i { b } else { b + 1 };
                        assert(self.indexes@[a] == old(self).indexes@[a2]);
                        assert(self.indexes@[b] == old(self).indexes@[b2]);
                    }
                    assert(self.names() =~= old(self).names().remove(name@)) by {
                        assert forall|n: Seq<char>| #[trigger] self.names().contains(n) == old(self).names().remove(name@).contains(n) by {
                            if self.names().contains(n) {
                                let j = choose|j: int| 0 <= j < self.indexes@.len() && #[trigger] self.indexes@[j].name@ == n;
                                let j2 = if j < i { j } else { j + 1 };
                                assert(self.indexes@[j] == old(self).indexes@[j2]);
                                assert(old(self).indexes@[j2].name@ != old(self).indexes@[i as int].name@ || j2 == i);
                            }
                            if old(self).names().contains(n) && n != name@ {
                                let j = choose|j: int| 0 <= j < old(self).indexes@.len() && #[trigger] old(self).indexes@[j].name@ == n;
                                if j < i {
                                    assert(self.indexes@[j].name@ == n);
                                } else {
                                    assert(j != i);
                                    assert(self.indexes@[j - 1].name@ == n);
                                }
                            }
                        }
                    }
                }
            },
            None => {
                assert(self.names() =~= old(self).names().remove(name@));
            },
        }
        Ok(())
    }

    /// Whether an index called `index_name` is registered.
    pub fn has_index(&self, index_name: &str) -> (r: bool)
        requires
            self.wf(),
        ensures
            r == self.names().contains(index_name@),
    {
        let name = index_name.to_owned();
        self.position(&name).is_some()
    }

    /// `index:<name>:<value>:`, the prefix of every key of index `index_name`
    /// for the encoded value `value`.
    pub fn build_index_prefix(&self, index_name: &str, value: &[u8]) -> (r: Vec<u8>)
        ensures
            r@ == index_prefix(index_name.spec_bytes(), value@),
    {
        let mut out: Vec<u8> = Vec::new();
        out.push(105u8);
        out.push(110u8);
        out.push(100u8);
        out.push(101u8);
        out.push(120u8);
        out.push(SEPARATOR);
        push_all(&mut out, index_name.as_bytes());
        out.push(SEPARATOR);
        push_all(&mut out, value);
        out.push(SEPARATOR);
        assert(out@ =~= index_prefix(index_name.spec_bytes(), value@));
        out
    }

    /// `index:<name>:<value>:<record key>`.
    pub fn build_index_key(&self, index_name: &str, value: &[u8], record_key: &[u8]) -> (r: Vec<u8>)
        ensures
            r@ == index_prefix(index_name.spec_bytes(), value@) + record_key@,
    {
        let mut out = self.build_index_prefix(index_name, value);
        push_all(&mut out, record_key);
        out
    }

    /// The part of an index key after its third separator, or nothing when
    /// it has fewer than three.
    pub fn extract_record_key(&self, index_key: &[u8]) -> (r: Vec<u8>)
        ensures
            r@ == record_key_of(index_key@),
    {
        let a = find_separator(index_key, 0);
        if a >= index_key.len() {
            return Vec::new();
        }
        let b = find_separator(index_key, a + 1);
        if b >= index_key.len() {
            return Vec::new();
        }
        let c = find_separator(index_key, b + 1);
        if c >= index_key.len() {
            return Vec::new();
        }
        copy_bytes(&index_key[c + 1..index_key.len()])
    }

    /// Records that the record `record_key` holds the encoded value `value`
    /// in the field of index `index_name`; the index entry stores the record
    /// key. Nothing happens for an unknown index.
    pub fn update_index(&self, storage: &mut LsmStorage, index_name: &str, record_key: &[u8], value: &[u8]) -> (r: Result<(), DbError>)
        requires
            self.wf(),
            old(storage).wf(),
        ensures
            final(storage).wf(),
            !self.names().contains(index_name@) ==> r is Ok && *final(storage) == *old(storage),
            self.names().contains(index_name@) ==> (r is Ok <==> old(storage).memtable.can_insert(
                index_prefix(index_name.spec_bytes(), value@) + record_key@,
                record_key@,
            )),
            self.names().contains(index_name@) && r is Ok ==> final(storage).contents() == old(storage).contents().insert(
                index_prefix(index_name.spec_bytes(), value@) + record_key@,
                record_key@,
            ),
            r is Err ==> final(storage).contents() == old(storage).contents(),
    {
        if !self.has_index(index_name) {
            return Ok(());
        }
        let key = self.build_index_key(index_name, value, record_key);
        storage.put(key.as_slice(), record_key)
    }

    /// The record keys that index `index_name` lists for the encoded value
    /// `value`, in key order of their index entries.
    pub fn lookup_index(&self, storage: &LsmStorage, index_name: &str, value: &[u8]) -> (r: Vec<Vec<u8>>)
        requires
            storage.wf(),
        ensures
            forall|i: int| 0 <= i < r@.len() ==> #[trigger] listed_by(
                with_prefix(storage.live(), index_prefix(index_name.spec_bytes(), value@)),
                r@[i]@,
            ),
            forall|k: Seq<u8>| #[trigger] with_prefix(storage.live(), index_prefix(index_name.spec_bytes(), value@)).contains_key(k)
                ==> exists|i: int| 0 <= i < r@.len() && #[trigger] r@[i]@ == record_key_of(k),
    {
        let prefix = self.build_index_prefix(index_name, value);
        let entries = storage.scan(prefix.as_slice());
        let ghost m = with_prefix(storage.live(), prefix@);
        let mut out: Vec<Vec<u8>> = Vec::new();
        let mut i: usize = 0;
        while i < entries.len()
            invariant
                i <= entries@.len(),
                out@.len() == i,
                keys_increasing(entries@),
                bytes_view(entries@) == m,
                forall|j: int| 0 <= j < i ==> #[trigger] out@[j]@ == record_key_of(entries@[j].0@),
            decreases entries@.len() - i,
        {
            out.push(self.extract_record_key(entries[i].0.as_slice()));
            i = i + 1;
        }
        proof {
            assert forall|j: int| 0 <= j < out@.len() implies #[trigger] listed_by(m, out@[j]@) by {
                lemma_bytes_view_at(entries@, j);
                assert(m.contains_key(entries@[j].0@));
            }
            assert forall|k: Seq<u8>| #[trigger] m.contains_key(k) implies exists|j: int| 0 <= j < out@.len()
                && #[trigger] out@[j]@ == record_key_of(k) by {
                let j = key_index(entries@, k);
                assert(out@[j]@ == record_key_of(k));
            }
        }
        out
    }
}

} // verus!
