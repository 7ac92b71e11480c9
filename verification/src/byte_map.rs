//! A small map from byte strings to byte strings that keeps its entries in
//! the order of their keys.

use vstd::prelude::*;
use crate::bytes::bytes_eq;
use crate::bytes::bytes_less;
use crate::bytes::lemma_lex_one_way;
use crate::bytes::lemma_lex_total;
use crate::bytes::lemma_lex_transitive;
use crate::bytes::lex_lt;
use crate::bytes::copy_bytes;

verus! {

/// One key with its value.
#[derive(Debug)]
pub struct ByteEntry {
    key: Vec<u8>,
    value: Vec<u8>,
}

impl ByteEntry {
    /// The key of the entry.
    pub closed spec fn key(self) -> Seq<u8> {
        self.key@
    }

    /// The value of the entry.
    pub closed spec fn value(self) -> Seq<u8> {
        self.value@
    }
}

/// The map that a sequence of entries stands for; of two entries with one
/// key the later one counts.
pub open spec fn entries_map(entries: Seq<ByteEntry>) -> Map<Seq<u8>, Seq<u8>>
    decreases entries.len(),
{
    if entries.len() == 0 {
        Map::empty()
    } else {
        entries_map(entries.drop_last()).insert(entries.last().key(), entries.last().value())
    }
}

/// No key occurs twice.
pub open spec fn distinct_keys(entries: Seq<ByteEntry>) -> bool {
    forall|i: int, j: int|
        0 <= i < j < entries.len() ==> (#[trigger] entries[i]).key() != (#[trigger] entries[j]).key()
}

/// The keys rise from entry to entry, in the order of a dictionary.
pub open spec fn sorted_keys(entries: Seq<ByteEntry>) -> bool {
    forall|i: int, j: int|
        0 <= i < j < entries.len() ==> lex_lt(
            (#[trigger] entries[i]).key(),
            (#[trigger] entries[j]).key(),
        )
}

/// Keys that rise are all different.
pub proof fn lemma_sorted_keys_differ(entries: Seq<ByteEntry>)
    requires
        sorted_keys(entries),
    ensures
        distinct_keys(entries),
{
    assert forall|i: int, j: int| 0 <= i < j < entries.len() implies (#[trigger] entries[i]).key()
        != (#[trigger] entries[j]).key() by {
        lemma_lex_one_way(entries[i].key(), entries[j].key());
    }
}

/// A key that no entry holds is not in the map.
pub proof fn lemma_entries_map_absent(entries: Seq<ByteEntry>, key: Seq<u8>)
    requires
        forall|i: int| 0 <= i < entries.len() ==> (#[trigger] entries[i]).key() != key,
    ensures
        !entries_map(entries).dom().contains(key),
    decreases entries.len(),
{
    if entries.len() > 0 {
        lemma_entries_map_absent(entries.drop_last(), key);
    }
}

/// Where no key occurs twice, every entry is in the map as it stands.
pub proof fn lemma_entries_map_present(entries: Seq<ByteEntry>, i: int)
    requires
        distinct_keys(entries),
        0 <= i < entries.len(),
    ensures
        entries_map(entries).dom().contains(entries[i].key()),
        entries_map(entries)[entries[i].key()] == entries[i].value(),
    decreases entries.len(),
{
    if i < entries.len() - 1 {
        lemma_entries_map_present(entries.drop_last(), i);
    }
}

/// Every key of the map is the key of some entry.
pub proof fn lemma_entries_map_witness(entries: Seq<ByteEntry>, key: Seq<u8>) -> (i: int)
    requires
        entries_map(entries).dom().contains(key),
    ensures
        0 <= i < entries.len(),
        entries[i].key() == key,
    decreases entries.len(),
{
    if entries.last().key() == key {
        entries.len() - 1
    } else {
        lemma_entries_map_witness(entries.drop_last(), key)
    }
}

/// Replacing the value of one entry replaces it in the map.
pub proof fn lemma_entries_map_update(entries: Seq<ByteEntry>, i: int, entry: ByteEntry)
    requires
        distinct_keys(entries),
        0 <= i < entries.len(),
        entry.key() == entries[i].key(),
    ensures
        distinct_keys(entries.update(i, entry)),
        sorted_keys(entries) ==> sorted_keys(entries.update(i, entry)),
        entries_map(entries.update(i, entry)) == entries_map(entries).insert(
            entry.key(),
            entry.value(),
        ),
    decreases entries.len(),
{
    let updated = entries.update(i, entry);
    if sorted_keys(entries) {
        assert forall|a: int, b: int| 0 <= a < b < updated.len() implies lex_lt(
            (#[trigger] updated[a]).key(),
            (#[trigger] updated[b]).key(),
        ) by {
            assert(lex_lt(entries[a].key(), entries[b].key()));
        }
    }
    assert(distinct_keys(updated)) by {
        assert forall|a: int, b: int| 0 <= a < b < updated.len() implies (#[trigger] updated[a]).key()
            != (#[trigger] updated[b]).key() by {
            assert(entries[a].key() != entries[b].key());
        }
    }
    if i == entries.len() - 1 {
        assert(updated.drop_last() =~= entries.drop_last());
        assert(entries_map(updated) =~= entries_map(entries).insert(entry.key(), entry.value()));
    } else {
        lemma_entries_map_update(entries.drop_last(), i, entry);
        assert(updated.drop_last() =~= entries.drop_last().update(i, entry));
        assert(entries.last().key() != entry.key());
        assert(entries_map(updated) =~= entries_map(entries).insert(entry.key(), entry.value()));
    }
}

/// Putting a new key in between the entries puts it into the map.
pub proof fn lemma_entries_map_insert(entries: Seq<ByteEntry>, at: int, entry: ByteEntry)
    requires
        distinct_keys(entries),
        0 <= at <= entries.len(),
        forall|i: int| 0 <= i < entries.len() ==> (#[trigger] entries[i]).key() != entry.key(),
    ensures
        distinct_keys(entries.insert(at, entry)),
        entries_map(entries.insert(at, entry)) == entries_map(entries).insert(
            entry.key(),
            entry.value(),
        ),
    decreases entries.len(),
{
    let grown = entries.insert(at, entry);
    assert(distinct_keys(grown)) by {
        assert forall|a: int, b: int| 0 <= a < b < grown.len() implies (#[trigger] grown[a]).key()
            != (#[trigger] grown[b]).key() by {
            let from_a = if a < at {
                a
            } else {
                a - 1
            };
            let from_b = if b < at {
                b
            } else {
                b - 1
            };
            if a != at && b != at {
                assert(grown[a] == entries[from_a]);
                assert(grown[b] == entries[from_b]);
                assert(entries[from_a].key() != entries[from_b].key());
            } else if a == at {
                assert(grown[b] == entries[from_b]);
            } else {
                assert(grown[a] == entries[from_a]);
            }
        }
    }
    if at == entries.len() {
        assert(grown =~= entries.push(entry));
        assert(grown.drop_last() =~= entries);
    } else {
        let front = entries.drop_last();
        assert(distinct_keys(front)) by {
            assert forall|a: int, b: int| 0 <= a < b < front.len() implies (#[trigger] front[a]).key()
                != (#[trigger] front[b]).key() by {
                assert(entries[a].key() != entries[b].key());
            }
        }
        assert forall|i: int| 0 <= i < front.len() implies (#[trigger] front[i]).key()
            != entry.key() by {
            assert(front[i] == entries[i]);
        }
        lemma_entries_map_insert(front, at, entry);
        assert(grown.drop_last() =~= front.insert(at, entry));
        assert(grown.last() == entries.last());
        assert(entries[entries.len() - 1].key() != entry.key());
        assert(entries_map(grown) =~= entries_map(entries).insert(entry.key(), entry.value()));
    }
}

/// Two lists of entries hold the same keys with the same values, place by
/// place.
pub open spec fn same_entries(a: Seq<ByteEntry>, b: Seq<ByteEntry>) -> bool {
    &&& a.len() == b.len()
    &&& forall|i: int|
        0 <= i < a.len() ==> (#[trigger] a[i]).key() == b[i].key() && a[i].value() == b[i].value()
}

/// Without its last entry a list of rising keys stands for the map without
/// the last key, and its keys still rise.
pub proof fn lemma_entries_map_shrinks(entries: Seq<ByteEntry>)
    requires
        sorted_keys(entries),
        entries.len() > 0,
    ensures
        sorted_keys(entries.drop_last()),
        entries_map(entries.drop_last()) == entries_map(entries).remove(entries.last().key()),
{
    let front = entries.drop_last();
    assert forall|i: int, j: int| 0 <= i < j < front.len() implies lex_lt(
        (#[trigger] front[i]).key(),
        (#[trigger] front[j]).key(),
    ) by {
        assert(lex_lt(entries[i].key(), entries[j].key()));
    }
    assert forall|i: int| 0 <= i < front.len() implies (#[trigger] front[i]).key()
        != entries.last().key() by {
        assert(lex_lt(entries[i].key(), entries[entries.len() - 1].key()));
        lemma_lex_one_way(entries[i].key(), entries.last().key());
    }
    lemma_entries_map_absent(front, entries.last().key());
    assert(entries_map(front) =~= entries_map(entries).remove(entries.last().key()));
}

/// The order of the entries follows from the map: two lists of rising keys
/// that stand for one map hold the same entries in the same places.
pub proof fn law_order_follows_from_map(a: Seq<ByteEntry>, b: Seq<ByteEntry>)
    requires
        sorted_keys(a),
        sorted_keys(b),
        entries_map(a) == entries_map(b),
    ensures
        same_entries(a, b),
    decreases a.len(),
{
    lemma_sorted_keys_differ(a);
    lemma_sorted_keys_differ(b);
    if a.len() == 0 {
        if b.len() > 0 {
            lemma_entries_map_present(b, 0);
        }
    } else if b.len() == 0 {
        lemma_entries_map_present(a, 0);
    } else {
        let last_a = a.len() - 1;
        let last_b = b.len() - 1;
        lemma_entries_map_present(a, last_a);
        lemma_entries_map_present(b, last_b);
        let in_b = lemma_entries_map_witness(b, a[last_a].key());
        let in_a = lemma_entries_map_witness(a, b[last_b].key());
        if a[last_a].key() != b[last_b].key() {
            assert(lex_lt(b[in_b].key(), b[last_b].key()));
            assert(lex_lt(a[in_a].key(), a[last_a].key()));
            lemma_lex_one_way(a[last_a].key(), b[last_b].key());
        }
        lemma_entries_map_shrinks(a);
        lemma_entries_map_shrinks(b);
        law_order_follows_from_map(a.drop_last(), b.drop_last());
        assert forall|i: int| 0 <= i < a.len() implies (#[trigger] a[i]).key() == b[i].key()
            && a[i].value() == b[i].value() by {
            if i < last_a {
                assert(a.drop_last()[i] == a[i]);
                assert(b.drop_last()[i] == b[i]);
            }
        }
    }
}

/// The strings of an entry are no longer than memory allows.
pub proof fn lemma_entry_fits(entry: ByteEntry)
    ensures
        entry.key().len() <= usize::MAX,
        entry.value().len() <= usize::MAX,
{
    assert(entry.key.len() == entry.key@.len());
    assert(entry.value.len() == entry.value@.len());
}

/// A map from byte strings to byte strings, as a list of entries in the
/// order of their keys.
#[derive(Debug)]
pub struct ByteMap {
    entries: Vec<ByteEntry>,
}

impl View for ByteMap {
    type V = Map<Seq<u8>, Seq<u8>>;

    closed spec fn view(&self) -> Map<Seq<u8>, Seq<u8>> {
        entries_map(self.entries@)
    }
}

impl ByteMap {
    /// The entries in the order of their keys.
    pub closed spec fn entries(&self) -> Seq<ByteEntry> {
        self.entries@
    }

    /// The keys rise from entry to entry, so that no key is held twice and
    /// the order of the entries follows from what the map holds.
    pub open spec fn wf(&self) -> bool {
        &&& sorted_keys(self.entries())
        &&& distinct_keys(self.entries())
        &&& self@ == entries_map(self.entries())
    }

    /// A map holds no more entries than memory allows.
    pub proof fn lemma_entries_fit(self)
        ensures
            self.entries().len() <= usize::MAX,
    {
        assert(self.entries.len() == self.entries@.len());
    }

    /// A map without entries.
    pub fn new() -> (map: ByteMap)
        ensures
            map.wf(),
            map.entries() == Seq::<ByteEntry>::empty(),
            map@ == Map::<Seq<u8>, Seq<u8>>::empty(),
    {
        ByteMap { entries: Vec::new() }
    }

    /// The number of entries.
    pub fn len(&self) -> (n: usize)
        ensures
            n == self.entries().len(),
    {
        self.entries.len()
    }

    /// The key at place `i`, in the order of the keys.
    pub fn key_at(&self, i: usize) -> (key: &Vec<u8>)
        requires
            i < self.entries().len(),
        ensures
            key@ == self.entries()[i as int].key(),
    {
        &self.entries[i].key
    }

    /// The value at place `i`, in the order of the keys.
    pub fn value_at(&self, i: usize) -> (value: &Vec<u8>)
        requires
            i < self.entries().len(),
        ensures
            value@ == self.entries()[i as int].value(),
    {
        &self.entries[i].value
    }

    /// The place of the entry that holds `key`.
    pub fn find(&self, key: &[u8]) -> (found: Option<usize>)
        requires
            self.wf(),
        ensures
            match found {
                Some(i) => {
                    &&& i < self.entries().len()
                    &&& self.entries()[i as int].key() == key@
                    &&& self@.dom().contains(key@)
                    &&& self@[key@] == self.entries()[i as int].value()
                },
                None => !self@.dom().contains(key@),
            },
    {
        let mut i: usize = 0;
        while i < self.entries.len()
            invariant
                self.wf(),
                i <= self.entries@.len(),
                forall|j: int| 0 <= j < i ==> (#[trigger] self.entries@[j]).key() != key@,
            decreases self.entries@.len() - i,
        {
            if bytes_eq(self.entries[i].key.as_slice(), key) {
                proof {
                    lemma_entries_map_present(self.entries@, i as int);
                }
                return Some(i);
            }
            i += 1;
        }
        proof {
            lemma_entries_map_absent(self.entries@, key@);
        }
        None
    }

    /// A copy that holds the same keys with the same values.
    pub fn duplicate(&self) -> (copy: ByteMap)
        requires
            self.wf(),
        ensures
            copy.wf(),
            copy@ == self@,
    {
        let mut copy = ByteMap::new();
        let mut i: usize = 0;
        assert(self.entries@.take(0) =~= Seq::<ByteEntry>::empty());
        while i < self.entries.len()
            invariant
                i <= self.entries@.len(),
                copy.wf(),
                copy@ == entries_map(self.entries@.take(i as int)),
            decreases self.entries@.len() - i,
        {
            copy.put(self.entries[i].key.as_slice(), self.entries[i].value.as_slice());
            assert(self.entries@.take(i + 1).drop_last() =~= self.entries@.take(i as int));
            i += 1;
        }
        assert(self.entries@.take(i as int) =~= self.entries@);
        copy
    }

    /// The place at which a new key belongs: before the first key that it
    /// comes before, or behind all of them.
    fn place(&self, key: &[u8]) -> (at: usize)
        ensures
            at <= self.entries().len(),
            forall|j: int| 0 <= j < at ==> !lex_lt(key@, (#[trigger] self.entries()[j]).key()),
            at < self.entries().len() ==> lex_lt(key@, self.entries()[at as int].key()),
    {
        let mut at: usize = 0;
        while at < self.entries.len() && !bytes_less(key, self.entries[at].key.as_slice())
            invariant
                at <= self.entries@.len(),
                forall|j: int| 0 <= j < at ==> !lex_lt(key@, (#[trigger] self.entries@[j]).key()),
            decreases self.entries@.len() - at,
        {
            at += 1;
        }
        at
    }

    /// Gives `key` the value `value`, in its place in the order of the keys
    /// if the key is new, in the place of its entry if it is not.
    pub fn put(&mut self, key: &[u8], value: &[u8])
        requires
            old(self).wf(),
        ensures
            final(self).wf(),
            final(self)@ == old(self)@.insert(key@, value@),
            old(self)@.dom().contains(key@) ==> final(self).entries().len() == old(
                self,
            ).entries().len(),
            !old(self)@.dom().contains(key@) ==> final(self).entries().len() == old(
                self,
            ).entries().len() + 1,
            old(self)@.dom().contains(key@) && old(self)@[key@] == value@ ==> final(self).entries()
                == old(self).entries(),
    {
        let entry = ByteEntry { key: copy_bytes(key), value: copy_bytes(value) };
        match self.find(key) {
            Some(i) => {
                if !bytes_eq(self.entries[i].value.as_slice(), value) {
                    proof {
                        lemma_entries_map_update(self.entries@, i as int, entry);
                    }
                    self.entries.set(i, entry);
                } else {
                    assert(self@.insert(key@, value@) =~= self@);
                }
            },
            None => {
                let at = self.place(key);
                proof {
                    let before = self.entries@;
                    assert forall|i: int| 0 <= i < before.len() implies (#[trigger] before[i]).key()
                        != key@ by {
                        if before[i].key() == key@ {
                            lemma_entries_map_present(before, i);
                        }
                    }
                    lemma_entries_map_insert(before, at as int, entry);
                    let grown = before.insert(at as int, entry);
                    assert forall|a: int, b: int| 0 <= a < b < grown.len() implies lex_lt(
                        (#[trigger] grown[a]).key(),
                        (#[trigger] grown[b]).key(),
                    ) by {
                        let from_a = if a < at {
                            a
                        } else {
                            a - 1
                        };
                        let from_b = if b < at {
                            b
                        } else {
                            b - 1
                        };
                        if a != at && b != at {
                            assert(grown[a] == before[from_a]);
                            assert(grown[b] == before[from_b]);
                            assert(lex_lt(before[from_a].key(), before[from_b].key()));
                        } else if b == at {
                            assert(grown[a] == before[from_a]);
                            lemma_lex_total(before[from_a].key(), key@);
                        } else {
                            assert(grown[b] == before[from_b]);
                            if from_b > at {
                                assert(lex_lt(before[at as int].key(), before[from_b].key()));
                                lemma_lex_transitive(
                                    key@,
                                    before[at as int].key(),
                                    before[from_b].key(),
                                );
                            }
                        }
                    }
                }
                self.entries.insert(at, entry);
            },
        }
    }
}

} // verus!
