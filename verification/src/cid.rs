//! The content-addressed value table.

use vstd::prelude::*;
use sha2::Digest;
use sha2::Sha256;
use crate::bytes::bytes_eq;
use crate::bytes::copy_bytes;
use crate::bytes::lemma_lex_one_way;
use crate::bytes::lex_lt;
use crate::byte_map::lemma_entries_map_witness;
use crate::byte_map::ByteEntry;
use crate::byte_map::ByteMap;
use crate::byte_map::distinct_keys;
use crate::byte_map::sorted_keys;
use crate::byte_map::entries_map;
use crate::byte_map::lemma_entries_map_absent;
use crate::byte_map::lemma_entries_map_present;

verus! {

/// The SHA-256 digest of a byte string.
pub uninterp spec fn content_hash(data: Seq<u8>) -> Seq<u8>;

/// `Sha256::digest` of the `sha2` crate: the digest is a function of the
/// bytes alone, which `content_hash` names.
#[verifier::external_body]
fn sha256(data: &[u8]) -> (digest: Vec<u8>)
    ensures
        digest@ == content_hash(data@),
{
    Sha256::digest(data).to_vec()
}

/// No value is recorded under the identifier `cid`.
#[derive(Debug, PartialEq, Eq)]
pub struct UnknownCid {
    pub cid: Vec<u8>,
}

/// Two different values claim the identifier `cid`.
#[derive(Debug, PartialEq, Eq)]
pub struct CidCollision {
    pub cid: Vec<u8>,
}

/// The table of values, each under the digest of its bytes.
#[derive(Debug)]
pub struct CidTable {
    map: ByteMap,
}

impl View for CidTable {
    type V = Map<Seq<u8>, Seq<u8>>;

    /// The table as a map from identifier to value.
    closed spec fn view(&self) -> Map<Seq<u8>, Seq<u8>> {
        self.map@
    }
}

impl CidTable {
    /// The number of entries held.
    pub open spec fn size(&self) -> nat {
        self.entries().len()
    }

    /// No identifier is held twice.
    pub closed spec fn wf(&self) -> bool {
        self.map.wf()
    }

    /// The entries in the order of their identifiers.
    pub closed spec fn entries(&self) -> Seq<ByteEntry> {
        self.map.entries()
    }

    /// A table that is well formed holds every entry once, in the order of
    /// the identifiers and in the map as it stands in the list, and no more
    /// entries than memory allows.
    pub proof fn lemma_entries(self)
        requires
            self.wf(),
        ensures
            sorted_keys(self.entries()),
            distinct_keys(self.entries()),
            self@ == entries_map(self.entries()),
            self.entries().len() <= usize::MAX,
    {
        self.map.lemma_entries_fit();
    }

    /// A table without values.
    pub fn new() -> (table: CidTable)
        ensures
            table.wf(),
            table@ == Map::<Seq<u8>, Seq<u8>>::empty(),
            table.size() == 0,
    {
        CidTable { map: ByteMap::new() }
    }

    /// The number of values held.
    pub fn len(&self) -> (n: usize)
        ensures
            n == self.size(),
    {
        self.map.len()
    }

    /// The identifier at place `i`, in the order of the identifiers.
    pub fn cid_at(&self, i: usize) -> (cid: &Vec<u8>)
        requires
            i < self.size(),
        ensures
            cid@ == self.entries()[i as int].key(),
    {
        self.map.key_at(i)
    }

    /// The value at place `i`, in the order of the identifiers.
    pub fn value_at(&self, i: usize) -> (value: &Vec<u8>)
        requires
            i < self.size(),
        ensures
            value@ == self.entries()[i as int].value(),
    {
        self.map.value_at(i)
    }

    /// Whether a value is recorded under `cid`.
    pub fn contains(&self, cid: &[u8]) -> (held: bool)
        requires
            self.wf(),
        ensures
            held == self@.dom().contains(cid@),
    {
        self.map.find(cid).is_some()
    }

    /// The value recorded under `cid`.
    pub fn resolve(&self, cid: &[u8]) -> (found: Result<Vec<u8>, UnknownCid>)
        requires
            self.wf(),
        ensures
            match found {
                Ok(value) => self@.dom().contains(cid@) && value@ == self@[cid@],
                Err(unknown) => !self@.dom().contains(cid@) && unknown.cid@ == cid@,
            },
    {
        match self.map.find(cid) {
            Some(i) => Ok(copy_bytes(self.map.value_at(i).as_slice())),
            None => Err(UnknownCid { cid: copy_bytes(cid) }),
        }
    }

    /// Records `value` under `cid`. A value already recorded under `cid`
    /// must be the same one; the table then stays as it is.
    pub fn insert(&mut self, cid: &[u8], value: &[u8]) -> (done: Result<(), CidCollision>)
        requires
            old(self).wf(),
        ensures
            final(self).wf(),
            match done {
                Ok(()) => {
                    &&& old(self)@.dom().contains(cid@) ==> old(self)@[cid@] == value@
                    &&& old(self)@.dom().contains(cid@) ==> final(self).entries() == old(self).entries()
                    &&& !old(self)@.dom().contains(cid@) ==> final(self).size() == old(self).size() + 1
                    &&& final(self)@ == old(self)@.insert(cid@, value@)
                },
                Err(clash) => {
                    &&& old(self)@.dom().contains(cid@)
                    &&& old(self)@[cid@] != value@
                    &&& clash.cid@ == cid@
                    &&& final(self).entries() == old(self).entries()
                    &&& final(self)@ == old(self)@
                },
            },
    {
        match self.map.find(cid) {
            Some(i) => {
                if bytes_eq(self.map.value_at(i).as_slice(), value) {
                    assert(self@.insert(cid@, value@) =~= self@);
                    Ok(())
                } else {
                    Err(CidCollision { cid: copy_bytes(cid) })
                }
            },
            None => {
                self.map.put(cid, value);
                Ok(())
            },
        }
    }

    /// Records `value` under the digest of its bytes and returns the digest.
    /// Interning fails only where another value already holds that digest.
    pub fn intern(&mut self, value: &[u8]) -> (done: Result<Vec<u8>, CidCollision>)
        requires
            old(self).wf(),
        ensures
            final(self).wf(),
            match done {
                Ok(cid) => !intern_collides(*old(self), value@) && interned(
                    *old(self),
                    value@,
                    *final(self),
                    cid@,
                ),
                Err(clash) => {
                    &&& intern_collides(*old(self), value@)
                    &&& clash.cid@ == content_hash(value@)
                    &&& final(self).entries() == old(self).entries()
                    &&& final(self)@ == old(self)@
                },
            },
    {
        let cid = sha256(value);
        match self.insert(cid.as_slice(), value) {
            Ok(()) => Ok(cid),
            Err(e) => Err(e),
        }
    }

    /// Joins the table of the previous round with the one that came with the
    /// current data. The two must agree wherever both hold an identifier;
    /// where they do not, the first identifier that they give two values to
    /// is reported.
    pub fn merge(previous: CidTable, current: &CidTable) -> (merged: Result<
        CidTable,
        CidCollision,
    >)
        requires
            previous.wf(),
            current.wf(),
        ensures
            match merged {
                Ok(table) => {
                    &&& tables_agree(previous@, current@)
                    &&& table.wf()
                    &&& table@ == previous@.union_prefer_right(current@)
                },
                Err(clash) => first_clash(previous@, current@, clash.cid@),
            },
    {
        let mut table = previous;
        let mut i: usize = 0;
        assert(current.map.entries().take(0) =~= Seq::<ByteEntry>::empty());
        assert(table@ =~= previous@.union_prefer_right(entries_map(current.map.entries().take(0))));
        while i < current.map.len()
            invariant
                i <= current.map.entries().len(),
                current.wf(),
                table.wf(),
                table@ == previous@.union_prefer_right(entries_map(current.map.entries().take(i as int))),
                forall|j: int|
                    0 <= j < i && previous@.dom().contains((#[trigger] current.map.entries()[j]).key())
                        ==> previous@[current.map.entries()[j].key()] == current.map.entries()[j].value(),
            decreases current.map.entries().len() - i,
        {
            let ghost entry = current.map.entries()[i as int];
            let ghost before = table@;
            let ghost seen = current.map.entries().take(i as int);
            proof {
                assert(current.map.entries().take(i + 1).drop_last() =~= seen);
                lemma_entries_map_present(current.map.entries(), i as int);
                assert forall|j: int| 0 <= j < seen.len() implies (#[trigger] seen[j]).key()
                    != entry.key() by {
                    assert(seen[j] == current.map.entries()[j]);
                }
                lemma_entries_map_absent(seen, entry.key());
            }
            match table.insert(current.map.key_at(i).as_slice(), current.map.value_at(i).as_slice()) {
                Ok(()) => {
                    assert(table@ =~= previous@.union_prefer_right(
                        entries_map(current.map.entries().take(i + 1)),
                    ));
                },
                Err(e) => {
                    proof {
                        let theirs = current.map.entries();
                        assert(table@ == before);
                        assert(clash_at(previous@, current@, e.cid@)) by {
                            if !previous@.dom().contains(e.cid@) {
                                assert(entries_map(seen).dom().contains(e.cid@));
                            }
                        }
                        assert forall|other: Seq<u8>|
                            clash_at(previous@, current@, other) && other != e.cid@ implies lex_lt(
                            e.cid@,
                            other,
                        ) by {
                            let j = lemma_entries_map_witness(theirs, other);
                            lemma_entries_map_present(theirs, j);
                            assert(j > i);
                            assert(lex_lt(theirs[i as int].key(), theirs[j].key()));
                        }
                    }
                    return Err(e);
                },
            }
            i += 1;
        }
        proof {
            assert(current.map.entries().take(i as int) =~= current.map.entries());
            assert forall|cid: Seq<u8>|
                previous@.dom().contains(cid) && current@.dom().contains(
                    cid,
                ) implies previous@[cid] == current@[cid] by {
                let theirs = current.map.entries();
                if forall|j: int| 0 <= j < theirs.len() ==> (#[trigger] theirs[j]).key() != cid {
                    lemma_entries_map_absent(current.map.entries(), cid);
                } else {
                    let j = choose|j: int|
                        0 <= j < current.map.entries().len() && (#[trigger] current.map.entries()[j]).key()
                            == cid;
                    lemma_entries_map_present(current.map.entries(), j);
                }
            }
        }
        Ok(table)
    }
}

/// What a successful `intern` of `value` does to a table.
pub open spec fn interned(before: CidTable, value: Seq<u8>, after: CidTable, cid: Seq<u8>) -> bool {
    &&& cid == content_hash(value)
    &&& after@ == before@.insert(cid, value)
    &&& before@.dom().contains(cid) ==> after.entries() == before.entries()
    &&& !before@.dom().contains(cid) ==> after.size() == before.size() + 1
}

/// Another value already holds the digest of `value`.
pub open spec fn intern_collides(before: CidTable, value: Seq<u8>) -> bool {
    before@.dom().contains(content_hash(value)) && before@[content_hash(value)] != value
}

/// Two tables give two values to `cid`.
pub open spec fn clash_at(a: Map<Seq<u8>, Seq<u8>>, b: Map<Seq<u8>, Seq<u8>>, cid: Seq<u8>) -> bool {
    a.dom().contains(cid) && b.dom().contains(cid) && a[cid] != b[cid]
}

/// `cid` is the first identifier, in the order of a dictionary, that two
/// tables give two values to.
pub open spec fn first_clash(
    a: Map<Seq<u8>, Seq<u8>>,
    b: Map<Seq<u8>, Seq<u8>>,
    cid: Seq<u8>,
) -> bool {
    &&& clash_at(a, b, cid)
    &&& forall|other: Seq<u8>| #[trigger] clash_at(a, b, other) ==> other == cid || lex_lt(cid, other)
}

/// Two tables have one first clash at most: which identifier is reported for
/// tables that disagree follows from what the tables hold.
pub proof fn law_one_first_clash(
    a: Map<Seq<u8>, Seq<u8>>,
    b: Map<Seq<u8>, Seq<u8>>,
    one: Seq<u8>,
    other: Seq<u8>,
)
    requires
        first_clash(a, b, one),
        first_clash(a, b, other),
    ensures
        one == other,
{
    lemma_lex_one_way(one, other);
}

/// Two tables give one value to every identifier that both hold.
pub open spec fn tables_agree(a: Map<Seq<u8>, Seq<u8>>, b: Map<Seq<u8>, Seq<u8>>) -> bool {
    forall|cid: Seq<u8>| a.dom().contains(cid) && b.dom().contains(cid) ==> a[cid] == b[cid]
}

/// Interning is idempotent: after a value has been interned, interning it
/// again cannot fail, returns the same identifier and leaves the table, and
/// with it its size, as it was.
pub proof fn law_intern_idempotent(
    start: CidTable,
    once: CidTable,
    twice: CidTable,
    value: Seq<u8>,
    first: Seq<u8>,
    second: Seq<u8>,
)
    requires
        interned(start, value, once, first),
        interned(once, value, twice, second),
    ensures
        !intern_collides(once, value),
        second == first,
        twice.entries() == once.entries(),
        twice.size() == once.size(),
        twice@ == once@,
{
    assert(once@.dom().contains(first));
    assert(twice@ =~= once@);
}

} // verus!
