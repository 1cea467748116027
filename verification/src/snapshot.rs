//! One tick's decoded view of the producer's counter table.

use crate::assoc::{
    as_map, distinct_keys, has_key, lemma_as_map_at, lemma_as_map_dom, lemma_place_unique, put,
};
use crate::bytes::ByteOrder;
use crate::key::{Key, KeyModel};
use crate::record::{decode_key, decoded_key, decoded_value, parse_u64, KEY_SIZE};
use crate::table::KeyTable;
use vstd::prelude::*;

verus! {

/// One entry of the producer's table as it arrives: the bytes of a key and of a value.
#[derive(Debug)]
pub struct RawRecord {
    pub key: Vec<u8>,
    pub value: Vec<u8>,
}

/// Why a table could not be decoded.
#[derive(Clone, Copy, Debug, PartialEq, Eq, Structural)]
pub enum DecodeError {
    /// The record at `index` has a key of `len` bytes, which is not the size of a raw key.
    KeySize { index: usize, len: usize },
}

/// A mapping from key to the cumulative counter value seen in one tick. It keeps its keys in
/// the order in which they first arrived.
#[derive(Debug)]
pub struct Snapshot {
    table: KeyTable<u64>,
}

/// The pairs that a table decodes to: each record binds its key in turn, a later record
/// for the same key replacing the value of an earlier one.
pub open spec fn record_pairs(records: Seq<RawRecord>, order: ByteOrder) -> Seq<(KeyModel, u64)>
    decreases records.len(),
{
    if records.len() == 0 {
        Seq::empty()
    } else {
        put(
            record_pairs(records.drop_last(), order),
            decoded_key(records.last().key@, order),
            decoded_value(records.last().value@, order) as u64,
        )
    }
}

/// Every record of the table has a key of the right size.
pub open spec fn well_sized(records: Seq<RawRecord>) -> bool {
    forall|i: int| 0 <= i < records.len() ==> (#[trigger] records[i]).key@.len() == KEY_SIZE
}

/// The place of the first record whose key has the wrong size.
pub open spec fn first_missized(records: Seq<RawRecord>, index: int) -> bool {
    &&& 0 <= index < records.len()
    &&& records[index].key@.len() != KEY_SIZE
    &&& well_sized(records.take(index))
}

impl View for Snapshot {
    type V = Map<KeyModel, u64>;

    /// The mapping itself.
    open spec fn view(&self) -> Map<KeyModel, u64> {
        as_map(self.pairs())
    }
}

impl Snapshot {
    /// The keys with their values, in the order in which the keys first arrived.
    pub closed spec fn pairs(&self) -> Seq<(KeyModel, u64)> {
        self.table.pairs()
    }

    /// No key is held twice.
    #[verifier::type_invariant]
    pub closed spec fn wf(&self) -> bool {
        self.table.wf()
    }

    /// A well-formed snapshot has distinct keys.
    pub proof fn lemma_distinct(&self)
        requires
            self.wf(),
        ensures
            distinct_keys(self.pairs()),
    {
        self.table.lemma_distinct();
    }

    /// The empty snapshot.
    pub fn new() -> (s: Snapshot)
        ensures
            s.pairs() == Seq::<(KeyModel, u64)>::empty(),
    {
        Snapshot { table: KeyTable::new() }
    }

    /// The number of keys.
    pub fn len(&self) -> (n: usize)
        ensures
            n == self.pairs().len(),
    {
        self.table.len()
    }

    /// The key and the value at place `i`, if the snapshot has that many entries.
    pub fn entry(&self, i: usize) -> (r: Option<(&Key, u64)>)
        ensures
            r is Some <==> i < self.pairs().len(),
            r matches Some((key, value)) ==> (key@, value) == self.pairs()[i as int],
    {
        if i < self.table.len() {
            Some((self.table.key(i), *self.table.value(i)))
        } else {
            None
        }
    }

    /// Binds `key` to `value`. A key that is already held keeps its place and takes the new
    /// value.
    pub fn insert(&mut self, key: Key, value: u64)
        ensures
            final(self).pairs() == put(old(self).pairs(), key@, value),
    {
        proof {
            use_type_invariant(&*self);
        }
        let mut table: KeyTable<u64> = KeyTable::new();
        std::mem::swap(&mut table, &mut self.table);
        let ghost before = table.pairs();
        proof {
            table.lemma_distinct();
        }
        match table.find(&key) {
            Some(i) => {
                proof {
                    lemma_place_unique(before, i as int);
                }
                table.set_value(i, value);
            },
            None => {
                table.push_new(key, value);
            },
        }
        self.table = table;
    }

    /// The value bound to `key`, if any.
    pub fn get(&self, key: &Key) -> (r: Option<u64>)
        ensures
            r == (if self@.dom().contains(key@) {
                Some(self@[key@])
            } else {
                None
            }),
    {
        proof {
            use_type_invariant(self);
            self.table.lemma_distinct();
            lemma_as_map_dom(self.pairs());
        }
        match self.table.find(key) {
            Some(i) => {
                proof {
                    lemma_as_map_at(self.pairs(), i as int);
                }
                Some(*self.table.value(i))
            },
            None => {
                assert(!has_key(self.pairs(), key@));
                None
            },
        }
    }
}

/// Builds the snapshot of one tick from the entries of the producer's table. A later record
/// for a key replaces the value of an earlier one. A record whose key has not the size of a
/// raw key fails the whole table, and the error names the first such record.
pub fn to_map(records: &Vec<RawRecord>, order: ByteOrder) -> (r: Result<Snapshot, DecodeError>)
    ensures
        r is Ok <==> well_sized(records@),
        r matches Ok(snapshot) ==> snapshot.pairs() == record_pairs(records@, order),
        r matches Err(DecodeError::KeySize { index, len }) ==> first_missized(
            records@,
            index as int,
        ) && len == records@[index as int].key@.len(),
{
    let mut snapshot = Snapshot::new();
    let mut i: usize = 0;
    while i < records.len()
        invariant
            i <= records@.len(),
            well_sized(records@.take(i as int)),
            snapshot.pairs() == record_pairs(records@.take(i as int), order),
        decreases records@.len() - i,
    {
        let record = &records[i];
        let ghost seen = records@.take(i as int);
        let ghost next = records@.take(i + 1);
        proof {
            assert(next.drop_last() =~= seen);
            assert(next.last() == records@[i as int]);
        }
        match decode_key(record.key.as_slice(), order) {
            Some(key) => {
                let value = parse_u64(record.value.as_slice(), order);
                snapshot.insert(key, value);
                i = i + 1;
                proof {
                    assert forall|j: int| 0 <= j < next.len() implies (#[trigger] next[j]).key@.len()
                        == KEY_SIZE by {
                        if j < seen.len() {
                            assert(seen[j].key@.len() == KEY_SIZE);
                        }
                    }
                }
            },
            None => {
                assert(!well_sized(records@)) by {
                    assert(records@[i as int].key@.len() != KEY_SIZE);
                }
                return Err(DecodeError::KeySize { index: i, len: record.key.len() });
            },
        }
    }
    assert(records@.take(i as int) =~= records@);
    Ok(snapshot)
}

} // verus!
