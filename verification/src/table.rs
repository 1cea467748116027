//! A table of keys with values, in the order in which the keys arrived, with a hash index
//! so that a key is found without a walk over the whole table.
//!
//! Every entry holds the hash of its key and a link to the entry before it that has the
//! same hash. A map from hash to the last entry with that hash gives the head of each chain.

use crate::assoc::{distinct_keys, has_key, place_of};
use crate::key::{key_hash, Key, KeyModel};
use std::collections::HashMap;
use vstd::prelude::*;

verus! {

broadcast use vstd::std_specs::hash::group_hash_axioms;

/// One entry of a table.
#[derive(Debug)]
pub struct Entry<V> {
    key: Key,
    value: V,
    hash: u64,
    next: Option<usize>,
}

/// Keys with values in the order in which the keys arrived, no key twice.
#[derive(Debug)]
pub struct KeyTable<V> {
    entries: Vec<Entry<V>>,
    heads: HashMap<u64, usize>,
}

/// The keys and values of entries, in their order.
spec fn entry_pairs<V>(entries: Seq<Entry<V>>) -> Seq<(KeyModel, V)> {
    Seq::new(entries.len(), |i: int| (entries[i].key@, entries[i].value))
}

/// The last place below `bound` whose entry has the hash `h`.
spec fn last_with<V>(entries: Seq<Entry<V>>, bound: int, h: u64) -> Option<int>
    decreases bound,
{
    if bound <= 0 {
        None
    } else if entries[bound - 1].hash == h {
        Some(bound - 1)
    } else {
        last_with(entries, bound - 1, h)
    }
}

spec fn link(next: Option<usize>) -> Option<int> {
    match next {
        Some(i) => Some(i as int),
        None => None,
    }
}

spec fn head(heads: Map<u64, usize>, h: u64) -> Option<int> {
    if heads.contains_key(h) {
        Some(heads[h] as int)
    } else {
        None
    }
}

/// The index is exact: each entry holds the hash of its key and links to the entry before it
/// with the same hash, and each hash leads to the last entry that has it.
spec fn indexed<V>(entries: Seq<Entry<V>>, heads: Map<u64, usize>) -> bool {
    &&& forall|i: int|
        0 <= i < entries.len() ==> (#[trigger] entries[i]).hash == key_hash(entries[i].key@)
    &&& forall|i: int|
        0 <= i < entries.len() ==> link((#[trigger] entries[i]).next) == last_with(
            entries,
            i,
            entries[i].hash,
        )
    &&& forall|h: u64| #[trigger] head(heads, h) == last_with(entries, entries.len() as int, h)
}

proof fn lemma_last_with<V>(entries: Seq<Entry<V>>, bound: int, h: u64)
    requires
        0 <= bound <= entries.len(),
    ensures
        match last_with(entries, bound, h) {
            Some(j) => 0 <= j < bound && entries[j].hash == h && forall|i: int|
                j < i < bound ==> (#[trigger] entries[i]).hash != h,
            None => forall|i: int| 0 <= i < bound ==> (#[trigger] entries[i]).hash != h,
        },
    decreases bound,
{
    if bound > 0 && entries[bound - 1].hash != h {
        lemma_last_with(entries, bound - 1, h);
    }
}

proof fn lemma_last_with_agrees<V>(a: Seq<Entry<V>>, b: Seq<Entry<V>>, bound: int, h: u64)
    requires
        0 <= bound <= a.len(),
        bound <= b.len(),
        forall|i: int| 0 <= i < bound ==> (#[trigger] a[i]).hash == b[i].hash,
    ensures
        last_with(a, bound, h) == last_with(b, bound, h),
    decreases bound,
{
    if bound > 0 {
        assert(a[bound - 1].hash == b[bound - 1].hash);
        lemma_last_with_agrees(a, b, bound - 1, h);
    }
}

impl<V> KeyTable<V> {
    /// The keys with their values, in the order in which the keys arrived.
    pub closed spec fn pairs(&self) -> Seq<(KeyModel, V)> {
        entry_pairs(self.entries@)
    }

    /// No key is held twice, and the index is exact.
    pub closed spec fn wf(&self) -> bool {
        &&& distinct_keys(entry_pairs(self.entries@))
        &&& indexed(self.entries@, self.heads@)
    }

    /// A well-formed table has distinct keys.
    pub proof fn lemma_distinct(&self)
        requires
            self.wf(),
        ensures
            distinct_keys(self.pairs()),
    {
    }

    /// The empty table.
    pub fn new() -> (t: KeyTable<V>)
        ensures
            t.wf(),
            t.pairs() == Seq::<(KeyModel, V)>::empty(),
    {
        let t = KeyTable { entries: Vec::new(), heads: HashMap::new() };
        assert(t.pairs() =~= Seq::<(KeyModel, V)>::empty());
        t
    }

    /// The number of keys.
    pub fn len(&self) -> (n: usize)
        ensures
            n == self.pairs().len(),
    {
        self.entries.len()
    }

    /// The key at place `i`.
    pub fn key(&self, i: usize) -> (k: &Key)
        requires
            i < self.pairs().len(),
        ensures
            k@ == self.pairs()[i as int].0,
    {
        &self.entries[i].key
    }

    /// The value at place `i`.
    pub fn value(&self, i: usize) -> (v: &V)
        requires
            i < self.pairs().len(),
        ensures
            *v == self.pairs()[i as int].1,
    {
        &self.entries[i].value
    }

    /// The place of `key`, if the table holds it.
    pub fn find(&self, key: &Key) -> (r: Option<usize>)
        requires
            self.wf(),
        ensures
            match r {
                Some(i) => i < self.pairs().len() && self.pairs()[i as int].0 == key@,
                None => !has_key(self.pairs(), key@),
            },
    {
        let h = key.hash_code();
        let mut cur: Option<usize> = match self.heads.get(&h) {
            Some(i) => Some(*i),
            None => None,
        };
        let ghost mut bound: int = self.entries@.len() as int;
        assert(link(cur) == head(self.heads@, h));
        loop
            invariant
                self.wf(),
                h == key_hash(key@),
                0 <= bound <= self.entries@.len(),
                link(cur) == last_with(self.entries@, bound, h),
                forall|i: int|
                    bound <= i < self.entries@.len() ==> (#[trigger] self.entries@[i]).key@
                        != key@,
            decreases bound,
        {
            proof {
                lemma_last_with(self.entries@, bound, h);
            }
            match cur {
                None => {
                    assert(!has_key(self.pairs(), key@)) by {
                        if has_key(self.pairs(), key@) {
                            let i = place_of(self.pairs(), key@);
                            assert(self.entries@[i].key@ == key@);
                            assert(self.entries@[i].hash == h);
                        }
                    }
                    return None;
                },
                Some(i) => {
                    if self.entries[i].key == *key {
                        return Some(i);
                    }
                    proof {
                        assert forall|j: int|
                            i <= j < self.entries@.len() implies (#[trigger] self.entries@[j]).key@
                            != key@ by {
                            if i < j < bound {
                                assert(self.entries@[j].hash != h);
                            }
                        }
                        bound = i as int;
                    }
                    cur = self.entries[i].next;
                },
            }
        }
    }

    /// Adds a key that the table does not hold yet, at the end.
    pub fn push_new(&mut self, key: Key, value: V)
        requires
            old(self).wf(),
            !has_key(old(self).pairs(), key@),
        ensures
            final(self).wf(),
            final(self).pairs() == old(self).pairs().push((key@, value)),
    {
        let h = key.hash_code();
        let next: Option<usize> = match self.heads.get(&h) {
            Some(i) => Some(*i),
            None => None,
        };
        let n = self.entries.len();
        let ghost before = self.entries@;
        let ghost heads = self.heads@;
        assert(link(next) == head(heads, h));
        self.entries.push(Entry { key, value, hash: h, next });
        self.heads.insert(h, n);
        proof {
            let after = self.entries@;
            assert(entry_pairs(after) =~= entry_pairs(before).push((key@, value)));
            assert(distinct_keys(entry_pairs(after))) by {
                crate::assoc::lemma_put(entry_pairs(before), key@, value);
            }
            assert forall|i: int| 0 <= i < after.len() implies link((#[trigger] after[i]).next)
                == last_with(after, i, after[i].hash) by {
                lemma_last_with_agrees(before, after, i, after[i].hash);
                if i < n {
                    assert(after[i] == before[i]);
                }
            }
            assert forall|hh: u64| #[trigger]
                head(self.heads@, hh) == last_with(after, after.len() as int, hh) by {
                lemma_last_with_agrees(before, after, n as int, hh);
                assert(head(heads, hh) == last_with(before, n as int, hh));
            }
        }
    }

    /// Replaces the value at place `i`.
    pub fn set_value(&mut self, i: usize, value: V)
        requires
            old(self).wf(),
            i < old(self).pairs().len(),
        ensures
            final(self).wf(),
            final(self).pairs() == old(self).pairs().update(
                i as int,
                (old(self).pairs()[i as int].0, value),
            ),
    {
        let ghost before = self.entries@;
        self.entries[i].value = value;
        proof {
            let after = self.entries@;
            assert(entry_pairs(after) =~= entry_pairs(before).update(
                i as int,
                (entry_pairs(before)[i as int].0, value),
            ));
            crate::assoc::lemma_as_map_update(entry_pairs(before), i as int, value);
            assert forall|j: int| 0 <= j < after.len() implies link((#[trigger] after[j]).next)
                == last_with(after, j, after[j].hash) by {
                lemma_last_with_agrees(before, after, j, after[j].hash);
                assert(before[j].hash == after[j].hash);
            }
            assert forall|hh: u64| #[trigger]
                head(self.heads@, hh) == last_with(after, after.len() as int, hh) by {
                lemma_last_with_agrees(before, after, after.len() as int, hh);
            }
        }
    }

    /// Takes the last entry out of the table.
    pub fn pop(&mut self) -> (r: Option<(Key, V)>)
        requires
            old(self).wf(),
        ensures
            final(self).wf(),
            match r {
                Some((k, v)) => old(self).pairs().len() > 0 && final(self).pairs() == old(
                    self,
                ).pairs().drop_last() && (k@, v) == old(self).pairs().last(),
                None => old(self).pairs().len() == 0 && final(self).pairs() == old(self).pairs(),
            },
    {
        let ghost before = self.entries@;
        let ghost heads = self.heads@;
        match self.entries.pop() {
            None => None,
            Some(e) => {
                match e.next {
                    Some(j) => {
                        self.heads.insert(e.hash, j);
                    },
                    None => {
                        self.heads.remove(&e.hash);
                    },
                }
                proof {
                    let after = self.entries@;
                    let n = after.len() as int;
                    assert(e == before[n]);
                    assert(entry_pairs(after) =~= entry_pairs(before).drop_last());
                    crate::assoc::lemma_as_map_drop_last(entry_pairs(before));
                    assert forall|j: int| 0 <= j < after.len() implies link(
                        (#[trigger] after[j]).next,
                    ) == last_with(after, j, after[j].hash) by {
                        lemma_last_with_agrees(before, after, j, after[j].hash);
                        assert(after[j] == before[j]);
                    }
                    assert forall|hh: u64| #[trigger]
                        head(self.heads@, hh) == last_with(after, n, hh) by {
                        lemma_last_with_agrees(before, after, n, hh);
                        assert(head(heads, hh) == last_with(before, n + 1, hh));
                    }
                }
                Some((e.key, e.value))
            },
        }
    }
}

} // verus!
