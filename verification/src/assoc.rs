//! Association lists: sequences of key-value pairs in which no key occurs twice, and the
//! maps they stand for.

use vstd::prelude::*;

verus! {

/// No key occurs at two places.
pub open spec fn distinct_keys<K, V>(pairs: Seq<(K, V)>) -> bool {
    forall|i: int, j: int| 0 <= i < j < pairs.len() ==> pairs[i].0 != pairs[j].0
}

/// Some pair has the key `k`.
pub open spec fn has_key<K, V>(pairs: Seq<(K, V)>, k: K) -> bool {
    exists|i: int| 0 <= i < pairs.len() && pairs[i].0 == k
}

/// A place at which `k` occurs, where it occurs at all.
pub open spec fn place_of<K, V>(pairs: Seq<(K, V)>, k: K) -> int {
    choose|i: int| 0 <= i < pairs.len() && pairs[i].0 == k
}

/// The map that the pairs stand for. Where a key occurs twice the later pair counts.
pub open spec fn as_map<K, V>(pairs: Seq<(K, V)>) -> Map<K, V>
    decreases pairs.len(),
{
    if pairs.len() == 0 {
        Map::empty()
    } else {
        as_map(pairs.drop_last()).insert(pairs.last().0, pairs.last().1)
    }
}

/// The pairs after `k` is bound to `v`: in place where `k` occurs, at the end where it is
/// new.
pub open spec fn put<K, V>(pairs: Seq<(K, V)>, k: K, v: V) -> Seq<(K, V)> {
    if has_key(pairs, k) {
        pairs.update(place_of(pairs, k), (k, v))
    } else {
        pairs.push((k, v))
    }
}

/// The keys of the map are the keys of the pairs.
pub proof fn lemma_as_map_dom<K, V>(pairs: Seq<(K, V)>)
    ensures
        forall|k: K| #[trigger] as_map(pairs).dom().contains(k) <==> has_key(pairs, k),
    decreases pairs.len(),
{
    if pairs.len() > 0 {
        let front = pairs.drop_last();
        lemma_as_map_dom(front);
        let last = pairs.last();
        assert(as_map(pairs) == as_map(front).insert(last.0, last.1));
        assert forall|k: K| #[trigger] as_map(pairs).dom().contains(k) <==> has_key(
            pairs,
            k,
        ) by {
            let in_front = as_map(front).dom().contains(k);
            assert(in_front <==> has_key(front, k));
            assert(as_map(pairs).dom().contains(k) <==> (k == last.0 || in_front));
            if has_key(front, k) {
                let i = place_of(front, k);
                assert(0 <= i < front.len() && front[i].0 == k);
                assert(pairs[i].0 == k);
            }
            if last.0 == k {
                assert(pairs[pairs.len() - 1].0 == k);
            }
            if has_key(pairs, k) {
                let i = place_of(pairs, k);
                assert(0 <= i < pairs.len() && pairs[i].0 == k);
                if i < pairs.len() - 1 {
                    assert(front[i].0 == k);
                }
            }
        }
    }
}

/// With distinct keys, the map binds each key to the value that stands beside it.
pub proof fn lemma_as_map_at<K, V>(pairs: Seq<(K, V)>, i: int)
    requires
        distinct_keys(pairs),
        0 <= i < pairs.len(),
    ensures
        as_map(pairs).dom().contains(pairs[i].0),
        as_map(pairs)[pairs[i].0] == pairs[i].1,
    decreases pairs.len(),
{
    if i < pairs.len() - 1 {
        let front = pairs.drop_last();
        assert(distinct_keys(front)) by {
            assert forall|a: int, b: int| 0 <= a < b < front.len() implies front[a].0
                != front[b].0 by {
                assert(pairs[a].0 != pairs[b].0);
            }
        }
        lemma_as_map_at(front, i);
        assert(pairs[i].0 != pairs[pairs.len() - 1].0);
    }
}

/// A pair added at the end binds its key.
pub proof fn lemma_as_map_push<K, V>(pairs: Seq<(K, V)>, k: K, v: V)
    ensures
        as_map(pairs.push((k, v))) == as_map(pairs).insert(k, v),
{
    assert(pairs.push((k, v)).drop_last() =~= pairs);
}

/// With distinct keys, a new value written in place rebinds the key and keeps the keys
/// distinct.
pub proof fn lemma_as_map_update<K, V>(pairs: Seq<(K, V)>, i: int, v: V)
    requires
        distinct_keys(pairs),
        0 <= i < pairs.len(),
    ensures
        distinct_keys(pairs.update(i, (pairs[i].0, v))),
        as_map(pairs.update(i, (pairs[i].0, v))) == as_map(pairs).insert(pairs[i].0, v),
    decreases pairs.len(),
{
    let k = pairs[i].0;
    let changed = pairs.update(i, (k, v));
    assert(distinct_keys(changed)) by {
        assert forall|a: int, b: int| 0 <= a < b < changed.len() implies changed[a].0
            != changed[b].0 by {
            assert(pairs[a].0 != pairs[b].0);
        }
    }
    let front = pairs.drop_last();
    if i == pairs.len() - 1 {
        assert(changed.drop_last() =~= front);
        assert(as_map(changed) =~= as_map(pairs).insert(k, v));
    } else {
        assert(distinct_keys(front)) by {
            assert forall|a: int, b: int| 0 <= a < b < front.len() implies front[a].0
                != front[b].0 by {
                assert(pairs[a].0 != pairs[b].0);
            }
        }
        lemma_as_map_update(front, i, v);
        assert(changed.drop_last() =~= front.update(i, (k, v)));
        assert(pairs[i].0 != pairs[pairs.len() - 1].0);
        assert(as_map(changed) =~= as_map(pairs).insert(k, v));
    }
}

/// With distinct keys, the pairs without the last one stand for the map without its key.
pub proof fn lemma_as_map_drop_last<K, V>(pairs: Seq<(K, V)>)
    requires
        distinct_keys(pairs),
        pairs.len() > 0,
    ensures
        distinct_keys(pairs.drop_last()),
        !as_map(pairs.drop_last()).dom().contains(pairs.last().0),
        as_map(pairs.drop_last()) == as_map(pairs).remove(pairs.last().0),
{
    let front = pairs.drop_last();
    assert(distinct_keys(front)) by {
        assert forall|a: int, b: int| 0 <= a < b < front.len() implies front[a].0
            != front[b].0 by {
            assert(pairs[a].0 != pairs[b].0);
        }
    }
    lemma_as_map_dom(front);
    if has_key(front, pairs.last().0) {
        let i = place_of(front, pairs.last().0);
        assert(pairs[i].0 != pairs[pairs.len() - 1].0);
    }
    assert(as_map(front) =~= as_map(pairs).remove(pairs.last().0));
}

/// Binding a key keeps the keys distinct and gives the map with that one binding changed.
pub proof fn lemma_put<K, V>(pairs: Seq<(K, V)>, k: K, v: V)
    requires
        distinct_keys(pairs),
    ensures
        distinct_keys(put(pairs, k, v)),
        as_map(put(pairs, k, v)) == as_map(pairs).insert(k, v),
        has_key(pairs, k) ==> put(pairs, k, v).len() == pairs.len(),
        !has_key(pairs, k) ==> put(pairs, k, v).len() == pairs.len() + 1,
{
    if has_key(pairs, k) {
        lemma_as_map_update(pairs, place_of(pairs, k), v);
    } else {
        lemma_as_map_push(pairs, k, v);
        let longer = pairs.push((k, v));
        assert forall|a: int, b: int| 0 <= a < b < longer.len() implies longer[a].0
            != longer[b].0 by {
            if b == pairs.len() {
                assert(pairs[a].0 != k);
            } else {
                assert(pairs[a].0 != pairs[b].0);
            }
        }
    }
}

/// With distinct keys, a key occurs at one place only.
pub proof fn lemma_place_unique<K, V>(pairs: Seq<(K, V)>, i: int)
    requires
        distinct_keys(pairs),
        0 <= i < pairs.len(),
    ensures
        has_key(pairs, pairs[i].0),
        place_of(pairs, pairs[i].0) == i,
{
    let j = place_of(pairs, pairs[i].0);
    if j < i {
        assert(pairs[j].0 != pairs[i].0);
    }
    if i < j {
        assert(pairs[i].0 != pairs[j].0);
    }
}

} // verus!
