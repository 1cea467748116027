//! What holds of the tracker over consecutive ticks.
//!
//! A tick observes one snapshot and then evicts. The statements here are about the retained
//! state and the observations as [`crate::tracker::DeltaTracker`] specifies them.

use crate::assoc::{as_map, distinct_keys, has_key, lemma_as_map_dom, place_of};
use crate::key::KeyModel;
use crate::tracker::{
    clamped_difference, is_stale, observation_of, observations, observed, retained,
    ObservationModel, SeriesState,
};
use vstd::prelude::*;

verus! {

/// One tick: the snapshot taken and the time at which it was taken.
pub ghost struct Tick {
    pub pairs: Seq<(KeyModel, u64)>,
    pub now: u64,
}

/// The retained state after one tick: the snapshot observed, then the stale series evicted.
pub open spec fn after_tick(
    state: Map<KeyModel, SeriesState>,
    tick: Tick,
    retention_window: u64,
) -> Map<KeyModel, SeriesState> {
    retained(observed(state, as_map(tick.pairs), tick.now), tick.now, retention_window)
}

/// The retained state after a run of ticks.
pub open spec fn after_ticks(
    state: Map<KeyModel, SeriesState>,
    ticks: Seq<Tick>,
    retention_window: u64,
) -> Map<KeyModel, SeriesState>
    decreases ticks.len(),
{
    if ticks.len() == 0 {
        state
    } else {
        after_tick(after_ticks(state, ticks.drop_last(), retention_window), ticks.last(), retention_window)
    }
}

/// Some observation among `out` is about `k`.
pub open spec fn mentions(out: Seq<ObservationModel>, k: KeyModel) -> bool {
    exists|i: int| 0 <= i < out.len() && (#[trigger] out[i]).key == k
}

/// What a snapshot yields for one key. Every observation about `k` is the one that the entry
/// of `k` yields against the retained state; where that entry yields one, it is among the
/// observations; and no two observations are about the same key.
pub proof fn lemma_observations_of_key(
    state: Map<KeyModel, SeriesState>,
    pairs: Seq<(KeyModel, u64)>,
    k: KeyModel,
)
    requires
        distinct_keys(pairs),
    ensures
        forall|i: int|
            0 <= i < observations(state, pairs).len() && (#[trigger] observations(
                state,
                pairs,
            )[i]).key == k ==> as_map(pairs).dom().contains(k) && observation_of(
                state,
                k,
                as_map(pairs)[k],
            ) == Some(observations(state, pairs)[i]),
        as_map(pairs).dom().contains(k) && observation_of(state, k, as_map(pairs)[k]) is Some
            ==> mentions(observations(state, pairs), k),
        forall|i: int, j: int|
            0 <= i < j < observations(state, pairs).len() ==> !((#[trigger] observations(
                state,
                pairs,
            )[i]).key == k && (#[trigger] observations(state, pairs)[j]).key == k),
    decreases pairs.len(),
{
    let out = observations(state, pairs);
    if pairs.len() > 0 {
        let front = pairs.drop_last();
        let last = pairs.last();
        let rest = observations(state, front);
        assert(distinct_keys(front)) by {
            assert forall|a: int, b: int| 0 <= a < b < front.len() implies front[a].0
                != front[b].0 by {
                assert(pairs[a].0 != pairs[b].0);
            }
        }
        lemma_observations_of_key(state, front, k);
        lemma_as_map_dom(front);
        assert(!has_key(front, last.0)) by {
            if has_key(front, last.0) {
                let i = place_of(front, last.0);
                assert(pairs[i].0 != pairs[pairs.len() - 1].0);
            }
        }
        assert(!as_map(front).dom().contains(last.0));
        assert(as_map(pairs) == as_map(front).insert(last.0, last.1));
        let yielded = observation_of(state, last.0, last.1);
        assert(forall|i: int| 0 <= i < rest.len() ==> out[i] == rest[i]);
        if k == last.0 {
            assert forall|i: int| 0 <= i < rest.len() implies (#[trigger] rest[i]).key != k by {
                if rest[i].key == k {
                    assert(as_map(front).dom().contains(k));
                }
            }
            if yielded is Some {
                assert(out[out.len() - 1] == yielded->0);
                assert(out[out.len() - 1].key == k);
            }
        } else {
            if as_map(pairs).dom().contains(k) && observation_of(state, k, as_map(pairs)[k])
                is Some {
                assert(as_map(front).dom().contains(k));
                assert(mentions(rest, k));
                let i = choose|i: int| 0 <= i < rest.len() && (#[trigger] rest[i]).key == k;
                assert(out[i].key == k);
            }
        }
    }
}

/// Monotonic delta. Where a key's value does not fall from one snapshot to the next, the
/// second tick yields no anomaly for it; an observation about it carries the difference of
/// the two values, held to the range of `i64`, which is positive; there is one exactly when
/// the value rose; and the baseline afterwards is the new value. A difference of at most
/// `i64::MAX` is carried as it is.
pub proof fn lemma_monotonic_delta(
    state: Map<KeyModel, SeriesState>,
    first: Tick,
    second: Tick,
    k: KeyModel,
)
    requires
        distinct_keys(first.pairs),
        distinct_keys(second.pairs),
        as_map(first.pairs).dom().contains(k),
        as_map(second.pairs).dom().contains(k),
        as_map(first.pairs)[k] <= as_map(second.pairs)[k],
    ensures
        ({
            let v1 = as_map(first.pairs)[k];
            let v2 = as_map(second.pairs)[k];
            let mid = observed(state, as_map(first.pairs), first.now);
            let out = observations(mid, second.pairs);
            &&& observed(mid, as_map(second.pairs), second.now)[k].last_cumulative_value == v2
            &&& forall|i: int|
                0 <= i < out.len() && (#[trigger] out[i]).key == k ==> !out[i].is_anomaly
                    && out[i].delta > 0 && out[i].delta == clamped_difference(v2, v1)
            &&& mentions(out, k) <==> v1 < v2
            &&& v2 - v1 <= i64::MAX ==> clamped_difference(v2, v1) == v2 - v1
        }),
{
    let mid = observed(state, as_map(first.pairs), first.now);
    lemma_observations_of_key(mid, second.pairs, k);
}

/// Anomaly. Where a key's value falls from one snapshot to the next, the second tick yields
/// exactly one observation about it, marked as an anomaly, whose delta is the negative
/// difference of the two values, held to the range of `i64`; and the baseline afterwards is
/// the new value, so that a third snapshot is diffed against it and not against the value
/// before the fall.
pub proof fn lemma_anomaly_rebaselines(
    state: Map<KeyModel, SeriesState>,
    first: Tick,
    second: Tick,
    third: Tick,
    k: KeyModel,
)
    requires
        distinct_keys(first.pairs),
        distinct_keys(second.pairs),
        distinct_keys(third.pairs),
        as_map(first.pairs).dom().contains(k),
        as_map(second.pairs).dom().contains(k),
        as_map(third.pairs).dom().contains(k),
        as_map(first.pairs)[k] > as_map(second.pairs)[k],
    ensures
        ({
            let v1 = as_map(first.pairs)[k];
            let v2 = as_map(second.pairs)[k];
            let v3 = as_map(third.pairs)[k];
            let mid = observed(state, as_map(first.pairs), first.now);
            let out = observations(mid, second.pairs);
            let end = observed(mid, as_map(second.pairs), second.now);
            let later = observations(end, third.pairs);
            &&& mentions(out, k)
            &&& forall|i: int|
                0 <= i < out.len() && (#[trigger] out[i]).key == k ==> out[i].is_anomaly
                    && out[i].delta < 0 && out[i].delta == clamped_difference(v2, v1)
                    && out[i].value == v2
            &&& v2 - v1 >= i64::MIN ==> clamped_difference(v2, v1) == v2 - v1
            &&& end[k].last_cumulative_value == v2
            &&& forall|i: int|
                0 <= i < later.len() && (#[trigger] later[i]).key == k ==> later[i].delta
                    == clamped_difference(v3, v2) && later[i].is_anomaly == (v3 < v2)
            &&& mentions(later, k) <==> v3 != v2
        }),
{
    let mid = observed(state, as_map(first.pairs), first.now);
    let end = observed(mid, as_map(second.pairs), second.now);
    lemma_observations_of_key(mid, second.pairs, k);
    lemma_observations_of_key(end, third.pairs, k);
}

/// Silence on first sight and on no change. A key that is not tracked yet, or whose value is
/// the one that is retained, yields no observation, and so nothing is sent for it; its
/// baseline afterwards is the value of the snapshot.
pub proof fn lemma_first_sight_and_no_change_are_silent(
    state: Map<KeyModel, SeriesState>,
    tick: Tick,
    k: KeyModel,
)
    requires
        distinct_keys(tick.pairs),
        as_map(tick.pairs).dom().contains(k),
        !state.dom().contains(k) || state[k].last_cumulative_value == as_map(tick.pairs)[k],
    ensures
        !mentions(observations(state, tick.pairs), k),
        observed(state, as_map(tick.pairs), tick.now)[k].last_cumulative_value == as_map(
            tick.pairs,
        )[k],
{
    lemma_observations_of_key(state, tick.pairs, k);
}

/// A key that no tick of a run holds is, where it is still retained after the run, retained
/// as it was before.
pub proof fn lemma_silent_key_unchanged(
    state: Map<KeyModel, SeriesState>,
    ticks: Seq<Tick>,
    retention_window: u64,
    k: KeyModel,
)
    requires
        forall|i: int| 0 <= i < ticks.len() ==> !as_map((#[trigger] ticks[i]).pairs).dom().contains(k),
    ensures
        after_ticks(state, ticks, retention_window).dom().contains(k) ==> state.dom().contains(k)
            && after_ticks(state, ticks, retention_window)[k] == state[k],
    decreases ticks.len(),
{
    if ticks.len() > 0 {
        let front = ticks.drop_last();
        assert forall|i: int| 0 <= i < front.len() implies !as_map(
            (#[trigger] front[i]).pairs,
        ).dom().contains(k) by {
            assert(front[i] == ticks[i]);
        }
        lemma_silent_key_unchanged(state, front, retention_window, k);
        assert(!as_map(ticks[ticks.len() - 1].pairs).dom().contains(k));
    }
}

/// Eviction of a silent key. A key that no tick of a run holds, and that by the time of the
/// last tick has not been seen for the retention window or longer, is not retained after
/// the run.
pub proof fn lemma_silent_key_is_evicted(
    state: Map<KeyModel, SeriesState>,
    ticks: Seq<Tick>,
    retention_window: u64,
    k: KeyModel,
)
    requires
        ticks.len() > 0,
        forall|i: int| 0 <= i < ticks.len() ==> !as_map((#[trigger] ticks[i]).pairs).dom().contains(k),
        state.dom().contains(k) ==> is_stale(
            ticks.last().now,
            state[k].last_seen_at,
            retention_window,
        ),
    ensures
        !after_ticks(state, ticks, retention_window).dom().contains(k),
{
    let front = ticks.drop_last();
    assert forall|i: int| 0 <= i < front.len() implies !as_map(
        (#[trigger] front[i]).pairs,
    ).dom().contains(k) by {
        assert(front[i] == ticks[i]);
    }
    lemma_silent_key_unchanged(state, front, retention_window, k);
    assert(!as_map(ticks[ticks.len() - 1].pairs).dom().contains(k));
}

/// No eviction of a live key. With a retention window above zero, a key that every tick of
/// a run holds is retained after each tick of the run, however long the run.
pub proof fn lemma_live_key_is_never_evicted(
    state: Map<KeyModel, SeriesState>,
    ticks: Seq<Tick>,
    retention_window: u64,
    k: KeyModel,
)
    requires
        retention_window > 0,
        forall|i: int| 0 <= i < ticks.len() ==> as_map((#[trigger] ticks[i]).pairs).dom().contains(k),
    ensures
        forall|n: int|
            0 < n <= ticks.len() ==> (#[trigger] after_ticks(
                state,
                ticks.take(n),
                retention_window,
            )).dom().contains(k),
{
    assert forall|n: int| 0 < n <= ticks.len() implies (#[trigger] after_ticks(
        state,
        ticks.take(n),
        retention_window,
    )).dom().contains(k) by {
        let run = ticks.take(n);
        assert(run.last() == ticks[n - 1]);
        assert(as_map(run.last().pairs).dom().contains(k));
    }
}

} // verus!
