//! The delta tracker: per-key baselines across ticks, the deltas between consecutive
//! snapshots, and the eviction of series that fell silent.

use crate::assoc::{
    as_map, distinct_keys, has_key, lemma_as_map_at, lemma_as_map_dom, lemma_as_map_drop_last,
    lemma_as_map_push, lemma_as_map_update,
};
use crate::key::{Key, KeyModel};
use crate::snapshot::Snapshot;
use crate::table::KeyTable;
use vstd::prelude::*;

verus! {

/// Retention window used where none is configured, in seconds.
pub const DEFAULT_RETENTION_WINDOW: u64 = 3600;

/// What the tracker retains of one series.
#[derive(Clone, Copy, Debug, PartialEq, Eq, Structural)]
pub struct SeriesState {
    /// The cumulative counter value most recently recorded for the key.
    pub last_cumulative_value: u64,
    /// The time of the last tick in which the key was observed.
    pub last_seen_at: u64,
}

/// One result of diffing a snapshot against the retained state: the key changed its
/// cumulative value to `value`, by `delta`.
#[derive(Debug)]
pub struct Observation {
    pub key: Key,
    /// The cumulative value in the snapshot.
    pub value: u64,
    /// The new value less the baseline, held to the range of `i64`.
    pub delta: i64,
    /// The value fell: the counter was reset or the key was reused.
    pub is_anomaly: bool,
}

/// What an [`Observation`] stands for in contracts.
pub ghost struct ObservationModel {
    pub key: KeyModel,
    pub value: u64,
    pub delta: int,
    pub is_anomaly: bool,
}

impl View for Observation {
    type V = ObservationModel;

    open spec fn view(&self) -> ObservationModel {
        ObservationModel {
            key: self.key@,
            value: self.value,
            delta: self.delta as int,
            is_anomaly: self.is_anomaly,
        }
    }
}

/// The views of a sequence of observations.
pub open spec fn observation_models(out: Seq<Observation>) -> Seq<ObservationModel> {
    Seq::new(out.len(), |i: int| out[i]@)
}

/// The difference `current - last`, held to the range of `i64`.
pub open spec fn clamped_difference(current: u64, last: u64) -> int {
    let d = current - last;
    if d > i64::MAX {
        i64::MAX as int
    } else if d < i64::MIN {
        i64::MIN as int
    } else {
        d
    }
}

/// The state of a series that was just observed with `value` at `now`.
pub open spec fn baseline(value: u64, now: u64) -> SeriesState {
    SeriesState { last_cumulative_value: value, last_seen_at: now }
}

/// What one entry of a snapshot yields against the retained state: nothing for a key that is
/// new or whose value did not change, else the change.
pub open spec fn observation_of(
    state: Map<KeyModel, SeriesState>,
    key: KeyModel,
    value: u64,
) -> Option<ObservationModel> {
    if state.dom().contains(key) && state[key].last_cumulative_value != value {
        Some(
            ObservationModel {
                key,
                value,
                delta: clamped_difference(value, state[key].last_cumulative_value),
                is_anomaly: value < state[key].last_cumulative_value,
            },
        )
    } else {
        None
    }
}

/// What a snapshot yields against the retained state, in the order of the snapshot.
pub open spec fn observations(
    state: Map<KeyModel, SeriesState>,
    pairs: Seq<(KeyModel, u64)>,
) -> Seq<ObservationModel>
    decreases pairs.len(),
{
    if pairs.len() == 0 {
        Seq::empty()
    } else {
        let rest = observations(state, pairs.drop_last());
        match observation_of(state, pairs.last().0, pairs.last().1) {
            Some(o) => rest.push(o),
            None => rest,
        }
    }
}

/// The retained state after a snapshot was observed at `now`: every key of the snapshot
/// holds its value of the snapshot and was seen at `now`; every other key is as it was.
pub open spec fn observed(
    state: Map<KeyModel, SeriesState>,
    seen: Map<KeyModel, u64>,
    now: u64,
) -> Map<KeyModel, SeriesState> {
    Map::new(
        |k: KeyModel| state.dom().contains(k) || seen.dom().contains(k),
        |k: KeyModel|
            if seen.dom().contains(k) {
                baseline(seen[k], now)
            } else {
                state[k]
            },
    )
}

/// A series last seen at `last_seen_at` has been silent for the whole retention window.
pub open spec fn is_stale(now: u64, last_seen_at: u64, retention_window: u64) -> bool {
    now - last_seen_at >= retention_window
}

/// The retained state without its stale series.
pub open spec fn retained(
    state: Map<KeyModel, SeriesState>,
    now: u64,
    retention_window: u64,
) -> Map<KeyModel, SeriesState> {
    Map::new(
        |k: KeyModel|
            state.dom().contains(k) && !is_stale(now, state[k].last_seen_at, retention_window),
        |k: KeyModel| state[k],
    )
}

/// Per-key baselines and last-seen times, carried from tick to tick.
#[derive(Debug)]
pub struct DeltaTracker {
    table: KeyTable<SeriesState>,
}

/// The difference between a new value and its baseline, in arithmetic wide enough for any
/// two counter values, then held to the range of `i64`.
pub fn difference(current: u64, last: u64) -> (d: i64)
    ensures
        d as int == clamped_difference(current, last),
{
    let wide: i128 = current as i128 - last as i128;
    if wide > i64::MAX as i128 {
        i64::MAX
    } else if wide < i64::MIN as i128 {
        i64::MIN
    } else {
        wide as i64
    }
}

/// Whether a series last seen at `last_seen_at` is stale at `now`.
pub fn stale(now: u64, last_seen_at: u64, retention_window: u64) -> (r: bool)
    ensures
        r == is_stale(now, last_seen_at, retention_window),
{
    now >= last_seen_at && now - last_seen_at >= retention_window
}

impl SeriesState {
    /// The state of a series on its first observation: the observed value is the baseline.
    pub fn first_seen(value: u64, now: u64) -> (s: SeriesState)
        ensures
            s == baseline(value, now),
    {
        SeriesState { last_cumulative_value: value, last_seen_at: now }
    }
}

impl View for DeltaTracker {
    type V = Map<KeyModel, SeriesState>;

    /// The retained state: each tracked key with its baseline and the time it was last seen.
    closed spec fn view(&self) -> Map<KeyModel, SeriesState> {
        as_map(self.table.pairs())
    }
}

impl DeltaTracker {
    /// No key is tracked twice.
    #[verifier::type_invariant]
    pub closed spec fn wf(&self) -> bool {
        self.table.wf()
    }

    /// The number of tracked series.
    pub closed spec fn count(&self) -> nat {
        self.table.pairs().len()
    }

    /// A tracker that has seen nothing.
    pub fn new() -> (t: DeltaTracker)
        ensures
            t@ == Map::<KeyModel, SeriesState>::empty(),
            t.count() == 0,
    {
        DeltaTracker { table: KeyTable::new() }
    }

    /// The number of tracked series.
    pub fn len(&self) -> (n: usize)
        ensures
            n == self.count(),
    {
        self.table.len()
    }

    /// The retained state of `key`, if it is tracked.
    pub fn get(&self, key: &Key) -> (r: Option<SeriesState>)
        ensures
            r == (if self@.dom().contains(key@) {
                Some(self@[key@])
            } else {
                None
            }),
    {
        proof {
            use_type_invariant(self);
            self.table.lemma_distinct();
            lemma_as_map_dom(self.table.pairs());
        }
        match self.table.find(key) {
            Some(i) => {
                proof {
                    lemma_as_map_at(self.table.pairs(), i as int);
                }
                Some(*self.table.value(i))
            },
            None => None,
        }
    }

    /// Diffs a snapshot against the retained state.
    ///
    /// A key seen for the first time is recorded with its value as baseline and yields
    /// nothing. A key whose value did not change yields nothing. A key whose value changed
    /// yields its delta, marked as an anomaly where the value fell. Every key of the snapshot
    /// is recorded with its new value and `now`; keys absent from the snapshot are left as
    /// they are. The observations come in the order of the snapshot.
    pub fn observe(&mut self, snapshot: &Snapshot, now: u64) -> (out: Vec<Observation>)
        ensures
            final(self)@ == observed(old(self)@, snapshot@, now),
            observation_models(out@) == observations(old(self)@, snapshot.pairs()),
    {
        proof {
            use_type_invariant(&*self);
            use_type_invariant(snapshot);
            snapshot.lemma_distinct();
        }
        let mut table: KeyTable<SeriesState> = KeyTable::new();
        std::mem::swap(&mut table, &mut self.table);
        let ghost before = as_map(table.pairs());
        let ghost pairs = snapshot.pairs();
        let mut out: Vec<Observation> = Vec::new();
        let n = snapshot.len();
        let mut i: usize = 0;
        assert(pairs.take(0) =~= Seq::empty());
        assert(observation_models(out@) =~= Seq::empty());
        assert(as_map(table.pairs()) =~= observed(before, as_map(pairs.take(0)), now));
        while i < n
            invariant
                i <= n == pairs.len(),
                pairs == snapshot.pairs(),
                distinct_keys(pairs),
                table.wf(),
                as_map(table.pairs()) == observed(before, as_map(pairs.take(i as int)), now),
                observation_models(out@) == observations(before, pairs.take(i as int)),
            decreases n - i,
        {
            let (key, value) = snapshot.entry(i).unwrap();
            let ghost k = key@;
            let ghost seen = pairs.take(i as int);
            let ghost next = pairs.take(i + 1);
            let ghost current = table.pairs();
            let ghost models = observation_models(out@);
            proof {
                table.lemma_distinct();
                assert(next.drop_last() =~= seen);
                assert(next.last() == pairs[i as int]);
                lemma_as_map_dom(seen);
                lemma_as_map_dom(current);
                assert(!has_key(seen, k)) by {
                    if has_key(seen, k) {
                        let j = crate::assoc::place_of(seen, k);
                        assert(pairs[j].0 != pairs[i as int].0);
                    }
                }
                assert(as_map(current).dom().contains(k) <==> before.dom().contains(k));
            }
            match table.find(key) {
                Some(j) => {
                    let last = table.value(j).last_cumulative_value;
                    proof {
                        lemma_as_map_at(current, j as int);
                        lemma_as_map_update(current, j as int, baseline(value, now));
                        assert(before[k].last_cumulative_value == last);
                    }
                    if value != last {
                        out.push(
                            Observation {
                                key: key.clone(),
                                value,
                                delta: difference(value, last),
                                is_anomaly: value < last,
                            },
                        );
                    }
                    table.set_value(j, SeriesState::first_seen(value, now));
                },
                None => {
                    proof {
                        lemma_as_map_push(current, k, baseline(value, now));
                    }
                    table.push_new(key.clone(), SeriesState::first_seen(value, now));
                },
            }
            proof {
                assert(as_map(next) == as_map(seen).insert(k, value));
                assert(as_map(table.pairs()) =~= observed(before, as_map(next), now));
                match observation_of(before, k, value) {
                    Some(o) => {
                        assert(observation_models(out@) =~= models.push(o));
                    },
                    None => {
                        assert(observation_models(out@) =~= models);
                    },
                }
            }
            i = i + 1;
        }
        assert(pairs.take(n as int) =~= pairs);
        self.table = table;
        out
    }

    /// Forgets every series that has not been seen for `retention_window` or longer: those
    /// with `now - last_seen_at >= retention_window`. The others are left as they are.
    pub fn evict_stale(&mut self, now: u64, retention_window: u64)
        ensures
            final(self)@ == retained(old(self)@, now, retention_window),
    {
        proof {
            use_type_invariant(&*self);
        }
        let mut left: KeyTable<SeriesState> = KeyTable::new();
        std::mem::swap(&mut left, &mut self.table);
        let ghost before = as_map(left.pairs());
        let mut kept: KeyTable<SeriesState> = KeyTable::new();
        loop
            invariant
                left.wf(),
                kept.wf(),
                forall|k: KeyModel| #[trigger]
                    as_map(left.pairs()).dom().contains(k) ==> before.dom().contains(k)
                        && before[k] == as_map(left.pairs())[k],
                as_map(kept.pairs()) == Map::new(
                    |k: KeyModel|
                        before.dom().contains(k) && !as_map(left.pairs()).dom().contains(k)
                            && !is_stale(now, before[k].last_seen_at, retention_window),
                    |k: KeyModel| before[k],
                ),
            ensures
                kept.wf(),
                as_map(kept.pairs()) == retained(before, now, retention_window),
            decreases left.pairs().len(),
        {
            let ghost whole = left.pairs();
            let ghost saved = kept.pairs();
            proof {
                left.lemma_distinct();
                kept.lemma_distinct();
                lemma_as_map_dom(saved);
                if whole.len() > 0 {
                    lemma_as_map_drop_last(whole);
                    lemma_as_map_at(whole, whole.len() - 1);
                    assert(as_map(whole).dom().contains(whole.last().0));
                    assert(!as_map(saved).dom().contains(whole.last().0));
                    assert(!has_key(saved, whole.last().0));
                }
            }
            match left.pop() {
                Some((key, state)) => {
                    if !stale(now, state.last_seen_at, retention_window) {
                        proof {
                            lemma_as_map_push(saved, key@, state);
                        }
                        kept.push_new(key, state);
                    }
                    assert(as_map(kept.pairs()) =~= Map::new(
                        |k: KeyModel|
                            before.dom().contains(k) && !as_map(left.pairs()).dom().contains(k)
                                && !is_stale(now, before[k].last_seen_at, retention_window),
                        |k: KeyModel| before[k],
                    ));
                },
                None => {
                    assert(as_map(kept.pairs()) =~= retained(before, now, retention_window));
                    break;
                },
            }
        }
        self.table = kept;
    }
}

} // verus!
