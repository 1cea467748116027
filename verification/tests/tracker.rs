use pressurize::emitter::{diagnostic_line, emit, Emission};
use pressurize::key::Key;
use pressurize::snapshot::Snapshot;
use pressurize::tracker::{
    difference, stale, DeltaTracker, Observation, SeriesState, DEFAULT_RETENTION_WINDOW,
};

const METRIC: &str = "counters.instructions";

fn snapshot_of(entries: &[(Key, u64)]) -> Snapshot {
    let mut snapshot = Snapshot::new();
    for (key, value) in entries {
        snapshot.insert(key.clone(), *value);
    }
    snapshot
}

fn a() -> Key {
    Key::new(0, 100, "a")
}

fn b() -> Key {
    Key::new(1, 200, "b")
}

fn state(value: u64, seen: u64) -> SeriesState {
    SeriesState { last_cumulative_value: value, last_seen_at: seen }
}

#[test]
fn default_retention_window_is_an_hour() {
    assert_eq!(DEFAULT_RETENTION_WINDOW, 3600);
}

#[test]
fn new_tracker_is_empty() {
    let tracker = DeltaTracker::new();
    assert_eq!(tracker.len(), 0);
    assert_eq!(tracker.get(&a()), None);
}

#[test]
fn first_sight_sets_the_baseline_and_yields_nothing() {
    let mut tracker = DeltaTracker::new();
    let out = tracker.observe(&snapshot_of(&[(a(), 1000), (b(), 0)]), 5);
    assert!(out.is_empty());
    assert_eq!(tracker.len(), 2);
    assert_eq!(tracker.get(&a()), Some(state(1000, 5)));
    assert_eq!(tracker.get(&b()), Some(state(0, 5)));
}

#[test]
fn first_seen_state_is_the_value_at_now() {
    assert_eq!(SeriesState::first_seen(1000, 5), state(1000, 5));
}

#[test]
fn rise_yields_the_difference_and_moves_the_baseline() {
    let mut tracker = DeltaTracker::new();
    tracker.observe(&snapshot_of(&[(a(), 1000)]), 1);
    let out = tracker.observe(&snapshot_of(&[(a(), 1500)]), 2);
    assert_eq!(out.len(), 1);
    assert_eq!(out[0].key, a());
    assert_eq!(out[0].value, 1500);
    assert_eq!(out[0].delta, 500);
    assert!(!out[0].is_anomaly);
    assert_eq!(tracker.get(&a()), Some(state(1500, 2)));
}

#[test]
fn no_change_yields_nothing_and_keeps_the_key_alive() {
    let mut tracker = DeltaTracker::new();
    tracker.observe(&snapshot_of(&[(a(), 1000)]), 1);
    let out = tracker.observe(&snapshot_of(&[(a(), 1000)]), 9);
    assert!(out.is_empty());
    assert_eq!(tracker.get(&a()), Some(state(1000, 9)));
}

#[test]
fn fall_yields_an_anomaly_and_rebaselines() {
    let mut tracker = DeltaTracker::new();
    tracker.observe(&snapshot_of(&[(a(), 1500)]), 1);
    let out = tracker.observe(&snapshot_of(&[(a(), 200)]), 2);
    assert_eq!(out.len(), 1);
    assert_eq!(out[0].delta, -1300);
    assert_eq!(out[0].value, 200);
    assert!(out[0].is_anomaly);
    assert_eq!(tracker.get(&a()), Some(state(200, 2)));
}

#[test]
fn tick_after_an_anomaly_diffs_against_the_new_baseline() {
    let mut tracker = DeltaTracker::new();
    tracker.observe(&snapshot_of(&[(a(), 1500)]), 1);
    tracker.observe(&snapshot_of(&[(a(), 200)]), 2);
    let out = tracker.observe(&snapshot_of(&[(a(), 260)]), 3);
    assert_eq!(out.len(), 1);
    assert_eq!(out[0].delta, 60);
    assert!(!out[0].is_anomaly);
}

#[test]
fn absent_key_is_left_untouched() {
    let mut tracker = DeltaTracker::new();
    tracker.observe(&snapshot_of(&[(a(), 10), (b(), 20)]), 1);
    let out = tracker.observe(&snapshot_of(&[(b(), 25)]), 2);
    assert_eq!(out.len(), 1);
    assert_eq!(out[0].key, b());
    assert_eq!(tracker.get(&a()), Some(state(10, 1)));
    assert_eq!(tracker.get(&b()), Some(state(25, 2)));
}

#[test]
fn observations_come_in_the_order_of_the_snapshot() {
    let c = Key::new(2, 300, "c");
    let mut tracker = DeltaTracker::new();
    tracker.observe(&snapshot_of(&[(a(), 1), (b(), 1), (c.clone(), 1)]), 1);
    let out = tracker.observe(&snapshot_of(&[(c.clone(), 4), (a(), 1), (b(), 0)]), 2);
    assert_eq!(out.len(), 2);
    assert_eq!(out[0].key, c);
    assert_eq!(out[0].delta, 3);
    assert_eq!(out[1].key, b());
    assert_eq!(out[1].delta, -1);
    assert!(out[1].is_anomaly);
}

#[test]
fn empty_snapshot_changes_nothing() {
    let mut tracker = DeltaTracker::new();
    tracker.observe(&snapshot_of(&[(a(), 10)]), 1);
    let out = tracker.observe(&Snapshot::new(), 2);
    assert!(out.is_empty());
    assert_eq!(tracker.get(&a()), Some(state(10, 1)));
}

#[test]
fn difference_is_exact_within_the_range_of_i64() {
    assert_eq!(difference(1500, 1000), 500);
    assert_eq!(difference(200, 1500), -1300);
    assert_eq!(difference(7, 7), 0);
    assert_eq!(difference(i64::MAX as u64, 0), i64::MAX);
    assert_eq!(difference(0, 1u64 << 63), i64::MIN);
    assert_eq!(difference(u64::MAX, u64::MAX - 1), 1);
    assert_eq!(difference(1u64 << 63, (1u64 << 63) + 5), -5);
}

#[test]
fn difference_beyond_the_range_of_i64_is_held_to_it() {
    assert_eq!(difference(u64::MAX, 0), i64::MAX);
    assert_eq!(difference(1u64 << 63, 0), i64::MAX);
    assert_eq!(difference(0, u64::MAX), i64::MIN);
    assert_eq!(difference(0, (1u64 << 63) + 1), i64::MIN);
}

#[test]
fn values_above_the_signed_range_still_diff_by_their_true_difference() {
    let mut tracker = DeltaTracker::new();
    tracker.observe(&snapshot_of(&[(a(), u64::MAX - 10)]), 1);
    let out = tracker.observe(&snapshot_of(&[(a(), u64::MAX)]), 2);
    assert_eq!(out[0].delta, 10);
    assert!(!out[0].is_anomaly);
    let out = tracker.observe(&snapshot_of(&[(a(), 0)]), 3);
    assert_eq!(out[0].delta, i64::MIN);
    assert!(out[0].is_anomaly);
    assert_eq!(tracker.get(&a()), Some(state(0, 3)));
}

#[test]
fn stale_is_decided_by_the_time_of_silence() {
    assert!(!stale(3602, 3, 3600));
    assert!(stale(3603, 3, 3600));
    assert!(stale(9999, 3, 3600));
    assert!(!stale(3, 3, 3600));
    assert!(stale(3, 3, 0));
    assert!(!stale(2, 3, 0));
    assert!(!stale(0, u64::MAX, 1));
    assert!(stale(u64::MAX, 0, u64::MAX));
}

#[test]
fn eviction_removes_exactly_the_stale_series() {
    let mut tracker = DeltaTracker::new();
    tracker.observe(&snapshot_of(&[(a(), 1)]), 100);
    tracker.observe(&snapshot_of(&[(b(), 1)]), 150);
    tracker.evict_stale(199, 100);
    assert_eq!(tracker.len(), 2);
    tracker.evict_stale(200, 100);
    assert_eq!(tracker.len(), 1);
    assert_eq!(tracker.get(&a()), None);
    assert_eq!(tracker.get(&b()), Some(state(1, 150)));
    tracker.evict_stale(250, 100);
    assert_eq!(tracker.len(), 0);
}

#[test]
fn eviction_with_a_clock_behind_the_last_sight_keeps_the_series() {
    let mut tracker = DeltaTracker::new();
    tracker.observe(&snapshot_of(&[(a(), 1)]), 500);
    tracker.evict_stale(10, 5);
    assert_eq!(tracker.get(&a()), Some(state(1, 500)));
}

#[test]
fn eviction_with_a_window_of_zero_forgets_what_was_just_seen() {
    let mut tracker = DeltaTracker::new();
    tracker.observe(&snapshot_of(&[(a(), 1)]), 7);
    tracker.evict_stale(7, 0);
    assert_eq!(tracker.len(), 0);
}

#[test]
fn evicted_key_starts_over_without_a_delta() {
    let mut tracker = DeltaTracker::new();
    tracker.observe(&snapshot_of(&[(a(), 1000)]), 1);
    tracker.evict_stale(5000, 3600);
    let out = tracker.observe(&snapshot_of(&[(a(), 5000)]), 5001);
    assert!(out.is_empty());
    assert_eq!(tracker.get(&a()), Some(state(5000, 5001)));
}

#[test]
fn key_seen_every_tick_is_never_evicted() {
    let mut tracker = DeltaTracker::new();
    for tick in 0..5000u64 {
        let out = tracker.observe(&snapshot_of(&[(a(), tick)]), tick);
        assert_eq!(out.len(), if tick == 0 { 0 } else { 1 });
        tracker.evict_stale(tick, 1);
        assert_eq!(tracker.len(), 1);
    }
    assert_eq!(tracker.get(&a()), Some(state(4999, 4999)));
}

#[test]
fn silent_key_is_evicted_once_the_window_has_passed() {
    let mut tracker = DeltaTracker::new();
    tracker.observe(&snapshot_of(&[(a(), 1), (b(), 1)]), 0);
    for tick in 1..=20u64 {
        tracker.observe(&snapshot_of(&[(b(), 1 + tick)]), tick);
        tracker.evict_stale(tick, 20);
        assert_eq!(tracker.get(&a()).is_some(), tick < 20);
        assert!(tracker.get(&b()).is_some());
    }
}

#[test]
fn scenario_of_four_ticks() {
    let key = Key::new(0, 100, "a");
    let mut tracker = DeltaTracker::new();
    let mut calls: Vec<(String, i64, [String; 3])> = Vec::new();
    let mut logged: Vec<String> = Vec::new();
    let mut run = |tracker: &mut DeltaTracker, snapshot: &Snapshot, now: u64| -> Vec<Observation> {
        let out = tracker.observe(snapshot, now);
        for o in out.iter() {
            match emit(o, METRIC) {
                Emission::Count(call) => calls.push((call.metric, call.amount, call.tags)),
                Emission::Diagnostic(line) => logged.push(line),
                Emission::Silent => {}
            }
        }
        tracker.evict_stale(now, DEFAULT_RETENTION_WINDOW);
        out
    };

    let out = run(&mut tracker, &snapshot_of(&[(key.clone(), 1000)]), 1);
    assert!(out.is_empty());
    assert_eq!(tracker.get(&key), Some(state(1000, 1)));

    let out = run(&mut tracker, &snapshot_of(&[(key.clone(), 1500)]), 2);
    assert_eq!(out.len(), 1);
    assert_eq!(out[0].delta, 500);

    let out = run(&mut tracker, &snapshot_of(&[(key.clone(), 200)]), 3);
    assert_eq!(out.len(), 1);
    assert_eq!(out[0].delta, -1300);
    assert!(out[0].is_anomaly);
    assert_eq!(tracker.get(&key), Some(state(200, 3)));

    for now in 4..3603u64 {
        let out = run(&mut tracker, &Snapshot::new(), now);
        assert!(out.is_empty());
        assert_eq!(tracker.get(&key), Some(state(200, 3)));
    }
    run(&mut tracker, &Snapshot::new(), 3603);
    assert_eq!(tracker.get(&key), None);
    assert_eq!(tracker.len(), 0);

    drop(run);
    assert_eq!(calls.len(), 1);
    assert_eq!(calls[0].0, METRIC);
    assert_eq!(calls[0].1, 500);
    assert_eq!(calls[0].2, ["pid:100".to_string(), "name:a".to_string(), "cpu:0".to_string()]);
    assert_eq!(logged, vec![diagnostic_line(&key, 200)]);
}

#[test]
fn series_with_the_same_hash_are_tracked_apart() {
    let first = Key::new(0, -1795162547, "x");
    let second = Key::new(-1761607681, 0, "x");
    assert_eq!(first.hash_code(), second.hash_code());
    let mut tracker = DeltaTracker::new();
    tracker.observe(&snapshot_of(&[(first.clone(), 10), (second.clone(), 20)]), 1);
    let out = tracker.observe(&snapshot_of(&[(second.clone(), 25), (first.clone(), 11)]), 50);
    assert_eq!(out.len(), 2);
    assert_eq!(out[0].key, second);
    assert_eq!(out[0].delta, 5);
    assert_eq!(out[1].key, first);
    assert_eq!(out[1].delta, 1);
    tracker.observe(&snapshot_of(&[(first.clone(), 12)]), 100);
    tracker.evict_stale(150, 100);
    assert_eq!(tracker.get(&first), Some(state(12, 100)));
    assert_eq!(tracker.get(&second), None);
    let out = tracker.observe(&snapshot_of(&[(second.clone(), 30), (first.clone(), 12)]), 151);
    assert!(out.is_empty());
    assert_eq!(tracker.get(&second), Some(state(30, 151)));
}

#[test]
fn many_series_over_many_ticks() {
    let mut tracker = DeltaTracker::new();
    for tick in 0..20u64 {
        let mut snapshot = Snapshot::new();
        for pid in 0..500i32 {
            if pid as u64 % (tick + 1) == 0 {
                snapshot.insert(Key::new(pid % 8, pid, "worker"), tick * 10 + pid as u64);
            }
        }
        let out = tracker.observe(&snapshot, tick);
        for o in out.iter() {
            assert!(!o.is_anomaly);
            assert!(o.delta > 0);
        }
        tracker.evict_stale(tick, 5);
        for pid in 0..500i32 {
            let last = (0..=tick).rev().find(|t| pid as u64 % (t + 1) == 0).unwrap();
            let found = tracker.get(&Key::new(pid % 8, pid, "worker"));
            if tick - last >= 5 {
                assert_eq!(found, None);
            } else {
                assert_eq!(found, Some(state(last * 10 + pid as u64, last)));
            }
        }
    }
}
