//! The sampling loop as a state machine, and its timing.
//!
//! The driver of the loop does the outside work: it sleeps, reads the run flag and the
//! producer's table, sends metrics and releases what it holds. After each piece of work it
//! reports what happened, and [`step`] says which phase follows and which work is due next.

use crate::tracker::DEFAULT_RETENTION_WINDOW;
use vstd::prelude::*;

verus! {

/// Events per sample asked of the producer where none is configured.
pub const DEFAULT_SAMPLE_PERIOD: u64 = 100;

/// Run duration in seconds announced where none is configured.
pub const DEFAULT_DURATION: u64 = 10;

/// Time between two ticks in seconds where none is configured.
pub const DEFAULT_TICK_INTERVAL: u64 = 1;

/// Where the loop stands.
#[derive(Clone, Copy, Debug, PartialEq, Eq, Structural)]
pub enum Phase {
    /// Between ticks: waiting for the next tick boundary.
    Running,
    /// Reading the producer's table into a snapshot.
    Sampling,
    /// Diffing the snapshot against the retained state.
    Diffing,
    /// Sending what the diff yielded.
    Emitting,
    /// Evicting stale series.
    Evicting,
    /// Stop was requested: releasing the producer and the sink.
    Draining,
    /// Everything is released; the loop is over.
    Terminated,
}

/// What the driver reports.
#[derive(Clone, Copy, Debug, PartialEq, Eq, Structural)]
pub enum Event {
    /// The tick boundary was reached and the run flag read; `run` is what it held.
    TickReached { run: bool },
    /// The table was read and decoded.
    SnapshotTaken,
    /// The table could not be read or decoded; the tick is given up.
    SnapshotFailed,
    /// The snapshot was diffed.
    Diffed,
    /// The metrics and diagnostics were handed to their sinks, whether or not each call
    /// succeeded.
    Emitted,
    /// Stale series were evicted.
    Evicted,
    /// The producer and the sink were released.
    Released,
}

/// The work that is due in a phase.
#[derive(Clone, Copy, Debug, PartialEq, Eq, Structural)]
pub enum Action {
    /// Sleep until the next tick boundary, then read the run flag.
    AwaitTick,
    /// Read the producer's table and decode it.
    TakeSnapshot,
    /// Diff the snapshot.
    Diff,
    /// Send the metrics and log the diagnostics.
    Emit,
    /// Evict stale series.
    Evict,
    /// Release the producer and the sink.
    Release,
    /// Leave the loop.
    Halt,
}

/// The phase that follows `phase` on `event`. An event that the phase does not wait for
/// changes nothing.
pub open spec fn next_phase(phase: Phase, event: Event) -> Phase {
    match (phase, event) {
        (Phase::Running, Event::TickReached { run: true }) => Phase::Sampling,
        (Phase::Running, Event::TickReached { run: false }) => Phase::Draining,
        (Phase::Sampling, Event::SnapshotTaken) => Phase::Diffing,
        (Phase::Sampling, Event::SnapshotFailed) => Phase::Running,
        (Phase::Diffing, Event::Diffed) => Phase::Emitting,
        (Phase::Emitting, Event::Emitted) => Phase::Evicting,
        (Phase::Evicting, Event::Evicted) => Phase::Running,
        (Phase::Draining, Event::Released) => Phase::Terminated,
        _ => phase,
    }
}

/// The work that is due in `phase`.
pub open spec fn action_in(phase: Phase) -> Action {
    match phase {
        Phase::Running => Action::AwaitTick,
        Phase::Sampling => Action::TakeSnapshot,
        Phase::Diffing => Action::Diff,
        Phase::Emitting => Action::Emit,
        Phase::Evicting => Action::Evict,
        Phase::Draining => Action::Release,
        Phase::Terminated => Action::Halt,
    }
}

/// The phase after a run of events.
pub open spec fn phase_after(phase: Phase, events: Seq<Event>) -> Phase
    decreases events.len(),
{
    if events.len() == 0 {
        phase
    } else {
        next_phase(phase_after(phase, events.drop_last()), events.last())
    }
}

impl Phase {
    /// The phase in which the loop starts, once the producer is attached.
    pub fn initial() -> (p: Phase)
        ensures
            p == Phase::Running,
    {
        Phase::Running
    }

    /// The work that is due in this phase.
    pub fn action(self) -> (a: Action)
        ensures
            a == action_in(self),
    {
        match self {
            Phase::Running => Action::AwaitTick,
            Phase::Sampling => Action::TakeSnapshot,
            Phase::Diffing => Action::Diff,
            Phase::Emitting => Action::Emit,
            Phase::Evicting => Action::Evict,
            Phase::Draining => Action::Release,
            Phase::Terminated => Action::Halt,
        }
    }
}

/// One transition of the loop: the phase that follows `phase` on `event`, and the work that
/// is due in it.
pub fn step(phase: Phase, event: Event) -> (r: (Phase, Action))
    ensures
        r.0 == next_phase(phase, event),
        r.1 == action_in(r.0),
{
    let next = match phase {
        Phase::Running => match event {
            Event::TickReached { run } => if run {
                Phase::Sampling
            } else {
                Phase::Draining
            },
            _ => phase,
        },
        Phase::Sampling => match event {
            Event::SnapshotTaken => Phase::Diffing,
            Event::SnapshotFailed => Phase::Running,
            _ => phase,
        },
        Phase::Diffing => match event {
            Event::Diffed => Phase::Emitting,
            _ => phase,
        },
        Phase::Emitting => match event {
            Event::Emitted => Phase::Evicting,
            _ => phase,
        },
        Phase::Evicting => match event {
            Event::Evicted => Phase::Running,
            _ => phase,
        },
        Phase::Draining => match event {
            Event::Released => Phase::Terminated,
            _ => phase,
        },
        Phase::Terminated => phase,
    };
    (next, next.action())
}

/// How long to sleep at `now` before a tick that is due at `due`: the time that is left, and
/// nothing where the boundary is reached or passed.
pub fn time_until(due: u64, now: u64) -> (wait: u64)
    ensures
        wait == (if now < due {
            due - now
        } else {
            0
        }),
{
    if now < due {
        due - now
    } else {
        0
    }
}

/// The boundary of the tick after the one that was due at `due`: one interval later, or the
/// latest representable time where that would lie beyond it.
pub fn next_due(due: u64, interval: u64) -> (next: u64)
    ensures
        next == (if due + interval > u64::MAX {
            u64::MAX as int
        } else {
            due + interval
        }),
{
    match due.checked_add(interval) {
        Some(next) => next,
        None => u64::MAX,
    }
}

/// The scalar settings of a sampler.
#[derive(Clone, Copy, Debug, PartialEq, Eq, Structural)]
pub struct Config {
    /// The producer samples one in this many events.
    pub sample_period: u64,
    /// The run duration that is announced at start, in seconds.
    pub duration: u64,
    /// The time between two ticks, in seconds.
    pub tick_interval: u64,
    /// The time of silence after which a series is forgotten, in seconds.
    pub retention_window: u64,
}

impl Config {
    /// The settings with every value that is given, and the default for each that is not.
    pub fn from_options(
        sample_period: Option<u64>,
        duration: Option<u64>,
        tick_interval: Option<u64>,
        retention_window: Option<u64>,
    ) -> (c: Config)
        ensures
            c.sample_period == sample_period.unwrap_or(DEFAULT_SAMPLE_PERIOD),
            c.duration == duration.unwrap_or(DEFAULT_DURATION),
            c.tick_interval == tick_interval.unwrap_or(DEFAULT_TICK_INTERVAL),
            c.retention_window == retention_window.unwrap_or(DEFAULT_RETENTION_WINDOW),
    {
        Config {
            sample_period: match sample_period {
                Some(v) => v,
                None => DEFAULT_SAMPLE_PERIOD,
            },
            duration: match duration {
                Some(v) => v,
                None => DEFAULT_DURATION,
            },
            tick_interval: match tick_interval {
                Some(v) => v,
                None => DEFAULT_TICK_INTERVAL,
            },
            retention_window: match retention_window {
                Some(v) => v,
                None => DEFAULT_RETENTION_WINDOW,
            },
        }
    }
}

impl Default for Config {
    /// Every setting at its default: one sample in 100 events, 10 seconds announced, a tick
    /// each second, an hour of retention.
    fn default() -> (c: Config)
        ensures
            c == (Config {
                sample_period: DEFAULT_SAMPLE_PERIOD,
                duration: DEFAULT_DURATION,
                tick_interval: DEFAULT_TICK_INTERVAL,
                retention_window: DEFAULT_RETENTION_WINDOW,
            }),
    {
        Config::from_options(None, None, None, None)
    }
}

/// The loop ends for good: no event leads out of `Terminated`.
pub proof fn lemma_terminated_is_final(events: Seq<Event>)
    ensures
        phase_after(Phase::Terminated, events) == Phase::Terminated,
    decreases events.len(),
{
    if events.len() > 0 {
        lemma_terminated_is_final(events.drop_last());
    }
}

/// Stop is observed at the top of an iteration only: draining begins from `Running`, on a
/// run flag that is down, and from nowhere else. A tick that has begun is not cut short.
pub proof fn lemma_stop_at_tick_boundary_only(phase: Phase, event: Event)
    requires
        phase != Phase::Draining,
        next_phase(phase, event) == Phase::Draining,
    ensures
        phase == Phase::Running,
        event == (Event::TickReached { run: false }),
{
}

} // verus!
