//! Sampling of per-(CPU, process, command) event counters.
//!
//! A producer in the kernel counts sampled hardware events in a table keyed by CPU, process
//! and command name. Once per tick the table is read, decoded into a [`snapshot::Snapshot`]
//! and diffed against the state that a [`tracker::DeltaTracker`] retains. A counter that rose
//! yields a tagged counter increment, one that fell yields a diagnostic line and a new
//! baseline, and a series that fell silent for the retention window is forgotten.
//!
//! - [`record`] decodes raw keys and values; [`bytes`] reads and writes the integers in them.
//! - [`key`] is the identity of a series, with its tags and its hash.
//! - [`snapshot`] builds one tick's view of the table.
//! - [`tracker`] computes deltas and evicts; [`ticks`] states what holds over runs of ticks.
//! - [`emitter`] decides what is sent for an observation; [`text`] renders numbers and columns.
//! - [`cycle`] is the sampling loop as a state machine, with its timing and settings.
//! - [`assoc`] relates ordered key-value pairs to the maps they stand for.
//!
//! Reading the table, sending metrics, sleeping and handling signals are left to the caller.

pub mod assoc;
pub mod bytes;
pub mod cycle;
pub mod emitter;
pub mod key;
pub mod record;
pub mod snapshot;
mod table;
pub mod text;
pub mod ticks;
pub mod tracker;
