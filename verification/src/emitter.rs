//! What is sent for an observation: a tagged counter increment for a rise, a diagnostic line
//! for a fall.

use crate::key::{tags_of, Key, KeyModel};
use crate::text::{decimal_text, left_aligned, nat_text, pad_right, render_i64, render_u64};
use crate::tracker::{observation_of, Observation, ObservationModel, SeriesState};
use vstd::prelude::*;
use vstd::string::*;

verus! {

/// One call on the metrics sink: a counter `metric` incremented by `amount`, under `tags`.
#[derive(Debug)]
pub struct MetricCall {
    pub metric: String,
    pub amount: i64,
    pub tags: [String; 3],
}

/// What one observation gives rise to.
#[derive(Debug)]
pub enum Emission {
    /// A counter increment to send.
    Count(MetricCall),
    /// A line to log in place of a metric.
    Diagnostic(String),
    /// Nothing.
    Silent,
}

/// What a [`MetricCall`] stands for in contracts.
pub ghost struct MetricCallModel {
    pub metric: Seq<char>,
    pub amount: int,
    pub tags: Seq<Seq<char>>,
}

/// What an [`Emission`] stands for in contracts.
pub ghost enum EmissionModel {
    Count(MetricCallModel),
    Diagnostic(Seq<char>),
    Silent,
}

impl View for MetricCall {
    type V = MetricCallModel;

    open spec fn view(&self) -> MetricCallModel {
        MetricCallModel {
            metric: self.metric@,
            amount: self.amount as int,
            tags: Seq::new(3, |i: int| self.tags@[i]@),
        }
    }
}

impl View for Emission {
    type V = EmissionModel;

    open spec fn view(&self) -> EmissionModel {
        match self {
            Emission::Count(call) => EmissionModel::Count(call@),
            Emission::Diagnostic(line) => EmissionModel::Diagnostic(line@),
            Emission::Silent => EmissionModel::Silent,
        }
    }
}

/// The line that reports an anomaly: process, CPU, name and the raw value, each left-aligned
/// in a column of 8, 8, 16 and 6 characters, with one space between columns.
pub open spec fn diagnostic_text(key: KeyModel, value: u64) -> Seq<char> {
    pad_right(decimal_text(key.pid), 8) + seq![' '] + pad_right(decimal_text(key.cpu), 8)
        + seq![' '] + pad_right(key.name, 16) + seq![' '] + pad_right(nat_text(value as nat), 6)
}

/// What an observation gives rise to: a diagnostic line where it is an anomaly, else a
/// counter increment of the delta under the tags of the key where the delta is positive,
/// else nothing.
pub open spec fn emission_of(o: ObservationModel, metric: Seq<char>) -> EmissionModel {
    if o.is_anomaly {
        EmissionModel::Diagnostic(diagnostic_text(o.key, o.value))
    } else if o.delta > 0 {
        EmissionModel::Count(MetricCallModel { metric, amount: o.delta, tags: tags_of(o.key) })
    } else {
        EmissionModel::Silent
    }
}

/// The diagnostic line for an anomaly of `key` at the raw value `value`.
pub fn diagnostic_line(key: &Key, value: u64) -> (line: String)
    ensures
        line@ == diagnostic_text(key@, value),
{
    proof {
        reveal_strlit(" ");
    }
    let mut line = left_aligned(render_i64(key.pid as i64).as_str(), 8);
    line.append(" ");
    line.append(left_aligned(render_i64(key.cpu as i64).as_str(), 8).as_str());
    line.append(" ");
    line.append(left_aligned(key.name.as_str(), 16).as_str());
    line.append(" ");
    line.append(left_aligned(render_u64(value).as_str(), 6).as_str());
    assert(line@ =~= diagnostic_text(key@, value));
    line
}

/// Decides what to send for one observation. The counter is named `metric`.
pub fn emit(observation: &Observation, metric: &str) -> (e: Emission)
    ensures
        e@ == emission_of(observation@, metric@),
{
    if observation.is_anomaly {
        Emission::Diagnostic(diagnostic_line(&observation.key, observation.value))
    } else if observation.delta > 0 {
        let call = MetricCall {
            metric: String::from_str(metric),
            amount: observation.delta,
            tags: observation.key.as_tags(),
        };
        assert(call@.tags =~= tags_of(observation.key@));
        Emission::Count(call)
    } else {
        Emission::Silent
    }
}

/// What the tracker yields is never silent: a rise gives a counter increment of the delta,
/// a fall gives a diagnostic line.
pub proof fn lemma_observation_emits(
    state: Map<KeyModel, SeriesState>,
    key: KeyModel,
    value: u64,
    metric: Seq<char>,
)
    requires
        observation_of(state, key, value) is Some,
    ensures
        ({
            let o = observation_of(state, key, value)->0;
            let last = state[key].last_cumulative_value;
            &&& value > last ==> emission_of(o, metric) == EmissionModel::Count(
                MetricCallModel { metric, amount: o.delta, tags: tags_of(key) },
            ) && o.delta > 0
            &&& value < last ==> emission_of(o, metric) == EmissionModel::Diagnostic(
                diagnostic_text(key, value),
            ) && o.delta < 0
        }),
{
}

} // verus!
