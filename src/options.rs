//! Which metric and which axis a view aggregates over.
use vstd::prelude::*;
use std::ops::Range;
use crate::trace::TreeInfo;

verus! {

/// The metric that bar lengths show.
#[derive(Debug, Clone, Copy, PartialEq, Eq, Structural)]
pub enum DataChoices {
    Duration,
    Value,
}

/// What the buckets of an overview run across.
#[derive(Debug, Clone, Copy, PartialEq, Eq, Structural)]
pub enum AcrossMetric {
    Time,
    Thread,
}

/// Number of time buckets an overview starts with.
pub const DEFAULT_DIVISIONS: usize = 5;

/// The settings one view is generated from.
pub struct MeshOptions {
    pub bar_spacing: bool,
    pub has_changed: bool,
    pub time_range: Range<u64>,
    pub data_metric: DataChoices,
    pub across_metric: AcrossMetric,
    pub num_graphs: usize,
    pub num_threads: usize,
}

impl MeshOptions {
    /// Settings of a 3D overview: durations over five time buckets spanning
    /// the whole trace.
    pub fn new_3d(info: &TreeInfo) -> (r: Self)
        ensures
            r.bar_spacing == false,
            r.has_changed == false,
            r.num_graphs == DEFAULT_DIVISIONS,
            r.time_range.start == info.start,
            r.time_range.end == info.end,
            r.num_threads == info.num_threads,
            r.data_metric == DataChoices::Duration,
            r.across_metric == AcrossMetric::Time,
    {
        MeshOptions {
            bar_spacing: false,
            has_changed: false,
            num_graphs: DEFAULT_DIVISIONS,
            time_range: Range { start: info.start, end: info.end },
            num_threads: info.num_threads,
            data_metric: DataChoices::Duration,
            across_metric: AcrossMetric::Time,
        }
    }

    /// Settings of the flame-graph inspector: durations in one bucket over
    /// the first fifth of the trace.
    pub fn new_2d(info: &TreeInfo) -> (r: Self)
        requires
            info.start <= info.end,
        ensures
            r.bar_spacing == false,
            r.has_changed == false,
            r.num_graphs == 1,
            r.time_range.start == info.start,
            r.time_range.end == info.start + (info.end - info.start) / 5,
            r.num_threads == info.num_threads,
            r.data_metric == DataChoices::Duration,
            r.across_metric == AcrossMetric::Time,
    {
        MeshOptions {
            bar_spacing: false,
            has_changed: false,
            num_graphs: 1,
            num_threads: info.num_threads,
            time_range: Range { start: info.start, end: info.start + (info.end - info.start) / 5 },
            data_metric: DataChoices::Duration,
            across_metric: AcrossMetric::Time,
        }
    }
}

} // verus!
