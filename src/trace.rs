//! Trace records as they arrive, the raw samples kept per call-tree node,
//! and the summary of a whole trace set.
use vstd::prelude::*;

verus! {

/// One raw sample: when it started, how long it ran, its secondary value and
/// the thread it ran on.
#[derive(Debug, Clone, Copy, PartialEq, Eq, Structural)]
pub struct TraceValues {
    pub start: u64,
    pub dur: u64,
    pub value: u64,
    pub thread: usize,
}

/// The all-zero sample.
pub fn trace_zero() -> (r: TraceValues)
    ensures
        r == (TraceValues { start: 0, dur: 0, value: 0, thread: 0 }),
{
    TraceValues { start: 0, dur: 0, value: 0, thread: 0 }
}

/// One frame of a call stack.
#[derive(Debug, Clone)]
pub struct Stackframe {
    pub name: String,
}

/// One timed execution event. `stack` lists the enclosing frames, innermost
/// first; `name` is the event's own (leaf) frame.
#[derive(Debug, Clone)]
pub struct Trace {
    pub id: usize,
    pub name: String,
    pub stack: Vec<Stackframe>,
    pub start: u64,
    pub dur: u64,
    pub value: u64,
    pub tid: usize,
}

/// Summary of a set of trace records.
#[derive(Debug, Clone)]
pub struct TreeInfo {
    pub max_depth: usize,
    pub num_threads: usize,
    pub start: u64,
    pub end: u64,
    pub nodes: u64,
}

/// A trace record whose end time and thread count can be represented.
pub open spec fn trace_fits(t: Trace) -> bool {
    &&& t.start + t.dur <= u64::MAX
    &&& t.tid < usize::MAX
}

/// The largest stack length among `ts`, 0 when there is none.
pub open spec fn max_stack_len(ts: Seq<Trace>) -> nat
    decreases ts.len(),
{
    if ts.len() == 0 {
        0
    } else {
        let m = max_stack_len(ts.drop_last());
        let l = ts.last().stack@.len();
        if l > m { l } else { m }
    }
}

/// The largest thread id among `ts`, 0 when there is none.
pub open spec fn max_tid(ts: Seq<Trace>) -> nat
    decreases ts.len(),
{
    if ts.len() == 0 {
        0
    } else {
        let m = max_tid(ts.drop_last());
        let l = ts.last().tid as nat;
        if l > m { l } else { m }
    }
}

/// The earliest start among `ts`, 0 when there is none.
pub open spec fn min_start(ts: Seq<Trace>) -> nat
    decreases ts.len(),
{
    if ts.len() == 0 {
        0
    } else if ts.len() == 1 {
        ts[0].start as nat
    } else {
        let m = min_start(ts.drop_last());
        let l = ts.last().start as nat;
        if l < m { l } else { m }
    }
}

/// The latest end (`start + dur`) among `ts`, 0 when there is none.
pub open spec fn max_end(ts: Seq<Trace>) -> nat
    decreases ts.len(),
{
    if ts.len() == 0 {
        0
    } else {
        let m = max_end(ts.drop_last());
        let l = (ts.last().start + ts.last().dur) as nat;
        if l > m { l } else { m }
    }
}

proof fn lemma_min_start_le_max_end(ts: Seq<Trace>)
    ensures
        min_start(ts) <= max_end(ts),
    decreases ts.len(),
{
    if ts.len() > 1 {
        lemma_min_start_le_max_end(ts.drop_last());
    }
}

/// Summarises `traces`: deepest stack, number of threads (largest id plus
/// one), earliest start, latest end and the number of records.
pub fn get_info(traces: &Vec<Trace>) -> (r: TreeInfo)
    requires
        forall|i: int| 0 <= i < traces@.len() ==> trace_fits(#[trigger] traces@[i]),
    ensures
        r.max_depth == max_stack_len(traces@),
        r.num_threads == max_tid(traces@) + 1,
        r.start == min_start(traces@),
        r.end == max_end(traces@),
        r.nodes == traces@.len(),
        r.start <= r.end,
{
    let mut max_depth: usize = 0;
    let mut max_thread: usize = 0;
    let mut start: u64 = 0;
    let mut end: u64 = 0;
    let mut i: usize = 0;
    while i < traces.len()
        invariant
            i <= traces@.len(),
            forall|k: int| 0 <= k < traces@.len() ==> trace_fits(#[trigger] traces@[k]),
            max_depth == max_stack_len(traces@.subrange(0, i as int)),
            max_thread == max_tid(traces@.subrange(0, i as int)),
            start == min_start(traces@.subrange(0, i as int)),
            end == max_end(traces@.subrange(0, i as int)),
            max_thread < usize::MAX,
        decreases traces@.len() - i,
    {
        let t = &traces[i];
        proof {
            assert(traces@.subrange(0, i + 1).drop_last() =~= traces@.subrange(0, i as int));
            assert(trace_fits(traces@[i as int]));
        }
        if t.stack.len() > max_depth {
            max_depth = t.stack.len();
        }
        if t.tid > max_thread {
            max_thread = t.tid;
        }
        if i == 0 || t.start < start {
            start = t.start;
        }
        if t.start + t.dur > end {
            end = t.start + t.dur;
        }
        i = i + 1;
    }
    proof {
        assert(traces@.subrange(0, i as int) =~= traces@);
        lemma_min_start_le_max_end(traces@);
    }
    TreeInfo {
        max_depth,
        num_threads: max_thread + 1,
        start,
        end,
        nodes: traces.len() as u64,
    }
}

} // verus!
