//! What a list of raw samples contributes to a time bucket or to a thread.
use vstd::prelude::*;
use crate::trace::TraceValues;

verus! {

/// The length of the part of `s` that falls inside `[lo, hi)`.
pub open spec fn overlap_len(s: TraceValues, lo: int, hi: int) -> int {
    let a = if lo > s.start { lo } else { s.start as int };
    let b = if hi < s.start + s.dur { hi } else { s.start + s.dur };
    if b > a { b - a } else { 0 }
}

/// Duration `s` contributes to the bucket `[lo, hi)`; a zero-length sample
/// contributes nothing.
pub open spec fn sample_dur_in(s: TraceValues, lo: int, hi: int) -> int {
    if s.dur == 0 { 0 } else { overlap_len(s, lo, hi) }
}

/// Value `s` contributes to the bucket `[lo, hi)`: its value times the
/// truncated quotient of the overlap by its duration.
pub open spec fn sample_value_in(s: TraceValues, lo: int, hi: int) -> int {
    if s.dur == 0 { 0 } else { (overlap_len(s, lo, hi) / (s.dur as int)) * s.value }
}

/// Summed duration of `ss` inside `[lo, hi)`.
pub open spec fn bucket_dur(ss: Seq<TraceValues>, lo: int, hi: int) -> int
    decreases ss.len(),
{
    if ss.len() == 0 { 0 } else { bucket_dur(ss.drop_last(), lo, hi) + sample_dur_in(ss.last(), lo, hi) }
}

/// Summed value of `ss` inside `[lo, hi)`.
pub open spec fn bucket_value(ss: Seq<TraceValues>, lo: int, hi: int) -> int
    decreases ss.len(),
{
    if ss.len() == 0 { 0 } else { bucket_value(ss.drop_last(), lo, hi) + sample_value_in(ss.last(), lo, hi) }
}

/// Total duration of `ss`.
pub open spec fn sum_dur(ss: Seq<TraceValues>) -> int
    decreases ss.len(),
{
    if ss.len() == 0 { 0 } else { sum_dur(ss.drop_last()) + ss.last().dur }
}

/// Total value of `ss`.
pub open spec fn sum_value(ss: Seq<TraceValues>) -> int
    decreases ss.len(),
{
    if ss.len() == 0 { 0 } else { sum_value(ss.drop_last()) + ss.last().value }
}

/// Summed duration of the samples of `ss` that ran on `thread`.
pub open spec fn thread_dur(ss: Seq<TraceValues>, thread: int) -> int
    decreases ss.len(),
{
    if ss.len() == 0 {
        0
    } else {
        thread_dur(ss.drop_last(), thread) + if ss.last().thread == thread { ss.last().dur as int } else { 0 }
    }
}

/// Summed value of the samples of `ss` that ran on `thread`.
pub open spec fn thread_value(ss: Seq<TraceValues>, thread: int) -> int
    decreases ss.len(),
{
    if ss.len() == 0 {
        0
    } else {
        thread_value(ss.drop_last(), thread) + if ss.last().thread == thread { ss.last().value as int } else { 0 }
    }
}

/// Samples whose end times fit in a `u64`.
pub open spec fn ends_fit(ss: Seq<TraceValues>) -> bool {
    forall|i: int| 0 <= i < ss.len() ==> #[trigger] ss[i].start + ss[i].dur <= u64::MAX
}

/// Samples whose end times and whose totals fit in a `u64`.
pub open spec fn samples_fit(ss: Seq<TraceValues>) -> bool {
    &&& ends_fit(ss)
    &&& sum_dur(ss) <= u64::MAX
    &&& sum_value(ss) <= u64::MAX
}

/// The sums of `ss` over `[lo, hi)` fit in a `u64`.
pub open spec fn range_fits(ss: Seq<TraceValues>, lo: int, hi: int) -> bool {
    bucket_dur(ss, lo, hi) <= u64::MAX && bucket_value(ss, lo, hi) <= u64::MAX
}

/// The sums of bucket `i` of `n` over `[start, end)` fit in a `u64`.
pub open spec fn bucket_fits(ss: Seq<TraceValues>, start: u64, end: u64, n: nat, i: int) -> bool {
    range_fits(ss, bucket_lo(start, end, n, i), bucket_lo(start, end, n, i + 1))
}

/// The sums of thread `t` fit in a `u64`.
pub open spec fn thread_fits(ss: Seq<TraceValues>, t: int) -> bool {
    thread_dur(ss, t) <= u64::MAX && thread_value(ss, t) <= u64::MAX
}

/// An aggregate as it is reported: only `dur` and `value` are set.
pub open spec fn agg(dur: int, value: int) -> TraceValues {
    TraceValues { start: 0, dur: dur as u64, value: value as u64, thread: 0 }
}

/// Width of each of `n` equal buckets over `[start, end)`.
pub open spec fn bucket_width(start: u64, end: u64, n: nat) -> int {
    (end - start) / (n as int)
}

/// Lower bound of bucket `i`.
pub open spec fn bucket_lo(start: u64, end: u64, n: nat, i: int) -> int {
    start + i * bucket_width(start, end, n)
}

/// The aggregate of bucket `i` of `n` over `[start, end)`.
pub open spec fn time_bucket(ss: Seq<TraceValues>, start: u64, end: u64, n: nat, i: int) -> TraceValues {
    let lo = bucket_lo(start, end, n, i);
    let hi = bucket_lo(start, end, n, i + 1);
    agg(bucket_dur(ss, lo, hi), bucket_value(ss, lo, hi))
}

/// The time-bucket query: `None` when no bucket is asked for or when no
/// bucket receives any duration, else one aggregate per bucket.
pub open spec fn time_overlaps_spec(ss: Seq<TraceValues>, start: u64, end: u64, n: nat) -> Option<Seq<TraceValues>> {
    if n == 0 {
        None
    } else if forall|i: int| 0 <= i < n ==> #[trigger] time_bucket(ss, start, end, n, i).dur == 0 {
        None
    } else {
        Some(Seq::new(n, |i: int| time_bucket(ss, start, end, n, i)))
    }
}

/// The aggregate of thread `t`.
pub open spec fn thread_bucket(ss: Seq<TraceValues>, t: int) -> TraceValues {
    agg(thread_dur(ss, t), thread_value(ss, t))
}

pub proof fn lemma_sample_in_bounded(s: TraceValues, lo: int, hi: int)
    ensures
        0 <= sample_dur_in(s, lo, hi) <= s.dur,
        0 <= sample_value_in(s, lo, hi) <= s.value,
        sample_value_in(s, lo, hi) == if s.dur > 0 && overlap_len(s, lo, hi) == s.dur { s.value as int } else { 0 },
{
    if s.dur > 0 {
        let o = overlap_len(s, lo, hi);
        let d = s.dur as int;
        assert(0 <= o <= d);
        if o == d {
            assert(o / d == 1) by (nonlinear_arith) requires o == d, d > 0;
        } else {
            assert(o / d == 0) by (nonlinear_arith) requires 0 <= o < d;
        }
    }
}

pub proof fn lemma_bucket_bounded(ss: Seq<TraceValues>, lo: int, hi: int)
    ensures
        0 <= bucket_dur(ss, lo, hi) <= sum_dur(ss),
        0 <= bucket_value(ss, lo, hi) <= sum_value(ss),
    decreases ss.len(),
{
    if ss.len() > 0 {
        lemma_bucket_bounded(ss.drop_last(), lo, hi);
        lemma_sample_in_bounded(ss.last(), lo, hi);
    }
}

pub proof fn lemma_thread_bounded(ss: Seq<TraceValues>, t: int)
    ensures
        0 <= thread_dur(ss, t) <= sum_dur(ss),
        0 <= thread_value(ss, t) <= sum_value(ss),
    decreases ss.len(),
{
    if ss.len() > 0 {
        lemma_thread_bounded(ss.drop_last(), t);
    }
}

pub proof fn lemma_sums_nonneg(ss: Seq<TraceValues>)
    ensures
        sum_dur(ss) >= 0,
        sum_value(ss) >= 0,
    decreases ss.len(),
{
    if ss.len() > 0 {
        lemma_sums_nonneg(ss.drop_last());
    }
}

/// Sums `samples` over `[lo, hi)`.
fn sum_bucket(samples: &Vec<TraceValues>, lo: u64, hi: u64) -> (r: (u64, u64))
    requires
        ends_fit(samples@),
        range_fits(samples@, lo as int, hi as int),
    ensures
        r.0 == bucket_dur(samples@, lo as int, hi as int),
        r.1 == bucket_value(samples@, lo as int, hi as int),
{
    let mut dur_total: u64 = 0;
    let mut val_total: u64 = 0;
    let mut k: usize = 0;
    while k < samples.len()
        invariant
            k <= samples@.len(),
            ends_fit(samples@),
            range_fits(samples@, lo as int, hi as int),
            dur_total == bucket_dur(samples@.subrange(0, k as int), lo as int, hi as int),
            val_total == bucket_value(samples@.subrange(0, k as int), lo as int, hi as int),
        decreases samples@.len() - k,
    {
        let s = samples[k];
        proof {
            let pre = samples@.subrange(0, k + 1);
            assert(pre.drop_last() =~= samples@.subrange(0, k as int));
            assert(samples@ =~= pre + samples@.subrange(k + 1, samples@.len() as int));
            lemma_bucket_prefix_mono(samples@, k + 1, lo as int, hi as int);
            lemma_sample_in_bounded(s, lo as int, hi as int);
            lemma_bucket_bounded(samples@.subrange(0, k as int), lo as int, hi as int);
            assert(s.start + s.dur <= u64::MAX);
        }
        let end = s.start + s.dur;
        let a = if lo > s.start { lo } else { s.start };
        let b = if hi < end { hi } else { end };
        let d = if b > a { b - a } else { 0 };
        if s.dur != 0 {
            val_total = val_total + (d / s.dur) * s.value;
            dur_total = dur_total + d;
        }
        k = k + 1;
    }
    proof {
        assert(samples@.subrange(0, k as int) =~= samples@);
    }
    (dur_total, val_total)
}

/// The sums of a prefix over a range are bounded by those of the whole list.
pub proof fn lemma_bucket_prefix_mono(ss: Seq<TraceValues>, k: int, lo: int, hi: int)
    requires
        0 <= k <= ss.len(),
    ensures
        bucket_dur(ss.subrange(0, k), lo, hi) <= bucket_dur(ss, lo, hi),
        bucket_value(ss.subrange(0, k), lo, hi) <= bucket_value(ss, lo, hi),
    decreases ss.len(),
{
    if k < ss.len() {
        assert(ss.drop_last().subrange(0, k) =~= ss.subrange(0, k));
        lemma_bucket_prefix_mono(ss.drop_last(), k, lo, hi);
        lemma_sample_in_bounded(ss.last(), lo, hi);
    } else {
        assert(ss.subrange(0, k) =~= ss);
    }
}

/// The sums of a prefix on a thread are bounded by those of the whole list.
pub proof fn lemma_thread_prefix_mono(ss: Seq<TraceValues>, k: int, t: int)
    requires
        0 <= k <= ss.len(),
    ensures
        thread_dur(ss.subrange(0, k), t) <= thread_dur(ss, t),
        thread_value(ss.subrange(0, k), t) <= thread_value(ss, t),
    decreases ss.len(),
{
    if k < ss.len() {
        assert(ss.drop_last().subrange(0, k) =~= ss.subrange(0, k));
        lemma_thread_prefix_mono(ss.drop_last(), k, t);
    } else {
        assert(ss.subrange(0, k) =~= ss);
    }
}

/// Samples whose totals fit have sums that fit over every range and on
/// every thread.
pub proof fn lemma_fit_everywhere(ss: Seq<TraceValues>)
    requires
        samples_fit(ss),
    ensures
        ends_fit(ss),
        forall|lo: int, hi: int| #[trigger] range_fits(ss, lo, hi),
        forall|t: int| #[trigger] thread_fits(ss, t),
{
    assert forall|lo: int, hi: int| #[trigger] range_fits(ss, lo, hi) by {
        lemma_bucket_bounded(ss, lo, hi);
    }
    assert forall|t: int| #[trigger] thread_fits(ss, t) by {
        lemma_thread_bounded(ss, t);
    }
}

/// Sums `samples` that ran on `thread`.
fn sum_thread(samples: &Vec<TraceValues>, thread: usize) -> (r: (u64, u64))
    requires
        thread_fits(samples@, thread as int),
    ensures
        r.0 == thread_dur(samples@, thread as int),
        r.1 == thread_value(samples@, thread as int),
{
    let mut dur_total: u64 = 0;
    let mut val_total: u64 = 0;
    let mut k: usize = 0;
    while k < samples.len()
        invariant
            k <= samples@.len(),
            thread_fits(samples@, thread as int),
            dur_total == thread_dur(samples@.subrange(0, k as int), thread as int),
            val_total == thread_value(samples@.subrange(0, k as int), thread as int),
        decreases samples@.len() - k,
    {
        let s = samples[k];
        proof {
            let pre = samples@.subrange(0, k + 1);
            assert(pre.drop_last() =~= samples@.subrange(0, k as int));
            lemma_thread_prefix_mono(samples@, k + 1, thread as int);
            lemma_thread_bounded(samples@.subrange(0, k as int), thread as int);
        }
        if s.thread == thread {
            val_total = val_total + s.value;
            dur_total = dur_total + s.dur;
        }
        k = k + 1;
    }
    proof {
        assert(samples@.subrange(0, k as int) =~= samples@);
    }
    (dur_total, val_total)
}

/// Splits `range` into `num_graphs` equal buckets (width truncated) and sums
/// each; `None` when `num_graphs` is 0 or every bucket's duration is 0.
pub fn time_overlaps_of(samples: &Vec<TraceValues>, num_graphs: usize, start: u64, end: u64) -> (r: Option<Vec<TraceValues>>)
    requires
        ends_fit(samples@),
        start <= end,
        forall|i: int| 0 <= i < num_graphs ==> #[trigger] bucket_fits(samples@, start, end, num_graphs as nat, i),
    ensures
        match r {
            None => time_overlaps_spec(samples@, start, end, num_graphs as nat) is None,
            Some(v) => time_overlaps_spec(samples@, start, end, num_graphs as nat) == Some(v@),
        },
{
    if num_graphs < 1 {
        return None;
    }
    let graph_size: u64 = (end - start) / num_graphs as u64;
    let ghost n = num_graphs as nat;
    let mut some = false;
    let mut overlaps: Vec<TraceValues> = Vec::new();
    let mut i: usize = 0;
    while i < num_graphs
        invariant
            i <= num_graphs,
            n == num_graphs,
            num_graphs >= 1,
            start <= end,
            graph_size == bucket_width(start, end, n),
            ends_fit(samples@),
            forall|j: int| 0 <= j < n ==> #[trigger] bucket_fits(samples@, start, end, n, j),
            overlaps@.len() == i,
            forall|j: int| 0 <= j < i ==> overlaps@[j] == time_bucket(samples@, start, end, n, j),
            some <==> exists|j: int| 0 <= j < i && #[trigger] time_bucket(samples@, start, end, n, j).dur != 0,
        decreases num_graphs - i,
    {
        proof {
            let w = bucket_width(start, end, n);
            let ii = i as int;
            assert(0 <= w);
            assert((ii + 1) * w <= n * w) by (nonlinear_arith) requires ii + 1 <= n, w >= 0;
            assert(n * w <= end - start) by (nonlinear_arith) requires w == (end - start) / (n as int), n >= 1, end - start >= 0;
            assert(ii * w <= (ii + 1) * w) by (nonlinear_arith) requires w >= 0, ii >= 0;
        }
        let lo = i as u64 * graph_size + start;
        let hi = (i as u64 + 1) * graph_size + start;
        proof {
            assert(bucket_fits(samples@, start, end, n, i as int));
            assert(lo == bucket_lo(start, end, n, i as int));
            assert(hi == bucket_lo(start, end, n, i + 1));
        }
        let (dur_total, val_total) = sum_bucket(samples, lo, hi);
        proof {
            lemma_bucket_bounded(samples@, lo as int, hi as int);
        }
        overlaps.push(TraceValues { start: 0, dur: dur_total, value: val_total, thread: 0 });
        if dur_total != 0 {
            some = true;
        }
        proof {
            assert(time_bucket(samples@, start, end, n, i as int).dur == dur_total);
        }
        i = i + 1;
    }
    if some {
        proof {
            assert(overlaps@ =~= Seq::new(n, |j: int| time_bucket(samples@, start, end, n, j)));
        }
        return Some(overlaps);
    }
    None
}

/// One aggregate per thread id `0..num_threads`.
pub fn thread_overlaps_of(samples: &Vec<TraceValues>, num_threads: usize) -> (r: Vec<TraceValues>)
    requires
        forall|t: int| 0 <= t < num_threads ==> #[trigger] thread_fits(samples@, t),
    ensures
        r@ == Seq::new(num_threads as nat, |t: int| thread_bucket(samples@, t)),
{
    let mut overlaps: Vec<TraceValues> = Vec::new();
    let mut i: usize = 0;
    while i < num_threads
        invariant
            i <= num_threads,
            forall|t: int| 0 <= t < num_threads ==> #[trigger] thread_fits(samples@, t),
            overlaps@.len() == i,
            forall|j: int| 0 <= j < i ==> overlaps@[j] == thread_bucket(samples@, j),
        decreases num_threads - i,
    {
        proof {
            assert(thread_fits(samples@, i as int));
        }
        let (dur_total, val_total) = sum_thread(samples, i);
        overlaps.push(TraceValues { start: 0, dur: dur_total, value: val_total, thread: 0 });
        i = i + 1;
    }
    proof {
        assert(overlaps@ =~= Seq::new(num_threads as nat, |t: int| thread_bucket(samples@, t)));
    }
    overlaps
}

/// The aggregate of one thread.
pub fn single_thread_of(samples: &Vec<TraceValues>, thread: usize) -> (r: TraceValues)
    requires
        thread_fits(samples@, thread as int),
    ensures
        r == thread_bucket(samples@, thread as int),
{
    let (dur_total, val_total) = sum_thread(samples, thread);
    TraceValues { start: 0, dur: dur_total, value: val_total, thread: 0 }
}

proof fn lemma_overlap_split(s: TraceValues, a: int, b: int, c: int)
    requires
        a <= b <= c,
    ensures
        overlap_len(s, a, b) + overlap_len(s, b, c) == overlap_len(s, a, c),
{
}

proof fn lemma_bucket_split(ss: Seq<TraceValues>, a: int, b: int, c: int)
    requires
        a <= b <= c,
    ensures
        bucket_dur(ss, a, b) + bucket_dur(ss, b, c) == bucket_dur(ss, a, c),
    decreases ss.len(),
{
    if ss.len() > 0 {
        lemma_bucket_split(ss.drop_last(), a, b, c);
        lemma_overlap_split(ss.last(), a, b, c);
    }
}

/// Summed duration of the first `k` of `n` buckets over `[start, end)`.
pub open spec fn buckets_dur(ss: Seq<TraceValues>, start: u64, end: u64, n: nat, k: nat) -> int
    decreases k,
{
    if k == 0 { 0 } else { buckets_dur(ss, start, end, n, (k - 1) as nat) + time_bucket(ss, start, end, n, k - 1).dur }
}

proof fn lemma_buckets_prefix(ss: Seq<TraceValues>, start: u64, end: u64, n: nat, k: nat)
    requires
        samples_fit(ss),
        start <= end,
        n >= 1,
        k <= n,
    ensures
        buckets_dur(ss, start, end, n, k) == bucket_dur(ss, start as int, bucket_lo(start, end, n, k as int)),
    decreases k,
{
    let w = bucket_width(start, end, n);
    assert(w >= 0);
    if k > 0 {
        lemma_buckets_prefix(ss, start, end, n, (k - 1) as nat);
        let lo = bucket_lo(start, end, n, k - 1);
        let hi = bucket_lo(start, end, n, k as int);
        assert(hi == lo + w) by (nonlinear_arith)
            requires lo == start + (k - 1) * w, hi == start + k * w;
        assert(start <= lo) by (nonlinear_arith) requires lo == start + (k - 1) * w, k >= 1, w >= 0;
        lemma_bucket_split(ss, start as int, lo, hi);
        lemma_bucket_bounded(ss, lo, hi);
        assert((k - 1) + 1 == k as int);
        assert(time_bucket(ss, start, end, n, k - 1).dur == bucket_dur(ss, lo, hi));
    } else {
        assert(bucket_lo(start, end, n, 0) == start);
        lemma_bucket_split(ss, start as int, start as int, start as int);
    }
}

/// With `n` buckets over a range whose length `n` divides, the buckets
/// partition the range: their durations add up to the duration of a single
/// bucket over the whole range.
pub proof fn lemma_buckets_partition(ss: Seq<TraceValues>, start: u64, end: u64, n: nat)
    requires
        samples_fit(ss),
        start <= end,
        n >= 1,
        (end - start) % (n as int) == 0,
    ensures
        buckets_dur(ss, start, end, n, n) == time_bucket(ss, start, end, 1, 0).dur,
{
    lemma_buckets_prefix(ss, start, end, n, n);
    let w = bucket_width(start, end, n);
    let len = end - start;
    assert(n * w == len) by (nonlinear_arith) requires w == len / (n as int), len % (n as int) == 0, n >= 1;
    assert(bucket_lo(start, end, n, n as int) == end);
    assert(bucket_width(start, end, 1) == len);
    assert(bucket_lo(start, end, 1, 0) == start);
    assert(bucket_lo(start, end, 1, 1) == end);
    lemma_bucket_bounded(ss, start as int, end as int);
}

/// A single bucket over a range that holds every sample whole receives the
/// whole duration of the samples.
pub proof fn lemma_single_bucket_whole(ss: Seq<TraceValues>, start: u64, end: u64)
    requires
        samples_fit(ss),
        start <= end,
        forall|i: int| 0 <= i < ss.len() ==> start <= (#[trigger] ss[i]).start && ss[i].start + ss[i].dur <= end,
    ensures
        time_bucket(ss, start, end, 1, 0).dur == sum_dur(ss),
{
    assert(bucket_width(start, end, 1) == end - start);
    assert(bucket_lo(start, end, 1, 0) == start);
    assert(bucket_lo(start, end, 1, 1) == end);
    lemma_bucket_whole(ss, start as int, end as int);
    lemma_sums_nonneg(ss);
}

proof fn lemma_bucket_whole(ss: Seq<TraceValues>, lo: int, hi: int)
    requires
        forall|i: int| 0 <= i < ss.len() ==> lo <= (#[trigger] ss[i]).start && ss[i].start + ss[i].dur <= hi,
    ensures
        bucket_dur(ss, lo, hi) == sum_dur(ss),
    decreases ss.len(),
{
    if ss.len() > 0 {
        let p = ss.drop_last();
        assert forall|i: int| 0 <= i < p.len() implies lo <= (#[trigger] p[i]).start && p[i].start + p[i].dur <= hi by {
            assert(p[i] == ss[i]);
        }
        lemma_bucket_whole(p, lo, hi);
        assert(lo <= ss[ss.len() - 1].start);
    }
}

} // verus!
