use metaflame::options::{AcrossMetric, DataChoices, MeshOptions, DEFAULT_DIVISIONS};
use metaflame::{get_info, trace_zero, MasterNode, Stackframe, Trace, TraceValues};

fn trace(name: &str, stack: &[&str], start: u64, dur: u64, value: u64, tid: usize) -> Trace {
    Trace {
        id: 0,
        name: name.to_string(),
        stack: stack.iter().map(|s| Stackframe { name: s.to_string() }).collect(),
        start,
        dur,
        value,
        tid,
    }
}

fn sample(start: u64, dur: u64, value: u64, thread: usize) -> TraceValues {
    TraceValues { start, dur, value, thread }
}

fn node_with(values: Vec<TraceValues>) -> MasterNode {
    MasterNode { name: "n".to_string(), values, children: vec![], color: None }
}

#[test]
fn trace_zero_is_all_zero() {
    assert_eq!(trace_zero(), sample(0, 0, 0, 0));
}

#[test]
fn get_info_summarises_traces() {
    let traces = vec![
        trace("leaf", &["mid", "top"], 5, 10, 1, 0),
        trace("mid", &["top"], 20, 30, 2, 3),
        trace("x", &[], 2, 1, 0, 1),
    ];
    let info = get_info(&traces);
    assert_eq!(info.max_depth, 2);
    assert_eq!(info.num_threads, 4);
    assert_eq!(info.start, 2);
    assert_eq!(info.end, 50);
    assert_eq!(info.nodes, 3);
}

#[test]
fn get_info_of_nothing() {
    let info = get_info(&vec![]);
    assert_eq!(info.max_depth, 0);
    assert_eq!(info.num_threads, 1);
    assert_eq!(info.start, 0);
    assert_eq!(info.end, 0);
    assert_eq!(info.nodes, 0);
}

#[test]
fn mesh_options_defaults() {
    let info = get_info(&vec![trace("a", &[], 100, 1000, 0, 1)]);
    let o3 = MeshOptions::new_3d(&info);
    assert_eq!(o3.num_graphs, DEFAULT_DIVISIONS);
    assert_eq!(o3.time_range, 100..1100);
    assert_eq!(o3.num_threads, 2);
    assert_eq!(o3.data_metric, DataChoices::Duration);
    assert_eq!(o3.across_metric, AcrossMetric::Time);
    assert!(!o3.bar_spacing && !o3.has_changed);
    let o2 = MeshOptions::new_2d(&info);
    assert_eq!(o2.num_graphs, 1);
    assert_eq!(o2.time_range, 100..300);
}

#[test]
fn truncated_value_in_half_buckets() {
    let n = node_with(vec![sample(0, 100, 100, 0)]);
    let r = n.time_overlaps(2, 0..100).unwrap();
    assert_eq!(r.len(), 2);
    assert_eq!((r[0].dur, r[0].value), (50, 0));
    assert_eq!((r[1].dur, r[1].value), (50, 0));
}

#[test]
fn full_value_when_bucket_covers_sample() {
    let n = node_with(vec![sample(0, 100, 100, 0)]);
    let r = n.time_overlaps(1, 0..100).unwrap();
    assert_eq!((r[0].dur, r[0].value), (100, 100));
}

#[test]
fn no_buckets_gives_no_result() {
    let n = node_with(vec![sample(0, 100, 100, 0)]);
    assert!(n.time_overlaps(0, 0..100).is_none());
}

#[test]
fn no_overlap_gives_no_result() {
    let n = node_with(vec![sample(0, 10, 100, 0), sample(50, 10, 1, 0)]);
    assert!(n.time_overlaps(3, 10..50).is_none());
    assert!(node_with(vec![]).time_overlaps(1, 0..10).is_none());
}

#[test]
fn zero_length_sample_contributes_nothing() {
    let n = node_with(vec![sample(5, 0, 1000, 0), sample(0, 10, 7, 0)]);
    let r = n.time_overlaps(1, 0..10).unwrap();
    assert_eq!((r[0].dur, r[0].value), (10, 7));
}

#[test]
fn partial_overlap_per_bucket() {
    let n = node_with(vec![sample(3, 10, 9, 0)]);
    let r = n.time_overlaps(4, 0..16).unwrap();
    let durs: Vec<u64> = r.iter().map(|t| t.dur).collect();
    assert_eq!(durs, vec![1, 4, 4, 1]);
    assert!(r.iter().all(|t| t.value == 0 && t.start == 0 && t.thread == 0));
}

#[test]
fn bucket_width_truncates() {
    let n = node_with(vec![sample(0, 10, 1, 0)]);
    let r = n.time_overlaps(3, 0..10).unwrap();
    let durs: Vec<u64> = r.iter().map(|t| t.dur).collect();
    assert_eq!(durs, vec![3, 3, 3]);
}

#[test]
fn single_bucket_conserves_duration() {
    let n = node_with(vec![sample(2, 5, 1, 0), sample(10, 20, 2, 1), sample(0, 1, 3, 0)]);
    let r = n.time_overlaps(1, 0..30).unwrap();
    assert_eq!(r[0].dur, 26);
    let split = n.time_overlaps(5, 0..30).unwrap();
    assert_eq!(split.iter().map(|t| t.dur).sum::<u64>(), 26);
}

#[test]
fn per_thread_sums() {
    let n = node_with(vec![sample(0, 5, 1, 0), sample(0, 7, 2, 2), sample(9, 3, 4, 2)]);
    let r = n.tread_overlaps(4).unwrap();
    let pairs: Vec<(u64, u64)> = r.iter().map(|t| (t.dur, t.value)).collect();
    assert_eq!(pairs, vec![(5, 1), (0, 0), (10, 6), (0, 0)]);
    assert_eq!(n.tread_overlaps(0).unwrap().len(), 0);
    let one = n.single_tread_overlap(2).unwrap();
    assert_eq!(one.len(), 1);
    assert_eq!((one[0].dur, one[0].value), (10, 6));
    let none = n.single_tread_overlap(7).unwrap();
    assert_eq!((none[0].dur, none[0].value), (0, 0));
}

#[test]
fn samples_at_the_end_of_time() {
    let n = node_with(vec![sample(u64::MAX - 10, 10, 5, 0), sample(0, 4, 1, 0)]);
    let r = n.time_overlaps(1, 0..u64::MAX).unwrap();
    assert_eq!((r[0].dur, r[0].value), (14, 6));
    let info = get_info(&vec![trace("a", &[], u64::MAX - 10, 10, 0, usize::MAX - 1)]);
    assert_eq!(info.end, u64::MAX);
    assert_eq!(info.num_threads, usize::MAX);
}

#[test]
fn huge_samples_outside_the_sums() {
    let n = node_with(vec![sample(0, u64::MAX, 0, 0), sample(0, 5, 1, 1), sample(0, u64::MAX, 9, 2)]);
    let r = n.time_overlaps(1, 0..10).unwrap();
    assert_eq!((r[0].dur, r[0].value), (25, 1));
    let t = n.single_tread_overlap(0).unwrap();
    assert_eq!((t[0].dur, t[0].value), (u64::MAX, 0));
    let one = n.single_tread_overlap(1).unwrap();
    assert_eq!((one[0].dur, one[0].value), (5, 1));
}
