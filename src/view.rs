//! Display trees for one time range or one thread: each node reduced to a
//! single aggregate and placed after its earlier siblings.
use vstd::prelude::*;
use std::ops::Range;
use crate::color::Color;
use crate::master::{
    children_in_range, children_on_thread, children_sum, in_range, node_nested, node_sum, node_wf, on_thread, tree_nested,
    tree_wf, MasterNode, MasterTree,
};
use crate::options::DataChoices;
use crate::overlap::{
    bucket_dur, bucket_lo, bucket_width, lemma_bucket_bounded, lemma_fit_everywhere, lemma_sums_nonneg, lemma_thread_bounded, overlap_len,
    sum_dur, sum_value, thread_bucket, time_bucket, time_overlaps_spec,
};
use crate::trace::{trace_zero, TraceValues};

verus! {

/// A node of a display tree.
#[derive(Debug)]
pub struct Node {
    pub name: String,
    pub values: TraceValues,
    pub children: Vec<Node>,
    pub color: Option<Color>,
    pub offsets: TraceValues,
}

/// A display tree and the time range it was built for.
#[derive(Debug)]
pub struct Tree {
    pub root: Node,
    pub time_range: Range<u64>,
}

/// What a display tree aggregates over.
#[derive(Debug, Clone, Copy, PartialEq, Eq, Structural)]
pub enum ViewSlice {
    Time { start: u64, end: u64 },
    Thread { thread: usize },
}

pub open spec fn slice_ok(sl: ViewSlice) -> bool {
    match sl {
        ViewSlice::Time { start, end } => start <= end,
        ViewSlice::Thread { .. } => true,
    }
}

/// The single aggregate of `m` for `sl`; `None` when a time slice gives it
/// no duration.
pub open spec fn slice_agg(m: MasterNode, sl: ViewSlice) -> Option<TraceValues> {
    match sl {
        ViewSlice::Time { start, end } => match time_overlaps_spec(m.values@, start, end, 1) {
            Some(v) => Some(v[0]),
            None => None,
        },
        ViewSlice::Thread { thread } => Some(thread_bucket(m.values@, thread as int)),
    }
}

/// Summed duration of the aggregates of `ms` for `sl`.
pub open spec fn agg_total_dur(ms: Seq<MasterNode>, sl: ViewSlice) -> int
    decreases ms.len(),
{
    if ms.len() == 0 {
        0
    } else {
        agg_total_dur(ms.drop_last(), sl) + match slice_agg(ms.last(), sl) {
            Some(a) => a.dur as int,
            None => 0,
        }
    }
}

/// Summed value of the aggregates of `ms` for `sl`.
pub open spec fn agg_total_value(ms: Seq<MasterNode>, sl: ViewSlice) -> int
    decreases ms.len(),
{
    if ms.len() == 0 {
        0
    } else {
        agg_total_value(ms.drop_last(), sl) + match slice_agg(ms.last(), sl) {
            Some(a) => a.value as int,
            None => 0,
        }
    }
}

/// An offset pair as it is stored.
pub open spec fn offset_of(d: int, v: int) -> TraceValues {
    TraceValues { start: 0, dur: d as u64, value: v as u64, thread: 0 }
}

/// `v` is the display node of `m` for `sl`, placed at offsets
/// `(off_d, off_v)`.
pub open spec fn is_view(v: Node, m: MasterNode, sl: ViewSlice, off_d: int, off_v: int) -> bool
    decreases m, 0int,
{
    &&& slice_agg(m, sl) is Some
    &&& v.name@ == m.name@
    &&& v.values == slice_agg(m, sl)->0
    &&& v.color == m.color
    &&& v.offsets == offset_of(off_d, off_v)
    &&& children_view(v.children@, m.children@, sl, off_d, off_v)
}

/// `vs` are, in order, the display nodes of those of `ms` that have an
/// aggregate for `sl`, each placed after the ones before it, from
/// `(off_d, off_v)` on.
pub open spec fn children_view(vs: Seq<Node>, ms: Seq<MasterNode>, sl: ViewSlice, off_d: int, off_v: int) -> bool
    decreases ms, ms.len(),
{
    if ms.len() == 0 {
        vs.len() == 0
    } else {
        let pre = ms.drop_last();
        let od = off_d + agg_total_dur(pre, sl);
        let ov = off_v + agg_total_value(pre, sl);
        match slice_agg(ms.last(), sl) {
            None => children_view(vs, pre, sl, off_d, off_v),
            Some(_) => {
                &&& vs.len() > 0
                &&& children_view(vs.drop_last(), pre, sl, off_d, off_v)
                &&& is_view(vs.last(), ms.last(), sl, od, ov)
            },
        }
    }
}

/// The display node with nothing in it, used when a view is empty.
pub open spec fn is_placeholder(v: Node) -> bool {
    &&& v.name@ == "root"@
    &&& v.values == offset_of(0, 0)
    &&& v.children@.len() == 0
    &&& v.color is None
    &&& v.offsets == offset_of(0, 0)
}

/// `t` is the display tree of `m` for `sl`.
pub open spec fn is_view_tree(t: Tree, m: MasterTree, sl: ViewSlice) -> bool {
    match slice_agg(m.root, sl) {
        None => is_placeholder(t.root),
        Some(_) => is_view(t.root, m.root, sl, 0, 0),
    }
}

proof fn lemma_agg_bounded(m: MasterNode, sl: ViewSlice)
    requires
        slice_ok(sl),
    ensures
        slice_agg(m, sl) matches Some(a) ==> a.dur <= sum_dur(m.values@) && a.value <= sum_value(m.values@),
{
    match sl {
        ViewSlice::Time { start, end } => {
            let w = (end - start) / 1int;
            let lo = start + 0 * w;
            let hi = start + 1 * w;
            lemma_bucket_bounded(m.values@, lo, hi);
        },
        ViewSlice::Thread { thread } => {
            lemma_thread_bounded(m.values@, thread as int);
        },
    }
}

proof fn lemma_agg_total_le(ms: Seq<MasterNode>, sl: ViewSlice)
    requires
        slice_ok(sl),
    ensures
        0 <= agg_total_dur(ms, sl) <= children_sum(ms, DataChoices::Duration),
        0 <= agg_total_value(ms, sl) <= children_sum(ms, DataChoices::Value),
    decreases ms.len(),
{
    if ms.len() > 0 {
        lemma_agg_total_le(ms.drop_last(), sl);
        lemma_agg_bounded(ms.last(), sl);
        lemma_sums_nonneg(ms.last().values@);
    }
}

/// Builds the display node of `m` for `sl` at offsets `(off_d, off_v)`, with
/// the display nodes of its children that have an aggregate.
fn build_subtree(m: &MasterNode, sl: ViewSlice, off_d: u64, off_v: u64) -> (r: Option<Node>)
    requires
        node_wf(*m),
        slice_ok(sl),
        off_d + sum_dur(m.values@) <= u64::MAX,
        off_v + sum_value(m.values@) <= u64::MAX,
    ensures
        r is None <==> slice_agg(*m, sl) is None,
        r matches Some(v) ==> is_view(v, *m, sl, off_d as int, off_v as int),
    decreases *m,
{
    proof {
        lemma_fit_everywhere(m.values@);
    }
    let a: TraceValues = match sl {
        ViewSlice::Time { start, end } => {
            let o = m.time_overlaps(1, Range { start, end });
            match o {
                None => {
                    return None;
                },
                Some(v) => v[0],
            }
        },
        ViewSlice::Thread { thread } => {
            let o = m.single_tread_overlap(thread);
            match o {
                None => {
                    return None;
                },
                Some(v) => v[0],
            }
        },
    };
    proof {
        lemma_agg_bounded(*m, sl);
        assert(slice_agg(*m, sl) == Some(a));
    }
    let mut children: Vec<Node> = Vec::new();
    let mut run_d: u64 = off_d;
    let mut run_v: u64 = off_v;
    let mut i: usize = 0;
    while i < m.children.len()
        invariant
            i <= m.children@.len(),
            node_wf(*m),
            slice_ok(sl),
            off_d + sum_dur(m.values@) <= u64::MAX,
            off_v + sum_value(m.values@) <= u64::MAX,
            run_d == off_d + agg_total_dur(m.children@.subrange(0, i as int), sl),
            run_v == off_v + agg_total_value(m.children@.subrange(0, i as int), sl),
            children_view(children@, m.children@.subrange(0, i as int), sl, off_d as int, off_v as int),
        decreases m.children@.len() - i,
    {
        let ghost pre = m.children@.subrange(0, i as int);
        let ghost cur = m.children@.subrange(0, i + 1);
        proof {
            assert(cur.drop_last() =~= pre);
            assert(cur.last() == m.children@[i as int]);
            assert(node_wf(m.children@[i as int]));
            lemma_agg_total_le(pre, sl);
            crate::master::lemma_children_sum_prefix(m.children@, i + 1);
            assert(children_sum(cur, DataChoices::Duration) == children_sum(pre, DataChoices::Duration) + node_sum(m.children@[i as int], DataChoices::Duration));
            assert(children_sum(cur, DataChoices::Value) == children_sum(pre, DataChoices::Value) + node_sum(m.children@[i as int], DataChoices::Value));
            assert(decreases_to!(*m => m.children@[i as int]));
        }
        let built = build_subtree(&m.children[i], sl, run_d, run_v);
        proof {
            lemma_agg_bounded(m.children@[i as int], sl);
        }
        match built {
            Some(v) => {
                let vd = v.values.dur;
                let vv = v.values.value;
                let ghost old_children = children@;
                children.push(v);
                proof {
                    assert(children@.drop_last() =~= old_children);
                }
                run_d = run_d + vd;
                run_v = run_v + vv;
            },
            None => {},
        }
        i = i + 1;
    }
    proof {
        assert(m.children@.subrange(0, i as int) =~= m.children@);
    }
    Some(Node {
        name: m.name.clone(),
        values: a,
        children,
        offsets: TraceValues { start: 0, dur: off_d, value: off_v, thread: 0 },
        color: m.color,
    })
}

fn placeholder_root() -> (r: Node)
    ensures
        is_placeholder(r),
{
    let r = Node { name: "root".to_owned(), values: trace_zero(), children: Vec::new(), color: None, offsets: trace_zero() };
    proof {
        assert(r.children@ =~= Seq::<Node>::empty());
    }
    r
}

/// The display tree of `node` over `range`: only nodes with some duration
/// in the range, each after its earlier siblings; the empty placeholder when
/// the root has none.
pub fn build_time_tree(node: &MasterTree, range: Range<u64>) -> (r: Tree)
    requires
        tree_wf(*node),
        range.start <= range.end,
    ensures
        is_view_tree(r, *node, ViewSlice::Time { start: range.start, end: range.end }),
        r.time_range == range,
{
    let sl = ViewSlice::Time { start: range.start, end: range.end };
    proof {
        lemma_sums_nonneg(node.root.values@);
    }
    match build_subtree(&node.root, sl, 0, 0) {
        Some(root) => Tree { root, time_range: range },
        None => Tree { root: placeholder_root(), time_range: range },
    }
}

/// The display tree of `node` for one thread: every node, each after its
/// earlier siblings.
pub fn build_thread_tree(node: &MasterTree, thread: usize) -> (r: Tree)
    requires
        tree_wf(*node),
    ensures
        is_view_tree(r, *node, ViewSlice::Thread { thread }),
        r.time_range.start == 0,
        r.time_range.end == 0,
{
    let sl = ViewSlice::Thread { thread };
    proof {
        lemma_sums_nonneg(node.root.values@);
    }
    match build_subtree(&node.root, sl, 0, 0) {
        Some(root) => Tree { root, time_range: Range { start: 0, end: 0 } },
        None => Tree { root: placeholder_root(), time_range: Range { start: 0, end: 0 } },
    }
}

/// Summed duration of a list of display nodes.
pub open spec fn values_dur(vs: Seq<Node>) -> int
    decreases vs.len(),
{
    if vs.len() == 0 { 0 } else { values_dur(vs.drop_last()) + vs.last().values.dur }
}

/// Summed value of a list of display nodes.
pub open spec fn values_value(vs: Seq<Node>) -> int
    decreases vs.len(),
{
    if vs.len() == 0 { 0 } else { values_value(vs.drop_last()) + vs.last().values.value }
}

/// Each child starts, for both metrics, where its earlier siblings end,
/// the first at its parent's own offset; recursively.
pub open spec fn offsets_partitioned(v: Node) -> bool
    decreases v,
{
    &&& forall|k: int| 0 <= k < v.children@.len() ==> (#[trigger] v.children@[k]).offsets.dur == v.offsets.dur
        + values_dur(v.children@.subrange(0, k))
    &&& forall|k: int| 0 <= k < v.children@.len() ==> (#[trigger] v.children@[k]).offsets.value == v.offsets.value
        + values_value(v.children@.subrange(0, k))
    &&& forall|k: int| 0 <= k < v.children@.len() ==> offsets_partitioned(#[trigger] v.children@[k])
}

/// Two display nodes with the same names, aggregates, offsets and colours,
/// recursively.
pub open spec fn view_eq(a: Node, b: Node) -> bool
    decreases a,
{
    &&& a.name@ == b.name@
    &&& a.values == b.values
    &&& a.offsets == b.offsets
    &&& a.color == b.color
    &&& a.children@.len() == b.children@.len()
    &&& forall|k: int| 0 <= k < a.children@.len() ==> view_eq(#[trigger] a.children@[k], b.children@[k])
}

proof fn lemma_children_offsets(vs: Seq<Node>, ms: Seq<MasterNode>, sl: ViewSlice, od: int, ov: int)
    requires
        children_view(vs, ms, sl, od, ov),
        slice_ok(sl),
        0 <= od,
        0 <= ov,
        od + children_sum(ms, DataChoices::Duration) <= u64::MAX,
        ov + children_sum(ms, DataChoices::Value) <= u64::MAX,
        forall|i: int| 0 <= i < ms.len() ==> node_wf(#[trigger] ms[i]),
    ensures
        agg_total_dur(ms, sl) == values_dur(vs),
        agg_total_value(ms, sl) == values_value(vs),
        forall|k: int| 0 <= k < vs.len() ==> (#[trigger] vs[k]).offsets.dur == od + values_dur(vs.subrange(0, k)),
        forall|k: int| 0 <= k < vs.len() ==> (#[trigger] vs[k]).offsets.value == ov + values_value(vs.subrange(0, k)),
        forall|k: int| 0 <= k < vs.len() ==> offsets_partitioned(#[trigger] vs[k]),
        (forall|i: int| 0 <= i < ms.len() ==> node_nested(#[trigger] ms[i])) ==> forall|k: int|
            0 <= k < vs.len() ==> children_within(#[trigger] vs[k]),
    decreases ms, ms.len(),
{
    if ms.len() > 0 {
        let pre = ms.drop_last();
        let last = ms.last();
        lemma_agg_total_le(pre, sl);
        if forall|i: int| 0 <= i < ms.len() ==> node_nested(#[trigger] ms[i]) {
            assert forall|i: int| 0 <= i < pre.len() implies node_nested(#[trigger] pre[i]) by {
                assert(pre[i] == ms[i]);
            }
            assert(node_nested(ms[ms.len() - 1]));
        }
        crate::master::lemma_children_sum_prefix(ms, ms.len() - 1);
        assert(ms.subrange(0, ms.len() - 1) =~= pre);
        lemma_sums_nonneg(last.values@);
        assert forall|i: int| 0 <= i < pre.len() implies node_wf(#[trigger] pre[i]) by {
            assert(pre[i] == ms[i]);
        }
        match slice_agg(last, sl) {
            None => {
                lemma_children_offsets(vs, pre, sl, od, ov);
            },
            Some(a) => {
                let init = vs.drop_last();
                lemma_children_offsets(init, pre, sl, od, ov);
                assert(is_view(vs.last(), last, sl, od + agg_total_dur(pre, sl), ov + agg_total_value(pre, sl)));
                assert(vs.last().values == a);
                assert(agg_total_dur(ms, sl) == agg_total_dur(pre, sl) + a.dur);
                assert(agg_total_value(ms, sl) == agg_total_value(pre, sl) + a.value);
                let d2 = od + agg_total_dur(pre, sl);
                let v2 = ov + agg_total_value(pre, sl);
                assert(node_wf(ms[ms.len() - 1]));
                lemma_view_offsets(vs.last(), last, sl, d2, v2);
                assert forall|k: int| 0 <= k < vs.len() implies (#[trigger] vs[k]).offsets.dur == od + values_dur(vs.subrange(0, k))
                    && vs[k].offsets.value == ov + values_value(vs.subrange(0, k))
                    && offsets_partitioned(vs[k])
                    && ((forall|i: int| 0 <= i < ms.len() ==> node_nested(#[trigger] ms[i])) ==> children_within(vs[k])) by {
                    if k < vs.len() - 1 {
                        assert(vs[k] == init[k]);
                        assert(vs.subrange(0, k) =~= init.subrange(0, k));
                    } else {
                        assert(vs.subrange(0, k) =~= init);
                    }
                }
            },
        }
    }
}

proof fn lemma_view_offsets(v: Node, m: MasterNode, sl: ViewSlice, od: int, ov: int)
    requires
        is_view(v, m, sl, od, ov),
        slice_ok(sl),
        node_wf(m),
        0 <= od,
        0 <= ov,
        od + sum_dur(m.values@) <= u64::MAX,
        ov + sum_value(m.values@) <= u64::MAX,
    ensures
        offsets_partitioned(v),
        v.offsets.dur == od,
        v.offsets.value == ov,
        node_nested(m) ==> children_within(v),
    decreases m, 0int,
{
    lemma_sums_nonneg(m.values@);
    lemma_children_offsets(v.children@, m.children@, sl, od, ov);
    if node_nested(m) {
        assert forall|i: int| 0 <= i < m.children@.len() implies node_wf(#[trigger] m.children@[i]) by {}
        lemma_agg_total_within(m.children@, sl);
        lemma_agg_is_probe(m, sl);
        match sl {
            ViewSlice::Time { start, end } => {
                assert(children_in_range(m.children@, start as int, end as int, DataChoices::Duration) <= in_range(
                    m.values@,
                    start as int,
                    end as int,
                    DataChoices::Duration,
                ));
                assert(children_in_range(m.children@, start as int, end as int, DataChoices::Value) <= in_range(
                    m.values@,
                    start as int,
                    end as int,
                    DataChoices::Value,
                ));
            },
            ViewSlice::Thread { thread } => {
                assert(children_on_thread(m.children@, thread as int, DataChoices::Duration) <= on_thread(
                    m.values@,
                    thread as int,
                    DataChoices::Duration,
                ));
                assert(children_on_thread(m.children@, thread as int, DataChoices::Value) <= on_thread(
                    m.values@,
                    thread as int,
                    DataChoices::Value,
                ));
            },
        }
    }
}

/// A display node's children hold, together, no more of either metric
/// than it does; recursively.
pub open spec fn children_within(v: Node) -> bool
    decreases v,
{
    &&& values_dur(v.children@) <= v.values.dur
    &&& values_value(v.children@) <= v.values.value
    &&& forall|k: int| 0 <= k < v.children@.len() ==> children_within(#[trigger] v.children@[k])
}

/// One metric of `ss` for the slice `sl`.
pub open spec fn slice_probe(ss: Seq<TraceValues>, sl: ViewSlice, m: DataChoices) -> int {
    match sl {
        ViewSlice::Time { start, end } => in_range(ss, start as int, end as int, m),
        ViewSlice::Thread { thread } => on_thread(ss, thread as int, m),
    }
}

/// One metric for the slice `sl`, summed over a list of nodes.
pub open spec fn children_slice(cs: Seq<MasterNode>, sl: ViewSlice, m: DataChoices) -> int {
    match sl {
        ViewSlice::Time { start, end } => children_in_range(cs, start as int, end as int, m),
        ViewSlice::Thread { thread } => children_on_thread(cs, thread as int, m),
    }
}

proof fn lemma_agg_is_probe(m: MasterNode, sl: ViewSlice)
    requires
        node_wf(m),
        slice_ok(sl),
    ensures
        slice_agg(m, sl) matches Some(a) ==> a.dur == slice_probe(m.values@, sl, DataChoices::Duration) && a.value
            == slice_probe(m.values@, sl, DataChoices::Value),
        0 <= slice_probe(m.values@, sl, DataChoices::Duration),
        0 <= slice_probe(m.values@, sl, DataChoices::Value),
{
    match sl {
        ViewSlice::Time { start, end } => {
            assert(bucket_width(start, end, 1) == end - start);
            assert(bucket_lo(start, end, 1, 0) == start);
            assert(bucket_lo(start, end, 1, 1) == end);
            lemma_bucket_bounded(m.values@, start as int, end as int);
        },
        ViewSlice::Thread { thread } => {
            lemma_thread_bounded(m.values@, thread as int);
        },
    }
}

proof fn lemma_agg_total_within(ms: Seq<MasterNode>, sl: ViewSlice)
    requires
        slice_ok(sl),
        forall|i: int| 0 <= i < ms.len() ==> node_wf(#[trigger] ms[i]),
    ensures
        agg_total_dur(ms, sl) <= children_slice(ms, sl, DataChoices::Duration),
        agg_total_value(ms, sl) <= children_slice(ms, sl, DataChoices::Value),
    decreases ms.len(),
{
    if ms.len() > 0 {
        let pre = ms.drop_last();
        assert forall|i: int| 0 <= i < pre.len() implies node_wf(#[trigger] pre[i]) by {
            assert(pre[i] == ms[i]);
        }
        lemma_agg_total_within(pre, sl);
        assert(node_wf(ms[ms.len() - 1]));
        lemma_agg_is_probe(ms.last(), sl);
    }
}

proof fn lemma_children_eq(a: Seq<Node>, b: Seq<Node>, ms: Seq<MasterNode>, sl: ViewSlice, od: int, ov: int)
    requires
        children_view(a, ms, sl, od, ov),
        children_view(b, ms, sl, od, ov),
    ensures
        a.len() == b.len(),
        forall|k: int| 0 <= k < a.len() ==> view_eq(#[trigger] a[k], b[k]),
    decreases ms, ms.len(),
{
    if ms.len() > 0 {
        let pre = ms.drop_last();
        match slice_agg(ms.last(), sl) {
            None => {
                lemma_children_eq(a, b, pre, sl, od, ov);
            },
            Some(_) => {
                lemma_children_eq(a.drop_last(), b.drop_last(), pre, sl, od, ov);
                lemma_view_eq(a.last(), b.last(), ms.last(), sl, od + agg_total_dur(pre, sl), ov + agg_total_value(pre, sl));
                assert forall|k: int| 0 <= k < a.len() implies view_eq(#[trigger] a[k], b[k]) by {
                    if k < a.len() - 1 {
                        assert(a[k] == a.drop_last()[k]);
                        assert(b[k] == b.drop_last()[k]);
                    }
                }
            },
        }
    }
}

proof fn lemma_view_eq(a: Node, b: Node, m: MasterNode, sl: ViewSlice, od: int, ov: int)
    requires
        is_view(a, m, sl, od, ov),
        is_view(b, m, sl, od, ov),
    ensures
        view_eq(a, b),
    decreases m, 0int,
{
    lemma_children_eq(a.children@, b.children@, m.children@, sl, od, ov);
}

/// In every display tree built from a well-formed call tree, each node's
/// children follow one another without gap or overlap, in child order, for
/// both metrics, starting at the parent's offset; when the call tree is
/// nested (as trees grown from traces are), they end within the parent's
/// own interval.
pub proof fn lemma_view_offsets_partition(t: Tree, m: MasterTree, sl: ViewSlice)
    requires
        is_view_tree(t, m, sl),
        tree_wf(m),
        slice_ok(sl),
    ensures
        offsets_partitioned(t.root),
        t.root.offsets.dur == 0,
        t.root.offsets.value == 0,
        tree_nested(m) ==> children_within(t.root),
{
    lemma_sums_nonneg(m.root.values@);
    if slice_agg(m.root, sl) is Some {
        lemma_view_offsets(t.root, m.root, sl, 0, 0);
    }
}

/// Two display trees built from the same call tree for the same slice have
/// the same names, aggregates, offsets and colours throughout.
pub proof fn lemma_rebuild_identical(t1: Tree, t2: Tree, m: MasterTree, sl: ViewSlice)
    requires
        is_view_tree(t1, m, sl),
        is_view_tree(t2, m, sl),
    ensures
        view_eq(t1.root, t2.root),
{
    if slice_agg(m.root, sl) is Some {
        lemma_view_eq(t1.root, t2.root, m.root, sl, 0, 0);
    }
}

proof fn lemma_no_overlap_zero(ss: Seq<TraceValues>, lo: int, hi: int)
    requires
        forall|i: int| 0 <= i < ss.len() ==> overlap_len(#[trigger] ss[i], lo, hi) == 0,
    ensures
        bucket_dur(ss, lo, hi) == 0,
    decreases ss.len(),
{
    if ss.len() > 0 {
        let p = ss.drop_last();
        assert forall|i: int| 0 <= i < p.len() implies overlap_len(#[trigger] p[i], lo, hi) == 0 by {
            assert(p[i] == ss[i]);
        }
        lemma_no_overlap_zero(p, lo, hi);
        assert(overlap_len(ss[ss.len() - 1], lo, hi) == 0);
    }
}

/// A node none of whose samples meets `[start, end)` has no aggregate for
/// that range, so no display node stands for it in a time view, whatever
/// its ancestors have.
pub proof fn lemma_pruned_node_absent(m: MasterNode, start: u64, end: u64, v: Node, od: int, ov: int)
    requires
        start <= end,
        forall|i: int| 0 <= i < m.values@.len() ==> overlap_len(#[trigger] m.values@[i], start as int, end as int) == 0,
    ensures
        slice_agg(m, ViewSlice::Time { start, end }) is None,
        !is_view(v, m, ViewSlice::Time { start, end }, od, ov),
{
    let w = bucket_width(start, end, 1);
    assert(w == end - start);
    assert(bucket_lo(start, end, 1, 0) == start as int);
    assert(bucket_lo(start, end, 1, 1) == end as int);
    lemma_no_overlap_zero(m.values@, start as int, end as int);
    assert(time_bucket(m.values@, start, end, 1, 0).dur == 0);
}

/// The nodes `d` levels below `n` (`n` itself at level 0), left to right.
pub open spec fn level(n: Node, d: nat) -> Seq<Node>
    decreases n, 0int,
{
    if d == 0 { seq![n] } else { level_list(n.children@, (d - 1) as nat) }
}

/// The nodes `d` levels below each of `cs`, in order.
pub open spec fn level_list(cs: Seq<Node>, d: nat) -> Seq<Node>
    decreases cs, cs.len(),
{
    if cs.len() == 0 { Seq::empty() } else { level_list(cs.drop_last(), d) + level(cs.last(), d) }
}

/// Number of levels of the tree under `n`.
pub open spec fn height(n: Node) -> nat
    decreases n, 0int,
{
    1 + height_list(n.children@)
}

/// Largest number of levels among the trees under `cs`.
pub open spec fn height_list(cs: Seq<Node>) -> nat
    decreases cs, cs.len(),
{
    if cs.len() == 0 {
        0
    } else {
        let a = height_list(cs.drop_last());
        let b = height(cs.last());
        if a > b { a } else { b }
    }
}

/// The first `k` levels under `n`, each node with its level.
pub open spec fn levels_upto(n: Node, k: nat) -> Seq<(usize, Node)>
    decreases k,
{
    if k == 0 {
        Seq::empty()
    } else {
        levels_upto(n, (k - 1) as nat) + level(n, (k - 1) as nat).map_values(|x: Node| ((k - 1) as usize, x))
    }
}

/// Breadth-first (level-order) listing of the tree under `n`, each node
/// with its depth, the root at depth 0.
pub open spec fn bft_order(n: Node) -> Seq<(usize, Node)> {
    levels_upto(n, height(n))
}

/// Relies on traversal::Bft, walked to its end: it yields the root at
/// depth 0 and then, level by level, every node with its depth, each level
/// left to right in child order.
#[verifier::external_body]
pub(crate) fn bft_nodes<'a>(root: &'a Node) -> (r: Vec<(usize, &'a Node)>)
    ensures
        r@.len() == bft_order(*root).len(),
        forall|i: int| 0 <= i < r@.len() ==> (#[trigger] r@[i]).0 == bft_order(*root)[i].0 && *r@[i].1
            == bft_order(*root)[i].1,
{
    traversal::Bft::new(root, |n: &'a Node| n.children.iter()).collect()
}

/// The `n`-th node of the tree in breadth-first order, with its depth.
pub fn fetch_nth_node(tree: &Tree, n: usize) -> (r: Option<(usize, &Node)>)
    ensures
        n < bft_order(tree.root).len() ==> (r matches Some(p) && p.0 == bft_order(tree.root)[n as int].0 && *p.1
            == bft_order(tree.root)[n as int].1),
        n >= bft_order(tree.root).len() ==> r is None,
{
    let nodes = bft_nodes(&tree.root);
    if n < nodes.len() {
        Some(nodes[n])
    } else {
        None
    }
}

/// The entries of `s` whose node has a colour, in order.
pub open spec fn colored(s: Seq<(usize, Node)>) -> Seq<(usize, Node)> {
    s.filter(|e: (usize, Node)| e.1.color is Some)
}

/// The nodes of the breadth-first listing that have a colour, in order:
/// the nodes the flame graph draws a rectangle for.
pub open spec fn colored_order(n: Node) -> Seq<(usize, Node)> {
    colored(bft_order(n))
}

proof fn lemma_filter_prefix(s: Seq<(usize, Node)>, i: int)
    requires
        0 <= i <= s.len(),
    ensures
        colored(s.subrange(0, i)).len() <= colored(s).len(),
        forall|k: int| 0 <= k < colored(s.subrange(0, i)).len() ==> #[trigger] colored(s)[k] == colored(
            s.subrange(0, i),
        )[k],
{
    let a = s.subrange(0, i);
    let b = s.subrange(i, s.len() as int);
    assert(s =~= a + b);
    Seq::filter_distributes_over_add(a, b, |e: (usize, Node)| e.1.color is Some);
}

/// The node behind the `n`-th flame-graph rectangle: the `n`-th node with a
/// colour in breadth-first order, with its depth.
pub fn fetch_nth_colored_node(tree: &Tree, n: usize) -> (r: Option<(usize, &Node)>)
    ensures
        n < colored_order(tree.root).len() ==> (r matches Some(p) && p.0 == colored_order(tree.root)[n as int].0
            && *p.1 == colored_order(tree.root)[n as int].1),
        n >= colored_order(tree.root).len() ==> r is None,
{
    let ghost order = bft_order(tree.root);
    let nodes = bft_nodes(&tree.root);
    let mut count: usize = 0;
    let mut i: usize = 0;
    while i < nodes.len()
        invariant
            i <= nodes@.len(),
            order == bft_order(tree.root),
            nodes@.len() == order.len(),
            forall|k: int| 0 <= k < nodes@.len() ==> (#[trigger] nodes@[k]).0 == order[k].0 && *nodes@[k].1 == order[k].1,
            count == colored(order.subrange(0, i as int)).len(),
            count <= n,
        decreases nodes@.len() - i,
    {
        let (depth, node) = nodes[i];
        proof {
            reveal(Seq::filter);
            let pre = order.subrange(0, i as int);
            let cur = order.subrange(0, i + 1);
            assert(cur.drop_last() =~= pre);
            assert(cur.last() == order[i as int]);
            lemma_filter_prefix(order, i + 1);
        }
        if node.color.is_some() {
            if count == n {
                proof {
                    let cur = order.subrange(0, i + 1);
                    assert(colored(cur) == colored(order.subrange(0, i as int)).push(order[i as int]));
                    assert(colored(cur)[n as int] == order[i as int]);
                }
                return Some((depth, node));
            }
            count = count + 1;
        }
        i = i + 1;
    }
    proof {
        assert(order.subrange(0, i as int) =~= order);
    }
    None
}

/// The names of a list of display nodes, in order.
pub open spec fn view_names(vs: Seq<Node>) -> Seq<Seq<char>>
    decreases vs.len(),
{
    if vs.len() == 0 { Seq::empty() } else { view_names(vs.drop_last()).push(vs.last().name@) }
}

/// The names of those of `ms` that have an aggregate for `sl`, in order.
pub open spec fn kept_names(ms: Seq<MasterNode>, sl: ViewSlice) -> Seq<Seq<char>>
    decreases ms.len(),
{
    if ms.len() == 0 {
        Seq::empty()
    } else if slice_agg(ms.last(), sl) is Some {
        kept_names(ms.drop_last(), sl).push(ms.last().name@)
    } else {
        kept_names(ms.drop_last(), sl)
    }
}

/// The children of a display node are the children of its call-tree node
/// that have an aggregate for the view, in the order they were created,
/// not reordered by size.
pub proof fn lemma_children_in_insertion_order(vs: Seq<Node>, ms: Seq<MasterNode>, sl: ViewSlice, od: int, ov: int)
    requires
        children_view(vs, ms, sl, od, ov),
    ensures
        view_names(vs) == kept_names(ms, sl),
    decreases ms.len(),
{
    if ms.len() > 0 {
        let pre = ms.drop_last();
        if slice_agg(ms.last(), sl) is Some {
            lemma_children_in_insertion_order(vs.drop_last(), pre, sl, od, ov);
            assert(is_view(vs.last(), ms.last(), sl, od + agg_total_dur(pre, sl), ov + agg_total_value(pre, sl)));
            assert(vs.last().name@ == ms.last().name@);
            assert(view_names(vs) == view_names(vs.drop_last()).push(vs.last().name@));
        } else {
            lemma_children_in_insertion_order(vs, pre, sl, od, ov);
        }
    }
}

} // verus!
