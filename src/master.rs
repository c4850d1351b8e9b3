//! The aggregate call tree: every raw sample of every trace, folded by
//! call-stack frame name.
use vstd::prelude::*;
use std::ops::Range;
use crate::color::{color_from_scheme, scheme_color, Color, ColorScheme};
use crate::options::DataChoices;
use crate::overlap::{
    bucket_dur, bucket_fits, bucket_value, ends_fit, lemma_sample_in_bounded, sample_dur_in, sample_value_in,
    thread_dur, thread_fits, thread_value,
    lemma_sums_nonneg, samples_fit, single_thread_of, sum_dur, sum_value, thread_bucket, thread_overlaps_of,
    time_overlaps_of, time_overlaps_spec,
};
use crate::trace::{Trace, TraceValues};

verus! {

/// A call-tree node with every sample recorded for its frame.
#[derive(Debug)]
pub struct MasterNode {
    pub name: String,
    pub values: Vec<TraceValues>,
    pub children: Vec<MasterNode>,
    pub color: Option<Color>,
}

/// The call tree of a whole trace set, with the colouring it uses for new
/// nodes.
#[derive(Debug)]
pub struct MasterTree {
    pub root: MasterNode,
    pub color_scheme: ColorScheme,
    pub color_salt: u32,
}

/// Total of one metric over a node's samples.
pub open spec fn node_sum(n: MasterNode, m: DataChoices) -> int {
    match m {
        DataChoices::Duration => sum_dur(n.values@),
        DataChoices::Value => sum_value(n.values@),
    }
}

/// Total of one metric over a list of nodes' samples.
pub open spec fn children_sum(cs: Seq<MasterNode>, m: DataChoices) -> int
    decreases cs.len(),
{
    if cs.len() == 0 { 0 } else { children_sum(cs.drop_last(), m) + node_sum(cs.last(), m) }
}

/// A node whose samples fit and whose children hold, together, no more of
/// either metric than it does; recursively.
pub open spec fn node_wf(n: MasterNode) -> bool
    decreases n,
{
    &&& samples_fit(n.values@)
    &&& children_sum(n.children@, DataChoices::Duration) <= sum_dur(n.values@)
    &&& children_sum(n.children@, DataChoices::Value) <= sum_value(n.values@)
    &&& forall|i: int| 0 <= i < n.children@.len() ==> node_wf(#[trigger] n.children@[i])
}

pub open spec fn tree_wf(t: MasterTree) -> bool {
    node_wf(t.root)
}

/// Position of the first node called `name` in `cs`; `cs.len()` when none is.
pub open spec fn child_index(cs: Seq<MasterNode>, name: Seq<char>) -> int
    decreases cs.len(),
{
    if cs.len() == 0 {
        0
    } else {
        let p = child_index(cs.drop_last(), name);
        if p < cs.len() - 1 {
            p
        } else if cs.last().name@ == name {
            cs.len() - 1
        } else {
            cs.len() as int
        }
    }
}

/// The raw sample a trace record contributes.
pub open spec fn sample_of(t: Trace) -> TraceValues {
    TraceValues { start: t.start, dur: t.dur, value: t.value, thread: t.tid }
}

/// The frames a trace record passes through, outermost first, ending with
/// its own name.
pub open spec fn path_of(t: Trace) -> Seq<Seq<char>> {
    Seq::new(t.stack@.len(), |i: int| t.stack@[t.stack@.len() - 1 - i].name@).push(t.name@)
}

/// `new` is `old` (or, when `old` is `None`, a new node called `name`
/// coloured by `scheme` and `salt`) with the sample `s` recorded on it and,
/// along `path`, on one child per level: the first child of the frame's name,
/// or a new last child when there is none.
pub open spec fn added_at(
    old: Option<MasterNode>,
    new: MasterNode,
    name: Seq<char>,
    path: Seq<Seq<char>>,
    s: TraceValues,
    scheme: ColorScheme,
    salt: u32,
) -> bool
    decreases path.len(),
{
    let oname = match old { Some(o) => o.name@, None => name };
    let ovalues = match old { Some(o) => o.values@, None => Seq::<TraceValues>::empty() };
    let ochildren = match old { Some(o) => o.children@, None => Seq::<MasterNode>::empty() };
    let ocolor = match old { Some(o) => o.color, None => Some(scheme_color(name, scheme, salt)) };
    &&& new.name@ == oname
    &&& new.values@ == ovalues.push(s)
    &&& new.color == ocolor
    &&& if path.len() == 0 {
        new.children@ == ochildren
    } else {
        let j = child_index(ochildren, path[0]);
        if j < ochildren.len() {
            &&& new.children@.len() == ochildren.len()
            &&& forall|k: int| 0 <= k < ochildren.len() && k != j ==> #[trigger] new.children@[k] == ochildren[k]
            &&& added_at(Some(ochildren[j]), new.children@[j], path[0], path.drop_first(), s, scheme, salt)
        } else {
            &&& new.children@.len() == ochildren.len() + 1
            &&& forall|k: int| 0 <= k < ochildren.len() ==> #[trigger] new.children@[k] == ochildren[k]
            &&& added_at(None, new.children@[j], path[0], path.drop_first(), s, scheme, salt)
        }
    }
}

proof fn lemma_sums_push(ss: Seq<TraceValues>, s: TraceValues)
    ensures
        sum_dur(ss.push(s)) == sum_dur(ss) + s.dur,
        sum_value(ss.push(s)) == sum_value(ss) + s.value,
{
    assert(ss.push(s).drop_last() =~= ss);
}

proof fn lemma_children_sum_nonneg(cs: Seq<MasterNode>, m: DataChoices)
    ensures
        children_sum(cs, m) >= 0,
    decreases cs.len(),
{
    if cs.len() > 0 {
        lemma_children_sum_nonneg(cs.drop_last(), m);
        lemma_sums_nonneg(cs.last().values@);
    }
}

proof fn lemma_child_le_children_sum(cs: Seq<MasterNode>, j: int, m: DataChoices)
    requires
        0 <= j < cs.len(),
    ensures
        node_sum(cs[j], m) <= children_sum(cs, m),
    decreases cs.len(),
{
    lemma_children_sum_nonneg(cs.drop_last(), m);
    lemma_sums_nonneg(cs.last().values@);
    if j < cs.len() - 1 {
        lemma_child_le_children_sum(cs.drop_last(), j, m);
    }
}

pub proof fn lemma_children_sum_prefix(cs: Seq<MasterNode>, k: int)
    requires
        0 <= k <= cs.len(),
    ensures
        children_sum(cs.subrange(0, k), DataChoices::Duration) <= children_sum(cs, DataChoices::Duration),
        children_sum(cs.subrange(0, k), DataChoices::Value) <= children_sum(cs, DataChoices::Value),
    decreases cs.len() - k,
{
    if k < cs.len() {
        lemma_children_sum_prefix(cs, k + 1);
        assert(cs.subrange(0, k + 1).drop_last() =~= cs.subrange(0, k));
        lemma_sums_nonneg(cs[k].values@);
    } else {
        assert(cs.subrange(0, k) =~= cs);
    }
}

proof fn lemma_children_sum_update(cs: Seq<MasterNode>, j: int, x: MasterNode, m: DataChoices)
    requires
        0 <= j < cs.len(),
    ensures
        children_sum(cs.update(j, x), m) == children_sum(cs, m) - node_sum(cs[j], m) + node_sum(x, m),
    decreases cs.len(),
{
    if j < cs.len() - 1 {
        assert(cs.update(j, x).drop_last() =~= cs.drop_last().update(j, x));
        lemma_children_sum_update(cs.drop_last(), j, x, m);
    } else {
        assert(cs.update(j, x).drop_last() =~= cs.drop_last());
    }
}

proof fn lemma_children_sum_push(cs: Seq<MasterNode>, x: MasterNode, m: DataChoices)
    ensures
        children_sum(cs.push(x), m) == children_sum(cs, m) + node_sum(x, m),
{
    assert(cs.push(x).drop_last() =~= cs);
}

proof fn lemma_child_index_found(cs: Seq<MasterNode>, name: Seq<char>)
    ensures
        0 <= child_index(cs, name) <= cs.len(),
        child_index(cs, name) < cs.len() ==> cs[child_index(cs, name)].name@ == name,
    decreases cs.len(),
{
    if cs.len() > 0 {
        lemma_child_index_found(cs.drop_last(), name);
    }
}

/// Position of the first child of `node` called `name`, or the number of
/// children when there is none.
fn find_child(node: &MasterNode, name: &String) -> (r: usize)
    ensures
        r == child_index(node.children@, name@),
        r <= node.children@.len(),
{
    let mut p: usize = 0;
    let mut q: usize = 0;
    while q < node.children.len()
        invariant
            q <= node.children@.len(),
            p <= q,
            p == child_index(node.children@.subrange(0, q as int), name@),
        decreases node.children@.len() - q,
    {
        proof {
            assert(node.children@.subrange(0, q + 1).drop_last() =~= node.children@.subrange(0, q as int));
        }
        if p == q && node.children[q].name != *name {
            p = q + 1;
        }
        q = q + 1;
    }
    proof {
        assert(node.children@.subrange(0, q as int) =~= node.children@);
    }
    p
}

/// The frame name at step `idx` of the trace's path.
fn path_name(trace: &Trace, idx: usize) -> (r: &String)
    requires
        idx < path_of(*trace).len(),
    ensures
        r@ == path_of(*trace)[idx as int],
{
    let n = trace.stack.len();
    if idx < n {
        &trace.stack[n - 1 - idx].name
    } else {
        &trace.name
    }
}

/// Records `s` on `node` and, from step `idx` of the trace's path on, on
/// the child of each step's frame, creating the child where it is missing.
fn add_path(node: &mut MasterNode, trace: &Trace, idx: usize, s: TraceValues, scheme: ColorScheme, salt: u32)
    requires
        node_wf(*old(node)),
        idx <= path_of(*trace).len(),
        trace.stack@.len() < usize::MAX,
        sum_dur(old(node).values@) + s.dur <= u64::MAX,
        sum_value(old(node).values@) + s.value <= u64::MAX,
        s.start + s.dur <= u64::MAX,
    ensures
        added_at(
            Some(*old(node)),
            *final(node),
            old(node).name@,
            path_of(*trace).subrange(idx as int, path_of(*trace).len() as int),
            s,
            scheme,
            salt,
        ),
        node_wf(*final(node)),
        node_sum(*final(node), DataChoices::Duration) == node_sum(*old(node), DataChoices::Duration) + s.dur,
        node_sum(*final(node), DataChoices::Value) == node_sum(*old(node), DataChoices::Value) + s.value,
    decreases path_of(*trace).len() - idx,
{
    let ghost old_node = *node;
    let ghost path = path_of(*trace);
    let ghost rest = path.subrange(idx as int, path.len() as int);
    proof {
        lemma_sums_push(node.values@, s);
    }
    node.values.push(s);
    if idx <= trace.stack.len() {
        let name = path_name(trace, idx);
        let j = find_child(node, name);
        proof {
            assert(rest.drop_first() =~= path.subrange(idx + 1, path.len() as int));
            assert(rest[0] == path[idx as int]);
        }
        if j == node.children.len() {
            let color = color_from_scheme(name, scheme, salt);
            let fresh = MasterNode { name: name.clone(), values: Vec::new(), children: Vec::new(), color: Some(color) };
            proof {
                lemma_sums_nonneg(old_node.values@);
                assert(fresh.values@ =~= Seq::<TraceValues>::empty());
                assert(fresh.children@ =~= Seq::<MasterNode>::empty());
                assert(node_wf(fresh));
                lemma_children_sum_push(node.children@, fresh, DataChoices::Duration);
                lemma_children_sum_push(node.children@, fresh, DataChoices::Value);
            }
            node.children.push(fresh);
        }
        let ghost mid = *node;
        proof {
            lemma_child_le_children_sum(mid.children@, j as int, DataChoices::Duration);
            lemma_child_le_children_sum(mid.children@, j as int, DataChoices::Value);
        }
        add_path(&mut node.children[j], trace, idx + 1, s, scheme, salt);
        proof {
            lemma_children_sum_update(mid.children@, j as int, node.children@[j as int], DataChoices::Duration);
            lemma_children_sum_update(mid.children@, j as int, node.children@[j as int], DataChoices::Value);
            assert forall|i: int| 0 <= i < node.children@.len() implies node_wf(#[trigger] node.children@[i]) by {
                if i != j {
                    assert(node.children@[i] == mid.children@[i]);
                }
            }
            let newc = node.children@[j as int];
            if j < old_node.children@.len() {
                lemma_child_index_found(old_node.children@, rest[0]);
            } else {
                assert(added_at(Some(mid.children@[j as int]), newc, rest[0], rest.drop_first(), s, scheme, salt)
                    == added_at(None, newc, rest[0], rest.drop_first(), s, scheme, salt));
            }
        }
    } else {
        proof {
            assert(rest.len() == 0);
        }
    }
}

impl MasterNode {
    /// Aggregates this node's samples over `num_graphs` equal buckets of
    /// `range`; `None` when `num_graphs` is 0 or no bucket gets any duration.
    pub fn time_overlaps(&self, num_graphs: usize, range: Range<u64>) -> (r: Option<Vec<TraceValues>>)
        requires
            ends_fit(self.values@),
            range.start <= range.end,
            forall|i: int| 0 <= i < num_graphs ==> #[trigger] bucket_fits(
                self.values@,
                range.start,
                range.end,
                num_graphs as nat,
                i,
            ),
        ensures
            match r {
                None => time_overlaps_spec(self.values@, range.start, range.end, num_graphs as nat) is None,
                Some(v) => time_overlaps_spec(self.values@, range.start, range.end, num_graphs as nat) == Some(v@),
            },
    {
        time_overlaps_of(&self.values, num_graphs, range.start, range.end)
    }

    /// Aggregates this node's samples per thread id `0..num_threads`.
    pub fn tread_overlaps(&self, num_threads: usize) -> (r: Option<Vec<TraceValues>>)
        requires
            forall|t: int| 0 <= t < num_threads ==> #[trigger] thread_fits(self.values@, t),
        ensures
            r matches Some(v) && v@ == Seq::new(num_threads as nat, |t: int| thread_bucket(self.values@, t)),
    {
        Some(thread_overlaps_of(&self.values, num_threads))
    }

    /// Aggregates this node's samples of one thread, as a one-element list.
    pub fn single_tread_overlap(&self, thread_to_match: usize) -> (r: Option<Vec<TraceValues>>)
        requires
            thread_fits(self.values@, thread_to_match as int),
        ensures
            r matches Some(v) && v@ == seq![thread_bucket(self.values@, thread_to_match as int)],
    {
        let a = single_thread_of(&self.values, thread_to_match);
        let v: Vec<TraceValues> = vec![a];
        Some(v)
    }
}

/// `new` has `old`'s names, samples and shape; every node called `name`
/// has the colour `c`, the others keep theirs.
pub open spec fn recolored(old: MasterNode, new: MasterNode, name: Seq<char>, c: Color) -> bool
    decreases old,
{
    &&& new.name == old.name
    &&& new.values@ == old.values@
    &&& new.color == if old.name@ == name { Some(c) } else { old.color }
    &&& new.children@.len() == old.children@.len()
    &&& forall|i: int| 0 <= i < old.children@.len() ==> recolored(#[trigger] old.children@[i], new.children@[i], name, c)
}

/// `new` is the tree `old` with every node called `name`, the root
/// included, coloured `c`, and nothing else changed.
pub open spec fn tree_recolored(old: MasterTree, new: MasterTree, name: Seq<char>, c: Color) -> bool {
    &&& new.color_scheme == old.color_scheme
    &&& new.color_salt == old.color_salt
    &&& recolored(old.root, new.root, name, c)
}

/// `new` has `old`'s names, samples and shape, and every node the colour
/// `scheme` gives its name under `salt`.
pub open spec fn reschemed(old: MasterNode, new: MasterNode, scheme: ColorScheme, salt: u32) -> bool
    decreases old,
{
    &&& new.name == old.name
    &&& new.values@ == old.values@
    &&& new.color == Some(scheme_color(old.name@, scheme, salt))
    &&& new.children@.len() == old.children@.len()
    &&& forall|i: int| 0 <= i < old.children@.len() ==> reschemed(#[trigger] old.children@[i], new.children@[i], scheme, salt)
}

/// `new` is the tree `old` with every node, the root included, recoloured
/// by the tree's scheme and salt, and nothing else changed.
pub open spec fn tree_reschemed(old: MasterTree, new: MasterTree) -> bool {
    &&& new.color_scheme == old.color_scheme
    &&& new.color_salt == old.color_salt
    &&& reschemed(old.root, new.root, old.color_scheme, old.color_salt)
}

/// `new` has `old`'s samples and shape.
pub open spec fn same_samples(old: MasterNode, new: MasterNode) -> bool
    decreases old,
{
    &&& new.values@ == old.values@
    &&& new.children@.len() == old.children@.len()
    &&& forall|i: int| 0 <= i < old.children@.len() ==> same_samples(#[trigger] old.children@[i], new.children@[i])
}

/// The node reached from `n` by taking, at each level, the child whose
/// position `path` gives.
pub open spec fn node_at(n: MasterNode, path: Seq<int>) -> Option<MasterNode>
    decreases path.len(),
{
    if path.len() == 0 {
        Some(n)
    } else if 0 <= path[0] < n.children@.len() {
        node_at(n.children@[path[0]], path.drop_first())
    } else {
        None
    }
}

proof fn lemma_children_sum_same(a: Seq<MasterNode>, b: Seq<MasterNode>, m: DataChoices)
    requires
        a.len() == b.len(),
        forall|i: int| 0 <= i < a.len() ==> (#[trigger] b[i]).values@ == a[i].values@,
    ensures
        children_sum(a, m) == children_sum(b, m),
    decreases a.len(),
{
    if a.len() > 0 {
        lemma_children_sum_same(a.drop_last(), b.drop_last(), m);
        assert(b.last().values@ == a.last().values@);
    }
}

proof fn lemma_same_samples_wf(old: MasterNode, new: MasterNode)
    requires
        same_samples(old, new),
        node_wf(old),
    ensures
        node_wf(new),
    decreases old,
{
    assert forall|i: int| 0 <= i < old.children@.len() implies (#[trigger] new.children@[i]).values@ == old.children@[i].values@ by {
        assert(same_samples(old.children@[i], new.children@[i]));
    }
    lemma_children_sum_same(old.children@, new.children@, DataChoices::Duration);
    lemma_children_sum_same(old.children@, new.children@, DataChoices::Value);
    assert forall|i: int| 0 <= i < new.children@.len() implies node_wf(#[trigger] new.children@[i]) by {
        assert(same_samples(old.children@[i], new.children@[i]));
        lemma_same_samples_wf(old.children@[i], new.children@[i]);
    }
}

proof fn lemma_recolored_same(old: MasterNode, new: MasterNode, name: Seq<char>, c: Color)
    requires
        recolored(old, new, name, c),
    ensures
        same_samples(old, new),
    decreases old,
{
    assert forall|i: int| 0 <= i < old.children@.len() implies same_samples(#[trigger] old.children@[i], new.children@[i]) by {
        lemma_recolored_same(old.children@[i], new.children@[i], name, c);
    }
}

proof fn lemma_reschemed_same(old: MasterNode, new: MasterNode, scheme: ColorScheme, salt: u32)
    requires
        reschemed(old, new, scheme, salt),
    ensures
        same_samples(old, new),
    decreases old,
{
    assert forall|i: int| 0 <= i < old.children@.len() implies same_samples(#[trigger] old.children@[i], new.children@[i]) by {
        lemma_reschemed_same(old.children@[i], new.children@[i], scheme, salt);
    }
}

/// Gives every node of the subtree called `trace` the colour `color`.
fn modify_color(node: &mut MasterNode, trace: &String, color: Color)
    ensures
        recolored(*old(node), *final(node), trace@, color),
    decreases *old(node),
{
    if node.name == *trace {
        node.color = Some(color);
    }
    let ghost start = *node;
    let mut i: usize = 0;
    while i < node.children.len()
        invariant
            i <= node.children@.len(),
            node.children@.len() == old(node).children@.len(),
            node.name == old(node).name,
            node.values@ == old(node).values@,
            node.color == if old(node).name@ == trace@ { Some(color) } else { old(node).color },
            forall|k: int| 0 <= k < i ==> recolored(#[trigger] old(node).children@[k], node.children@[k], trace@, color),
            forall|k: int| i <= k < node.children@.len() ==> #[trigger] node.children@[k] == old(node).children@[k],
        decreases node.children@.len() - i,
    {
        proof {
            assert(decreases_to!(*old(node) => old(node).children@[i as int]));
        }
        modify_color(&mut node.children[i], trace, color);
        i = i + 1;
    }
}

/// Colours every node of the subtree from its name under `scheme` and `salt`.
fn new_color_scheme_nodes(node: &mut MasterNode, scheme: ColorScheme, salt: u32)
    ensures
        reschemed(*old(node), *final(node), scheme, salt),
    decreases *old(node),
{
    node.color = Some(color_from_scheme(&node.name, scheme, salt));
    let mut i: usize = 0;
    while i < node.children.len()
        invariant
            i <= node.children@.len(),
            node.children@.len() == old(node).children@.len(),
            node.name == old(node).name,
            node.values@ == old(node).values@,
            node.color == Some(scheme_color(old(node).name@, scheme, salt)),
            forall|k: int| 0 <= k < i ==> reschemed(#[trigger] old(node).children@[k], node.children@[k], scheme, salt),
            forall|k: int| i <= k < node.children@.len() ==> #[trigger] node.children@[k] == old(node).children@[k],
        decreases node.children@.len() - i,
    {
        proof {
            assert(decreases_to!(*old(node) => old(node).children@[i as int]));
        }
        new_color_scheme_nodes(&mut node.children[i], scheme, salt);
        i = i + 1;
    }
}

/// A node called "root" with nothing recorded and no colour.
pub open spec fn is_empty_root(n: MasterNode) -> bool {
    &&& n.name@ == "root"@
    &&& n.values@.len() == 0
    &&& n.children@.len() == 0
    &&& n.color is None
}

fn master_root() -> (r: MasterNode)
    ensures
        is_empty_root(r),
        node_wf(r),
{
    let r = MasterNode { name: "root".to_owned(), values: Vec::new(), children: Vec::new(), color: None };
    proof {
        assert(r.values@ =~= Seq::<TraceValues>::empty());
        lemma_sums_nonneg(r.values@);
    }
    r
}

/// Total duration of a list of trace records.
pub open spec fn traces_dur(ts: Seq<Trace>) -> int
    decreases ts.len(),
{
    if ts.len() == 0 { 0 } else { traces_dur(ts.drop_last()) + ts.last().dur }
}

/// Total value of a list of trace records.
pub open spec fn traces_value(ts: Seq<Trace>) -> int
    decreases ts.len(),
{
    if ts.len() == 0 { 0 } else { traces_value(ts.drop_last()) + ts.last().value }
}

/// Trace records that a call tree can hold without any total overflowing.
pub open spec fn traces_fit(ts: Seq<Trace>) -> bool {
    &&& forall|i: int| 0 <= i < ts.len() ==> #[trigger] ts[i].start + ts[i].dur <= u64::MAX
    &&& forall|i: int| 0 <= i < ts.len() ==> #[trigger] ts[i].stack@.len() < usize::MAX
    &&& traces_dur(ts) <= u64::MAX
    &&& traces_value(ts) <= u64::MAX
}

/// `steps` are the roots of the tree before each record of `ts` is added,
/// starting from an empty root, and after the last.
pub open spec fn grown_from(ts: Seq<Trace>, steps: Seq<MasterNode>, scheme: ColorScheme, salt: u32) -> bool {
    &&& steps.len() == ts.len() + 1
    &&& is_empty_root(steps[0])
    &&& forall|i: int| 0 <= i < ts.len() ==> added_at(
        Some(#[trigger] steps[i]),
        steps[i + 1],
        steps[i].name@,
        path_of(ts[i]),
        sample_of(ts[i]),
        scheme,
        salt,
    )
}

proof fn lemma_traces_prefix(ts: Seq<Trace>, k: int)
    requires
        0 <= k <= ts.len(),
    ensures
        traces_dur(ts.subrange(0, k)) <= traces_dur(ts),
        traces_value(ts.subrange(0, k)) <= traces_value(ts),
        traces_dur(ts.subrange(0, k)) >= 0,
        traces_value(ts.subrange(0, k)) >= 0,
    decreases ts.len() - k,
{
    if k < ts.len() {
        lemma_traces_prefix(ts, k + 1);
        assert(ts.subrange(0, k + 1).drop_last() =~= ts.subrange(0, k));
        lemma_traces_nonneg(ts.subrange(0, k));
    } else {
        assert(ts.subrange(0, k) =~= ts);
        lemma_traces_nonneg(ts);
    }
}

proof fn lemma_traces_nonneg(ts: Seq<Trace>)
    ensures
        traces_dur(ts) >= 0,
        traces_value(ts) >= 0,
    decreases ts.len(),
{
    if ts.len() > 0 {
        lemma_traces_nonneg(ts.drop_last());
    }
}

impl MasterTree {
    /// Records the trace's sample on the root and on each node along its
    /// frames, outermost first, then on its own leaf node, creating nodes
    /// (coloured by the tree's scheme and salt) where they are missing.
    pub fn add_trace(&mut self, trace: &Trace)
        requires
            tree_wf(*old(self)),
            trace.start + trace.dur <= u64::MAX,
            trace.stack@.len() < usize::MAX,
            sum_dur(old(self).root.values@) + trace.dur <= u64::MAX,
            sum_value(old(self).root.values@) + trace.value <= u64::MAX,
        ensures
            added_at(
                Some(old(self).root),
                final(self).root,
                old(self).root.name@,
                path_of(*trace),
                sample_of(*trace),
                old(self).color_scheme,
                old(self).color_salt,
            ),
            final(self).color_scheme == old(self).color_scheme,
            final(self).color_salt == old(self).color_salt,
            tree_wf(*final(self)),
            tree_nested(*old(self)) ==> tree_nested(*final(self)),
            sum_dur(final(self).root.values@) == sum_dur(old(self).root.values@) + trace.dur,
            sum_value(final(self).root.values@) == sum_value(old(self).root.values@) + trace.value,
    {
        let s = TraceValues { start: trace.start, dur: trace.dur, value: trace.value, thread: trace.tid };
        let scheme = self.color_scheme;
        let salt = self.color_salt;
        let ghost before = self.root;
        add_path(&mut self.root, trace, 0, s, scheme, salt);
        proof {
            assert(path_of(*trace).subrange(0, path_of(*trace).len() as int) =~= path_of(*trace));
            if node_nested(before) {
                lemma_added_nested(Some(before), self.root, before.name@, path_of(*trace), s, scheme, salt);
            }
        }
    }

    /// Gives every node called `trace`, wherever it stands, the colour
    /// `color`.
    pub fn modify_color(&mut self, trace: String, color: Color)
        ensures
            tree_recolored(*old(self), *final(self), trace@, color),
            tree_wf(*old(self)) ==> tree_wf(*final(self)),
            tree_nested(*old(self)) ==> tree_nested(*final(self)),
    {
        let ghost before = self.root;
        modify_color(&mut self.root, &trace, color);
        proof {
            lemma_recolored_same(before, self.root, trace@, color);
            if node_wf(before) {
                lemma_same_samples_wf(before, self.root);
            }
            if node_nested(before) {
                lemma_same_samples_nested(before, self.root);
            }
        }
    }

    /// Recolours every node, the root included, from its name under the
    /// tree's scheme and salt.
    pub fn new_color_scheme(&mut self)
        ensures
            tree_reschemed(*old(self), *final(self)),
            tree_wf(*old(self)) ==> tree_wf(*final(self)),
            tree_nested(*old(self)) ==> tree_nested(*final(self)),
    {
        let ghost before = self.root;
        let scheme = self.color_scheme;
        let salt = self.color_salt;
        new_color_scheme_nodes(&mut self.root, scheme, salt);
        proof {
            lemma_reschemed_same(before, self.root, scheme, salt);
            if node_wf(before) {
                lemma_same_samples_wf(before, self.root);
            }
            if node_nested(before) {
                lemma_same_samples_nested(before, self.root);
            }
        }
    }
}

/// Folds `traces`, in order, into a new call tree coloured with the Rainbow
/// scheme and salt 1.
pub fn grow_master_tree(traces: &Vec<Trace>) -> (r: MasterTree)
    requires
        traces_fit(traces@),
    ensures
        tree_wf(r),
        tree_nested(r),
        r.color_scheme == ColorScheme::Rainbow,
        r.color_salt == 1,
        exists|steps: Seq<MasterNode>| grown_from(traces@, steps, ColorScheme::Rainbow, 1) && steps.last() == r.root,
{
    let mut tree = MasterTree { root: master_root(), color_scheme: ColorScheme::Rainbow, color_salt: 1 };
    let ghost mut steps: Seq<MasterNode> = seq![tree.root];
    proof {
        lemma_sums_nonneg(tree.root.values@);
        lemma_probe_empty();
        assert(tree.root.values@ =~= Seq::<TraceValues>::empty());
        assert(tree.root.children@ =~= Seq::<MasterNode>::empty());
    }
    let mut i: usize = 0;
    while i < traces.len()
        invariant
            i <= traces@.len(),
            traces_fit(traces@),
            tree_wf(tree),
            tree_nested(tree),
            tree.color_scheme == ColorScheme::Rainbow,
            tree.color_salt == 1,
            sum_dur(tree.root.values@) == traces_dur(traces@.subrange(0, i as int)),
            sum_value(tree.root.values@) == traces_value(traces@.subrange(0, i as int)),
            grown_from(traces@.subrange(0, i as int), steps, ColorScheme::Rainbow, 1),
            steps.last() == tree.root,
        decreases traces@.len() - i,
    {
        proof {
            lemma_traces_prefix(traces@, i + 1);
            assert(traces@.subrange(0, i + 1).drop_last() =~= traces@.subrange(0, i as int));
            assert(traces@[i as int].start + traces@[i as int].dur <= u64::MAX);
            assert(traces@[i as int].stack@.len() < usize::MAX);
        }
        let ghost prev = tree.root;
        tree.add_trace(&traces[i]);
        proof {
            let ts = traces@.subrange(0, i + 1);
            let nsteps = steps.push(tree.root);
            assert forall|k: int| 0 <= k < ts.len() implies added_at(
                Some(#[trigger] nsteps[k]),
                nsteps[k + 1],
                nsteps[k].name@,
                path_of(ts[k]),
                sample_of(ts[k]),
                ColorScheme::Rainbow,
                1,
            ) by {
                if k < i {
                    assert(ts[k] == traces@.subrange(0, i as int)[k]);
                    assert(nsteps[k] == steps[k]);
                    assert(nsteps[k + 1] == steps[k + 1]);
                } else {
                    assert(ts[k] == traces@[i as int]);
                    assert(nsteps[k] == prev);
                }
            }
            steps = nsteps;
        }
        i = i + 1;
    }
    proof {
        assert(traces@.subrange(0, i as int) =~= traces@);
    }
    tree
}

proof fn lemma_recolored_node(old: MasterNode, new: MasterNode, name: Seq<char>, c: Color, path: Seq<int>)
    requires
        recolored(old, new, name, c),
        node_at(new, path) is Some,
        node_at(new, path)->0.name@ == name,
    ensures
        node_at(new, path)->0.color == Some(c),
    decreases path.len(),
{
    if path.len() > 0 {
        let i = path[0];
        assert(recolored(old.children@[i], new.children@[i], name, c));
        lemma_recolored_node(old.children@[i], new.children@[i], name, c, path.drop_first());
    }
}

/// After a recolouring by `name`, every node called `name`, the root
/// included, carries the new colour, wherever it stands.
pub proof fn lemma_modify_color_reaches_every_match(old: MasterTree, new: MasterTree, name: Seq<char>, c: Color, path: Seq<int>)
    requires
        tree_recolored(old, new, name, c),
        node_at(new.root, path) is Some,
        node_at(new.root, path)->0.name@ == name,
    ensures
        node_at(new.root, path)->0.color == Some(c),
{
    lemma_recolored_node(old.root, new.root, name, c, path);
}

/// Adding a sample keeps the name and colour of every node that was
/// there, and gives every node it creates the colour the scheme gives its
/// name.
pub proof fn lemma_added_colors(
    old: Option<MasterNode>,
    new: MasterNode,
    name: Seq<char>,
    path: Seq<Seq<char>>,
    s: TraceValues,
    scheme: ColorScheme,
    salt: u32,
    p: Seq<int>,
)
    requires
        added_at(old, new, name, path, s, scheme, salt),
        node_at(new, p) is Some,
    ensures
        (old matches Some(o) && node_at(o, p) is Some) ==> node_at(new, p)->0.color == node_at(old->0, p)->0.color
            && node_at(new, p)->0.name@ == node_at(old->0, p)->0.name@,
        !(old matches Some(o) && node_at(o, p) is Some) ==> node_at(new, p)->0.color == Some(
            scheme_color(node_at(new, p)->0.name@, scheme, salt),
        ),
    decreases path.len(),
{
    if p.len() > 0 {
        let k = p[0];
        let rest = p.drop_first();
        let ochildren = match old {
            Some(o) => o.children@,
            None => Seq::<MasterNode>::empty(),
        };
        assert(node_at(new, p) == node_at(new.children@[k], rest));
        if path.len() == 0 {
            assert(new.children@ == ochildren);
            assert(old is Some);
            assert(node_at(old->0, p) == node_at(ochildren[k], rest));
        } else {
            let j = child_index(ochildren, path[0]);
            lemma_child_index_found(ochildren, path[0]);
            if k == j {
                if j < ochildren.len() {
                    lemma_added_colors(Some(ochildren[j]), new.children@[j], path[0], path.drop_first(), s, scheme, salt, rest);
                    assert(node_at(old->0, p) == node_at(ochildren[j], rest));
                } else {
                    lemma_added_colors(None, new.children@[j], path[0], path.drop_first(), s, scheme, salt, rest);
                }
            } else {
                assert(k < ochildren.len());
                match old {
                    Some(o) => {
                        assert(ochildren == o.children@);
                        assert(new.children@[k] == o.children@[k]);
                    },
                    None => {},
                }
                assert(node_at(old->0, p) == node_at(ochildren[k], rest));
            }
        }
    }
}

/// After a recolouring by `name`, adding a trace keeps the new colour on
/// every node called `name` that was there, and gives each node the trace
/// creates the colour of the tree's scheme.
pub proof fn lemma_recolor_then_grow(
    t0: MasterTree,
    t1: MasterTree,
    root2: MasterNode,
    name: Seq<char>,
    c: Color,
    trace: Trace,
    p: Seq<int>,
)
    requires
        tree_recolored(t0, t1, name, c),
        added_at(Some(t1.root), root2, t1.root.name@, path_of(trace), sample_of(trace), t1.color_scheme, t1.color_salt),
        node_at(root2, p) is Some,
    ensures
        node_at(t1.root, p) is Some && node_at(t1.root, p)->0.name@ == name ==> node_at(root2, p)->0.color == Some(c),
        node_at(t1.root, p) is None ==> node_at(root2, p)->0.color == Some(
            scheme_color(node_at(root2, p)->0.name@, t1.color_scheme, t1.color_salt),
        ),
{
    lemma_added_colors(
        Some(t1.root),
        root2,
        t1.root.name@,
        path_of(trace),
        sample_of(trace),
        t1.color_scheme,
        t1.color_salt,
        p,
    );
    if node_at(t1.root, p) is Some && node_at(t1.root, p)->0.name@ == name {
        lemma_recolored_node(t0.root, t1.root, name, c, p);
    }
}

/// One metric of `ss` inside `[lo, hi)`.
pub open spec fn in_range(ss: Seq<TraceValues>, lo: int, hi: int, m: DataChoices) -> int {
    match m {
        DataChoices::Duration => bucket_dur(ss, lo, hi),
        DataChoices::Value => bucket_value(ss, lo, hi),
    }
}

/// One metric of the samples of `ss` on thread `t`.
pub open spec fn on_thread(ss: Seq<TraceValues>, t: int, m: DataChoices) -> int {
    match m {
        DataChoices::Duration => thread_dur(ss, t),
        DataChoices::Value => thread_value(ss, t),
    }
}

/// One metric of the sample `s` inside `[lo, hi)`.
pub open spec fn sample_in_range(s: TraceValues, lo: int, hi: int, m: DataChoices) -> int {
    match m {
        DataChoices::Duration => sample_dur_in(s, lo, hi),
        DataChoices::Value => sample_value_in(s, lo, hi),
    }
}

/// One metric of the sample `s` on thread `t`.
pub open spec fn sample_on_thread(s: TraceValues, t: int, m: DataChoices) -> int {
    if s.thread == t {
        match m {
            DataChoices::Duration => s.dur as int,
            DataChoices::Value => s.value as int,
        }
    } else {
        0
    }
}

/// One metric inside `[lo, hi)`, summed over a list of nodes.
pub open spec fn children_in_range(cs: Seq<MasterNode>, lo: int, hi: int, m: DataChoices) -> int
    decreases cs.len(),
{
    if cs.len() == 0 { 0 } else { children_in_range(cs.drop_last(), lo, hi, m) + in_range(cs.last().values@, lo, hi, m) }
}

/// One metric on thread `t`, summed over a list of nodes.
pub open spec fn children_on_thread(cs: Seq<MasterNode>, t: int, m: DataChoices) -> int
    decreases cs.len(),
{
    if cs.len() == 0 { 0 } else { children_on_thread(cs.drop_last(), t, m) + on_thread(cs.last().values@, t, m) }
}

/// A node whose children hold, together, no more of either metric than it
/// does, inside any time range and on any thread; recursively. Trees grown
/// by adding traces are nested: each sample of a child is a sample of its
/// parent.
pub open spec fn node_nested(n: MasterNode) -> bool
    decreases n,
{
    &&& forall|lo: int, hi: int, m: DataChoices| #[trigger] children_in_range(n.children@, lo, hi, m) <= in_range(
        n.values@,
        lo,
        hi,
        m,
    )
    &&& forall|t: int, m: DataChoices| #[trigger] children_on_thread(n.children@, t, m) <= on_thread(n.values@, t, m)
    &&& forall|i: int| 0 <= i < n.children@.len() ==> node_nested(#[trigger] n.children@[i])
}

pub open spec fn tree_nested(t: MasterTree) -> bool {
    node_nested(t.root)
}

proof fn lemma_probe_push(ss: Seq<TraceValues>, s: TraceValues)
    ensures
        forall|lo: int, hi: int, m: DataChoices| #[trigger] in_range(ss.push(s), lo, hi, m) == in_range(ss, lo, hi, m)
            + sample_in_range(s, lo, hi, m),
        forall|t: int, m: DataChoices| #[trigger] on_thread(ss.push(s), t, m) == on_thread(ss, t, m) + sample_on_thread(
            s,
            t,
            m,
        ),
        forall|lo: int, hi: int, m: DataChoices| #[trigger] sample_in_range(s, lo, hi, m) >= 0,
        forall|t: int, m: DataChoices| #[trigger] sample_on_thread(s, t, m) >= 0,
{
    assert(ss.push(s).drop_last() =~= ss);
    assert forall|lo: int, hi: int, m: DataChoices| #[trigger] sample_in_range(s, lo, hi, m) >= 0 by {
        lemma_sample_in_bounded(s, lo, hi);
    }
}

proof fn lemma_probe_empty()
    ensures
        forall|lo: int, hi: int, m: DataChoices| #[trigger] in_range(Seq::<TraceValues>::empty(), lo, hi, m) == 0,
        forall|t: int, m: DataChoices| #[trigger] on_thread(Seq::<TraceValues>::empty(), t, m) == 0,
{
}

proof fn lemma_children_probe_update(cs: Seq<MasterNode>, j: int, x: MasterNode, lo: int, hi: int, t: int, m: DataChoices)
    requires
        0 <= j < cs.len(),
    ensures
        children_in_range(cs.update(j, x), lo, hi, m) == children_in_range(cs, lo, hi, m) - in_range(cs[j].values@, lo, hi, m)
            + in_range(x.values@, lo, hi, m),
        children_on_thread(cs.update(j, x), t, m) == children_on_thread(cs, t, m) - on_thread(cs[j].values@, t, m)
            + on_thread(x.values@, t, m),
    decreases cs.len(),
{
    if j < cs.len() - 1 {
        assert(cs.update(j, x).drop_last() =~= cs.drop_last().update(j, x));
        lemma_children_probe_update(cs.drop_last(), j, x, lo, hi, t, m);
    } else {
        assert(cs.update(j, x).drop_last() =~= cs.drop_last());
    }
}

proof fn lemma_children_probe_push(cs: Seq<MasterNode>, x: MasterNode)
    ensures
        forall|lo: int, hi: int, m: DataChoices| #[trigger] children_in_range(cs.push(x), lo, hi, m) == children_in_range(
            cs,
            lo,
            hi,
            m,
        ) + in_range(x.values@, lo, hi, m),
        forall|t: int, m: DataChoices| #[trigger] children_on_thread(cs.push(x), t, m) == children_on_thread(cs, t, m)
            + on_thread(x.values@, t, m),
{
    assert(cs.push(x).drop_last() =~= cs);
}

/// Adding a sample along a path keeps a tree nested, and adds the sample
/// to the node's own sums.
pub proof fn lemma_added_nested(
    old: Option<MasterNode>,
    new: MasterNode,
    name: Seq<char>,
    path: Seq<Seq<char>>,
    s: TraceValues,
    scheme: ColorScheme,
    salt: u32,
)
    requires
        added_at(old, new, name, path, s, scheme, salt),
        old matches Some(o) ==> node_nested(o),
    ensures
        node_nested(new),
    decreases path.len(),
{
    let ovalues = match old {
        Some(o) => o.values@,
        None => Seq::<TraceValues>::empty(),
    };
    let ochildren = match old {
        Some(o) => o.children@,
        None => Seq::<MasterNode>::empty(),
    };
    lemma_probe_push(ovalues, s);
    lemma_probe_empty();
    assert(new.values@ == ovalues.push(s));
    if path.len() == 0 {
        assert(new.children@ == ochildren);
        assert forall|lo: int, hi: int, m: DataChoices| #[trigger] children_in_range(new.children@, lo, hi, m) <= in_range(
            new.values@,
            lo,
            hi,
            m,
        ) by {
            if let Some(o) = old {
                assert(children_in_range(o.children@, lo, hi, m) <= in_range(o.values@, lo, hi, m));
            }
            assert(in_range(new.values@, lo, hi, m) == in_range(ovalues, lo, hi, m) + sample_in_range(s, lo, hi, m));
        }
        assert forall|t: int, m: DataChoices| #[trigger] children_on_thread(new.children@, t, m) <= on_thread(
            new.values@,
            t,
            m,
        ) by {
            if let Some(o) = old {
                assert(children_on_thread(o.children@, t, m) <= on_thread(o.values@, t, m));
            }
            assert(on_thread(new.values@, t, m) == on_thread(ovalues, t, m) + sample_on_thread(s, t, m));
        }
        assert forall|i: int| 0 <= i < new.children@.len() implies node_nested(#[trigger] new.children@[i]) by {
            assert(old is Some);
            assert(node_nested(ochildren[i]));
        }
    } else {
        let j = child_index(ochildren, path[0]);
        lemma_child_index_found(ochildren, path[0]);
        let nc = new.children@[j];
        if j < ochildren.len() {
            assert(node_nested(ochildren[j]));
            assert(new.children@ =~= ochildren.update(j, nc));
            assert(added_at(Some(ochildren[j]), nc, path[0], path.drop_first(), s, scheme, salt));
            assert(nc.values@ == ochildren[j].values@.push(s));
            lemma_added_nested(Some(ochildren[j]), nc, path[0], path.drop_first(), s, scheme, salt);
            lemma_probe_push(ochildren[j].values@, s);
        } else {
            assert(new.children@ =~= ochildren.push(nc));
            assert(added_at(None, nc, path[0], path.drop_first(), s, scheme, salt));
            assert(nc.values@ == Seq::<TraceValues>::empty().push(s));
            lemma_added_nested(None, nc, path[0], path.drop_first(), s, scheme, salt);
            lemma_probe_push(Seq::<TraceValues>::empty(), s);
        }
        assert forall|lo: int, hi: int, m: DataChoices| #[trigger] children_in_range(new.children@, lo, hi, m) <= in_range(
            new.values@,
            lo,
            hi,
            m,
        ) by {
            if let Some(o) = old {
                assert(children_in_range(o.children@, lo, hi, m) <= in_range(o.values@, lo, hi, m));
            }
            assert(in_range(new.values@, lo, hi, m) == in_range(ovalues, lo, hi, m) + sample_in_range(s, lo, hi, m));
            if j < ochildren.len() {
                lemma_children_probe_update(ochildren, j, nc, lo, hi, 0, m);
                assert(in_range(nc.values@, lo, hi, m) == in_range(ochildren[j].values@, lo, hi, m) + sample_in_range(
                    s,
                    lo,
                    hi,
                    m,
                ));
            } else {
                lemma_children_probe_push(ochildren, nc);
                assert(in_range(nc.values@, lo, hi, m) == in_range(Seq::<TraceValues>::empty(), lo, hi, m)
                    + sample_in_range(s, lo, hi, m));
            }
        }
        assert forall|t: int, m: DataChoices| #[trigger] children_on_thread(new.children@, t, m) <= on_thread(
            new.values@,
            t,
            m,
        ) by {
            if let Some(o) = old {
                assert(children_on_thread(o.children@, t, m) <= on_thread(o.values@, t, m));
            }
            assert(on_thread(new.values@, t, m) == on_thread(ovalues, t, m) + sample_on_thread(s, t, m));
            if j < ochildren.len() {
                lemma_children_probe_update(ochildren, j, nc, 0, 0, t, m);
                assert(on_thread(nc.values@, t, m) == on_thread(ochildren[j].values@, t, m) + sample_on_thread(s, t, m));
            } else {
                lemma_children_probe_push(ochildren, nc);
                assert(on_thread(nc.values@, t, m) == on_thread(Seq::<TraceValues>::empty(), t, m) + sample_on_thread(
                    s,
                    t,
                    m,
                ));
            }
        }
        assert forall|i: int| 0 <= i < new.children@.len() implies node_nested(#[trigger] new.children@[i]) by {
            if i != j {
                assert(old is Some);
                assert(new.children@[i] == ochildren[i]);
                assert(node_nested(ochildren[i]));
            }
        }
    }
}

proof fn lemma_children_probe_same(a: Seq<MasterNode>, b: Seq<MasterNode>, lo: int, hi: int, t: int, m: DataChoices)
    requires
        a.len() == b.len(),
        forall|i: int| 0 <= i < a.len() ==> (#[trigger] b[i]).values@ == a[i].values@,
    ensures
        children_in_range(a, lo, hi, m) == children_in_range(b, lo, hi, m),
        children_on_thread(a, t, m) == children_on_thread(b, t, m),
    decreases a.len(),
{
    if a.len() > 0 {
        lemma_children_probe_same(a.drop_last(), b.drop_last(), lo, hi, t, m);
        assert(b.last().values@ == a.last().values@);
    }
}

proof fn lemma_same_samples_nested(old: MasterNode, new: MasterNode)
    requires
        same_samples(old, new),
        node_nested(old),
    ensures
        node_nested(new),
    decreases old,
{
    assert forall|i: int| 0 <= i < old.children@.len() implies (#[trigger] new.children@[i]).values@ == old.children@[i].values@ by {
        assert(same_samples(old.children@[i], new.children@[i]));
    }
    assert forall|lo: int, hi: int, m: DataChoices| #[trigger] children_in_range(new.children@, lo, hi, m) <= in_range(
        new.values@,
        lo,
        hi,
        m,
    ) by {
        lemma_children_probe_same(old.children@, new.children@, lo, hi, 0, m);
        assert(children_in_range(old.children@, lo, hi, m) <= in_range(old.values@, lo, hi, m));
    }
    assert forall|t: int, m: DataChoices| #[trigger] children_on_thread(new.children@, t, m) <= on_thread(new.values@, t, m) by {
        lemma_children_probe_same(old.children@, new.children@, 0, 0, t, m);
        assert(children_on_thread(old.children@, t, m) <= on_thread(old.values@, t, m));
    }
    assert forall|i: int| 0 <= i < new.children@.len() implies node_nested(#[trigger] new.children@[i]) by {
        assert(same_samples(old.children@[i], new.children@[i]));
        lemma_same_samples_nested(old.children@[i], new.children@[i]);
    }
}

} // verus!
