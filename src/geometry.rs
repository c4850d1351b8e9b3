//! Renderer-facing geometry, kept exact: positions along the length and
//! breadth axes are fractions, positions along the depth axis are tree
//! levels that the renderer maps to `1 - 2^(-level / 10)`.
use vstd::prelude::*;
use crate::color::Color;
use crate::master::{children_sum, lemma_children_sum_prefix, node_sum, node_wf, tree_wf, MasterNode, MasterTree};
use crate::options::{AcrossMetric, DataChoices, MeshOptions};
use crate::overlap::{
    lemma_bucket_bounded, lemma_fit_everywhere, lemma_sums_nonneg, lemma_thread_bounded, thread_bucket, time_bucket, time_overlaps_spec,
};
use crate::trace::TraceValues;
use crate::view::{bft_nodes, bft_order, Node, Tree};

verus! {

/// One coordinate of a vertex.
#[derive(Debug, Clone, Copy, PartialEq, Eq, Structural)]
pub enum Coord {
    /// The fraction `num / den`; `den` is 0 where a view's metric is 0
    /// throughout, and the position is then undefined.
    Ratio { num: i128, den: u128 },
    /// The depth-axis position of tree level `depth`.
    Level { depth: usize },
}

/// A vertex: its coordinates on axes 0, 1 and 2.
#[derive(Debug, Clone, Copy, PartialEq, Eq, Structural)]
pub struct Vertex {
    pub x: Coord,
    pub y: Coord,
    pub z: Coord,
}

/// Geometry for the renderer: triangle vertices and one colour per vertex.
#[derive(Debug, Clone)]
pub struct Mesh {
    pub verts: Vec<Vertex>,
    pub colors: Vec<Color>,
    pub indicies: Vec<u32>,
}

pub open spec fn coord_of(p: Vertex, axis: int) -> Coord {
    if axis == 0 { p.x } else if axis == 1 { p.y } else { p.z }
}

pub open spec fn with_coord(p: Vertex, axis: int, c: Coord) -> Vertex {
    if axis == 0 {
        Vertex { x: c, ..p }
    } else if axis == 1 {
        Vertex { y: c, ..p }
    } else {
        Vertex { z: c, ..p }
    }
}

/// The two triangles of the rectangle spanned by `lower` and `upper`, which
/// agree on `axis`.
pub open spec fn rect_points(lower: Vertex, upper: Vertex, axis: int) -> Seq<Vertex> {
    let a1 = (axis + 1) % 3;
    let a2 = (axis + 2) % 3;
    let p1 = with_coord(lower, a1, coord_of(upper, a1));
    let p2 = with_coord(lower, a2, coord_of(upper, a2));
    seq![lower, p1, upper, lower, p2, upper]
}

/// Face `i` of the box spanned by `lower` and `upper`: for `i < 3` the face
/// on the lower side of axis `i`, else the one on the upper side of axis
/// `i - 3`.
pub open spec fn face_points(lower: Vertex, upper: Vertex, i: int) -> Seq<Vertex> {
    let a = i % 3;
    if i < 3 {
        rect_points(lower, with_coord(upper, a, coord_of(lower, a)), a)
    } else {
        rect_points(with_coord(lower, a, coord_of(upper, a)), upper, a)
    }
}

/// The twelve triangles of the box spanned by `lower` and `upper`.
pub open spec fn cube_points(lower: Vertex, upper: Vertex) -> Seq<Vertex> {
    face_points(lower, upper, 0) + face_points(lower, upper, 1) + face_points(lower, upper, 2) + face_points(
        lower,
        upper,
        3,
    ) + face_points(lower, upper, 4) + face_points(lower, upper, 5)
}

fn get_coord(p: Vertex, axis: usize) -> (r: Coord)
    ensures
        r == coord_of(p, axis as int),
{
    if axis == 0 {
        p.x
    } else if axis == 1 {
        p.y
    } else {
        p.z
    }
}

fn set_coord(p: Vertex, axis: usize, c: Coord) -> (r: Vertex)
    ensures
        r == with_coord(p, axis as int, c),
{
    if axis == 0 {
        Vertex { x: c, y: p.y, z: p.z }
    } else if axis == 1 {
        Vertex { x: p.x, y: c, z: p.z }
    } else {
        Vertex { x: p.x, y: p.y, z: c }
    }
}

/// The six vertices of the rectangle from `lower_corner` to `upper_corner`,
/// flat along `axis`.
pub fn get_rect_from_points(lower_corner: Vertex, upper_corner: Vertex, axis: usize) -> (r: Vec<Vertex>)
    requires
        axis < 3,
    ensures
        r@ == rect_points(lower_corner, upper_corner, axis as int),
{
    let a1 = (axis + 1) % 3;
    let a2 = (axis + 2) % 3;
    let point1 = set_coord(lower_corner, a1, get_coord(upper_corner, a1));
    let point2 = set_coord(lower_corner, a2, get_coord(upper_corner, a2));
    let mut verticies: Vec<Vertex> = Vec::new();
    verticies.push(lower_corner);
    verticies.push(point1);
    verticies.push(upper_corner);
    verticies.push(lower_corner);
    verticies.push(point2);
    verticies.push(upper_corner);
    proof {
        assert(verticies@ =~= rect_points(lower_corner, upper_corner, axis as int));
    }
    verticies
}

/// The 36 vertices of the box from `lower_corner` to `upper_corner`.
pub fn get_points_for_cube(lower_corner: Vertex, upper_corner: Vertex) -> (r: Vec<Vertex>)
    ensures
        r@ == cube_points(lower_corner, upper_corner),
{
    let mut verticies: Vec<Vertex> = Vec::new();
    let mut i: usize = 0;
    while i < 6
        invariant
            i <= 6,
            verticies@ == face_prefix(lower_corner, upper_corner, i as int),
        decreases 6 - i,
    {
        let a = i % 3;
        let face = if i < 3 {
            get_rect_from_points(lower_corner, set_coord(upper_corner, a, get_coord(lower_corner, a)), a)
        } else {
            get_rect_from_points(set_coord(lower_corner, a, get_coord(upper_corner, a)), upper_corner, a)
        };
        let mut j: usize = 0;
        let ghost before = verticies@;
        while j < face.len()
            invariant
                j <= face@.len(),
                verticies@ == before + face@.subrange(0, j as int),
            decreases face@.len() - j,
        {
            verticies.push(face[j]);
            proof {
                assert(face@.subrange(0, j + 1) =~= face@.subrange(0, j as int).push(face@[j as int]));
            }
            j = j + 1;
        }
        proof {
            assert(face@.subrange(0, j as int) =~= face@);
            assert(face@ == face_points(lower_corner, upper_corner, i as int));
        }
        i = i + 1;
    }
    proof {
        reveal_with_fuel(face_prefix, 7);
        let f0 = face_points(lower_corner, upper_corner, 0);
        assert(Seq::<Vertex>::empty() + f0 =~= f0);
        assert(face_prefix(lower_corner, upper_corner, 6) =~= cube_points(lower_corner, upper_corner));
    }
    verticies
}

/// The vertices of the first `k` faces.
pub open spec fn face_prefix(lower: Vertex, upper: Vertex, k: int) -> Seq<Vertex>
    decreases k,
{
    if k <= 0 { Seq::empty() } else { face_prefix(lower, upper, k - 1) + face_points(lower, upper, k - 1) }
}

/// The chosen metric of an aggregate.
pub open spec fn metric_of(t: TraceValues, m: DataChoices) -> int {
    match m {
        DataChoices::Duration => t.dur as int,
        DataChoices::Value => t.value as int,
    }
}

/// Length-axis position of metric offset `off` when `max` fills the axis:
/// `0.75 + (off / max - 0.9) * 1.9`.
pub open spec fn length_pos(off: int, max: int) -> Coord {
    Coord::Ratio { num: (190 * off - 96 * max) as i128, den: (100 * max) as u128 }
}

/// Integer position `k`.
pub open spec fn whole(k: int) -> Coord {
    Coord::Ratio { num: k as i128, den: 1 }
}

/// The flame-graph rectangle of a node listed at depth `d`.
pub open spec fn flame_rect(d: int, n: Node, m: DataChoices, max: int) -> Seq<Vertex> {
    let off = metric_of(n.offsets, m);
    let size = metric_of(n.values, m);
    rect_points(
        Vertex { x: length_pos(off, max), y: whole(d - 1), z: whole(0) },
        Vertex { x: length_pos(off + size, max), y: whole(d), z: whole(0) },
        2,
    )
}

/// The rectangles of the coloured nodes of `es`, in order.
pub open spec fn flame_verts(es: Seq<(usize, Node)>, m: DataChoices, max: int) -> Seq<Vertex>
    decreases es.len(),
{
    if es.len() == 0 {
        Seq::empty()
    } else {
        let e = es.last();
        flame_verts(es.drop_last(), m, max) + if e.1.color is Some {
            flame_rect(e.0 as int, e.1, m, max)
        } else {
            Seq::empty()
        }
    }
}

/// One colour per vertex of `flame_verts`.
pub open spec fn flame_colors(es: Seq<(usize, Node)>) -> Seq<Color>
    decreases es.len(),
{
    if es.len() == 0 {
        Seq::empty()
    } else {
        let e = es.last();
        flame_colors(es.drop_last()) + match e.1.color {
            Some(c) => Seq::new(6, |i: int| c),
            None => Seq::empty(),
        }
    }
}

fn length_coord(off: u64, max: u64) -> (r: Coord)
    ensures
        r == length_pos(off as int, max as int),
{
    Coord::Ratio { num: 190 * (off as i128) - 96 * (max as i128), den: 100 * (max as u128) }
}

fn length_coord_end(off: u64, size: u64, max: u64) -> (r: Coord)
    ensures
        r == length_pos(off + size, max as int),
{
    Coord::Ratio { num: 190 * (off as i128 + size as i128) - 96 * (max as i128), den: 100 * (max as u128) }
}

fn metric(t: TraceValues, m: DataChoices) -> (r: u64)
    ensures
        r == metric_of(t, m),
{
    match m {
        DataChoices::Duration => t.dur,
        DataChoices::Value => t.value,
    }
}

/// Flame-graph geometry of a display tree: one rectangle per coloured
/// node, breadth first, its length the node's share of the root's
/// aggregate, its row the node's depth.
pub fn get_rects_from_tree(flamegraph: &Tree, options: &MeshOptions) -> (r: Mesh)
    ensures
        r.verts@ == flame_verts(
            bft_order(flamegraph.root),
            options.data_metric,
            metric_of(flamegraph.root.values, options.data_metric),
        ),
        r.colors@ == flame_colors(bft_order(flamegraph.root)),
        r.indicies@.len() == 0,
{
    let m = options.data_metric;
    let max_bar_size = metric(flamegraph.root.values, m);
    let ghost order = bft_order(flamegraph.root);
    let nodes = bft_nodes(&flamegraph.root);
    let mut verticies: Vec<Vertex> = Vec::new();
    let mut colors: Vec<Color> = Vec::new();
    let mut i: usize = 0;
    while i < nodes.len()
        invariant
            i <= nodes@.len(),
            order == bft_order(flamegraph.root),
            nodes@.len() == order.len(),
            forall|k: int| 0 <= k < nodes@.len() ==> (#[trigger] nodes@[k]).0 == order[k].0 && *nodes@[k].1 == order[k].1,
            max_bar_size == metric_of(flamegraph.root.values, m),
            verticies@ == flame_verts(order.subrange(0, i as int), m, max_bar_size as int),
            colors@ == flame_colors(order.subrange(0, i as int)),
        decreases nodes@.len() - i,
    {
        let (depth, node) = nodes[i];
        proof {
            assert(order.subrange(0, i + 1).drop_last() =~= order.subrange(0, i as int));
            assert(order.subrange(0, i + 1).last() == order[i as int]);
            assert(nodes@[i as int].0 == order[i as int].0);
        }
        match node.color {
            Some(c) => {
                let off = metric(node.offsets, m);
                let size = metric(node.values, m);
                let lower = Vertex { x: length_coord(off, max_bar_size), y: Coord::Ratio { num: depth as i128 - 1, den: 1 }, z: Coord::Ratio { num: 0, den: 1 } };
                let upper = Vertex { x: length_coord_end(off, size, max_bar_size), y: Coord::Ratio { num: depth as i128, den: 1 }, z: Coord::Ratio { num: 0, den: 1 } };
                let rect = get_rect_from_points(lower, upper, 2);
                let ghost before = verticies@;
                let ghost cbefore = colors@;
                let mut j: usize = 0;
                while j < rect.len()
                    invariant
                        j <= rect@.len(),
                        rect@.len() == 6,
                        verticies@ == before + rect@.subrange(0, j as int),
                        colors@ == cbefore + Seq::new(j as nat, |k: int| c),
                    decreases rect@.len() - j,
                {
                    verticies.push(rect[j]);
                    colors.push(c);
                    proof {
                        assert(rect@.subrange(0, j + 1) =~= rect@.subrange(0, j as int).push(rect@[j as int]));
                        assert(Seq::new((j + 1) as nat, |k: int| c) =~= Seq::new(j as nat, |k: int| c).push(c));
                    }
                    j = j + 1;
                }
                proof {
                    assert(rect@.subrange(0, j as int) =~= rect@);
                    assert(rect@ == flame_rect(depth as int, order[i as int].1, m, max_bar_size as int));
                }
            },
            None => {},
        }
        i = i + 1;
    }
    proof {
        assert(order.subrange(0, i as int) =~= order);
    }
    Mesh { verts: verticies, colors, indicies: Vec::new() }
}

proof fn lemma_flame_filter(es: Seq<(usize, Node)>, m: DataChoices, max: int)
    ensures
        flame_verts(es, m, max) == flame_verts(es.filter(|e: (usize, Node)| e.1.color is Some), m, max),
        flame_colors(es) == flame_colors(es.filter(|e: (usize, Node)| e.1.color is Some)),
        flame_verts(es, m, max).len() == 6 * es.filter(|e: (usize, Node)| e.1.color is Some).len(),
        flame_colors(es).len() == flame_verts(es, m, max).len(),
    decreases es.len(),
{
    let pred = |e: (usize, Node)| e.1.color is Some;
    reveal(Seq::filter);
    if es.len() > 0 {
        lemma_flame_filter(es.drop_last(), m, max);
        let f = es.filter(pred);
        let fp = es.drop_last().filter(pred);
        if pred(es.last()) {
            assert(f == fp.push(es.last()));
            assert(f.drop_last() =~= fp);
        } else {
            assert(f == fp);
        }
    } else {
        assert(es.filter(pred) =~= es);
    }
}

/// The flame-graph generator emits nothing for a node without a colour:
/// removing every such node from the listing leaves the vertices and the
/// colours unchanged, and there are six vertices per coloured node.
pub proof fn lemma_colorless_nodes_emit_nothing(es: Seq<(usize, Node)>, m: DataChoices, max: int)
    ensures
        flame_verts(es, m, max) == flame_verts(es.filter(|e: (usize, Node)| e.1.color is Some), m, max),
        flame_colors(es) == flame_colors(es.filter(|e: (usize, Node)| e.1.color is Some)),
        flame_verts(es, m, max).len() == 6 * es.filter(|e: (usize, Node)| e.1.color is Some).len(),
{
    lemma_flame_filter(es, m, max);
}

/// Number of buckets an overview has.
pub open spec fn num_divisions(o: MeshOptions) -> nat {
    match o.across_metric {
        AcrossMetric::Time => o.num_graphs as nat,
        AcrossMetric::Thread => o.num_threads as nat,
    }
}

/// The chosen metric of each bucket of `m`; `None` when the node is pruned
/// (no time bucket, or no duration in any).
pub open spec fn node_sizes(m: MasterNode, o: MeshOptions) -> Option<Seq<int>> {
    match o.across_metric {
        AcrossMetric::Time => match time_overlaps_spec(m.values@, o.time_range.start, o.time_range.end, o.num_graphs as nat) {
            Some(v) => Some(v.map_values(|t: TraceValues| metric_of(t, o.data_metric))),
            None => None,
        },
        AcrossMetric::Thread => Some(
            Seq::new(o.num_threads as nat, |i: int| metric_of(thread_bucket(m.values@, i), o.data_metric)),
        ),
    }
}

pub open spec fn zeros(n: nat) -> Seq<int> {
    Seq::new(n, |i: int| 0)
}

pub open spec fn vec_add(a: Seq<int>, b: Seq<int>) -> Seq<int> {
    Seq::new(a.len(), |i: int| a[i] + b[i])
}

pub open spec fn ints(v: Seq<u64>) -> Seq<int> {
    v.map_values(|x: u64| x as int)
}

pub open spec fn sizes_or_zero(m: MasterNode, o: MeshOptions) -> Seq<int> {
    match node_sizes(m, o) {
        Some(s) => s,
        None => zeros(num_divisions(o)),
    }
}

/// Per-bucket sums of the sizes of `ms`.
pub open spec fn sizes_total(ms: Seq<MasterNode>, o: MeshOptions) -> Seq<int>
    decreases ms.len(),
{
    if ms.len() == 0 {
        zeros(num_divisions(o))
    } else {
        vec_add(sizes_total(ms.drop_last(), o), sizes_or_zero(ms.last(), o))
    }
}

/// The largest element of `s`, 0 when it is empty.
pub open spec fn seq_max(s: Seq<int>) -> int
    decreases s.len(),
{
    if s.len() == 0 {
        0
    } else {
        let a = seq_max(s.drop_last());
        if s.last() > a { s.last() } else { a }
    }
}

/// Breadth-axis start of bucket `b` of `n`: `b / n * 1.8 - 0.9`.
pub open spec fn breadth_lo(b: int, n: int) -> Coord {
    Coord::Ratio { num: (180 * b - 90 * n) as i128, den: (100 * n) as u128 }
}

/// Breadth-axis end of bucket `b` of `n`, one unit short when buckets are
/// spaced: `b / n * 1.8 - 0.9 + (1.8 - spacing) / n`.
pub open spec fn breadth_hi(b: int, n: int, spacing: bool) -> Coord {
    let sp: int = if spacing { 1 } else { 0 };
    Coord::Ratio { num: (180 * b - 90 * n + 180 - 100 * sp) as i128, den: (100 * n) as u128 }
}

/// The cuboids of buckets `0..k` of a node at `depth`, one per bucket with a
/// positive size, from the bucket's offset to offset plus size.
pub open spec fn node_cubes(sizes: Seq<int>, offs: Seq<int>, depth: int, o: MeshOptions, max: int, k: nat) -> Seq<Vertex>
    decreases k,
{
    if k == 0 {
        Seq::empty()
    } else {
        let b = k - 1;
        let n = num_divisions(o) as int;
        node_cubes(sizes, offs, depth, o, max, (k - 1) as nat) + if sizes[b] > 0 {
            cube_points(
                Vertex { x: length_pos(offs[b], max), y: Coord::Level { depth: depth as usize }, z: breadth_lo(b, n) },
                Vertex {
                    x: length_pos(offs[b] + sizes[b], max),
                    y: Coord::Level { depth: (depth + 1) as usize },
                    z: breadth_hi(b, n, o.bar_spacing),
                },
            )
        } else {
            Seq::empty()
        }
    }
}

/// The node's own cuboids: none for a pruned node, for the root level, or
/// for a node without a colour.
pub open spec fn own_cubes(m: MasterNode, o: MeshOptions, depth: int, offs: Seq<int>, max: int) -> Seq<Vertex> {
    match node_sizes(m, o) {
        Some(sz) => if m.color is Some && depth > 1 {
            node_cubes(sz, offs, depth, o, max, num_divisions(o))
        } else {
            Seq::empty()
        },
        None => Seq::empty(),
    }
}

/// Vertices of the overview of the subtree `m` at `depth`, its buckets
/// starting at `offs`: its own cuboids, then each child's subtree, each
/// child's buckets starting where its earlier siblings' end.
pub open spec fn tree_verts(m: MasterNode, o: MeshOptions, depth: int, offs: Seq<int>, max: int) -> Seq<Vertex>
    decreases m, 0int,
{
    match node_sizes(m, o) {
        Some(sz) => own_cubes(m, o, depth, offs, max) + list_verts(m.children@, o, depth + 1, offs, max),
        None => Seq::empty(),
    }
}

pub open spec fn list_verts(ms: Seq<MasterNode>, o: MeshOptions, depth: int, offs: Seq<int>, max: int) -> Seq<Vertex>
    decreases ms, ms.len(),
{
    if ms.len() == 0 {
        Seq::empty()
    } else {
        let pre = ms.drop_last();
        list_verts(pre, o, depth, offs, max) + tree_verts(ms.last(), o, depth, vec_add(offs, sizes_total(pre, o)), max)
    }
}

/// The colour of each vertex of `tree_verts`.
pub open spec fn tree_colors(m: MasterNode, o: MeshOptions, depth: int, offs: Seq<int>, max: int) -> Seq<Color>
    decreases m, 0int,
{
    match node_sizes(m, o) {
        Some(sz) => Seq::new(own_cubes(m, o, depth, offs, max).len(), |i: int| m.color->0) + list_colors(
            m.children@,
            o,
            depth + 1,
            offs,
            max,
        ),
        None => Seq::empty(),
    }
}

pub open spec fn list_colors(ms: Seq<MasterNode>, o: MeshOptions, depth: int, offs: Seq<int>, max: int) -> Seq<Color>
    decreases ms, ms.len(),
{
    if ms.len() == 0 {
        Seq::empty()
    } else {
        let pre = ms.drop_last();
        list_colors(pre, o, depth, offs, max) + tree_colors(ms.last(), o, depth, vec_add(offs, sizes_total(pre, o)), max)
    }
}

/// Number of levels of the call tree under `m`.
pub open spec fn master_height(m: MasterNode) -> nat
    decreases m, 0int,
{
    1 + master_height_list(m.children@)
}

pub open spec fn master_height_list(ms: Seq<MasterNode>) -> nat
    decreases ms, ms.len(),
{
    if ms.len() == 0 {
        0
    } else {
        let a = master_height_list(ms.drop_last());
        let b = master_height(ms.last());
        if a > b { a } else { b }
    }
}

proof fn lemma_child_height(ms: Seq<MasterNode>, i: int)
    requires
        0 <= i < ms.len(),
    ensures
        master_height(ms[i]) <= master_height_list(ms),
    decreases ms.len(),
{
    if i < ms.len() - 1 {
        lemma_child_height(ms.drop_last(), i);
    }
}

/// Options an overview can be generated for: a time axis needs a range
/// that does not end before it starts.
pub open spec fn options_ok(o: MeshOptions) -> bool {
    o.across_metric == AcrossMetric::Time ==> o.time_range.start <= o.time_range.end
}

proof fn lemma_sizes_bounded(m: MasterNode, o: MeshOptions)
    requires
        node_wf(m),
        options_ok(o),
    ensures
        node_sizes(m, o) matches Some(sz) ==> sz.len() == num_divisions(o) && forall|b: int| 0 <= b < sz.len() ==> 0
            <= #[trigger] sz[b] <= node_sum(m, o.data_metric),
{
    match o.across_metric {
        AcrossMetric::Time => {
            let start = o.time_range.start;
            let end = o.time_range.end;
            let n = o.num_graphs as nat;
            if let Some(v) = time_overlaps_spec(m.values@, start, end, n) {
                assert forall|b: int| 0 <= b < n implies 0 <= #[trigger] metric_of(v[b], o.data_metric) <= node_sum(
                    m,
                    o.data_metric,
                ) by {
                    let w = (end - start) / (n as int);
                    lemma_bucket_bounded(m.values@, start + b * w, start + (b + 1) * w);
                }
            }
        },
        AcrossMetric::Thread => {
            assert forall|b: int| 0 <= b < o.num_threads implies 0 <= #[trigger] metric_of(
                thread_bucket(m.values@, b),
                o.data_metric,
            ) <= node_sum(m, o.data_metric) by {
                lemma_thread_bounded(m.values@, b);
            }
        },
    }
}

/// The chosen metric per bucket of `m`, or `None` when `m` is pruned.
fn node_sizes_of(m: &MasterNode, o: &MeshOptions) -> (r: Option<Vec<u64>>)
    requires
        node_wf(*m),
        options_ok(*o),
    ensures
        r is None <==> node_sizes(*m, *o) is None,
        r matches Some(v) ==> ints(v@) == node_sizes(*m, *o)->0,
{
    proof {
        lemma_fit_everywhere(m.values@);
    }
    let overlaps = match o.across_metric {
        AcrossMetric::Time => m.time_overlaps(o.num_graphs, std::ops::Range { start: o.time_range.start, end: o.time_range.end }),
        AcrossMetric::Thread => m.tread_overlaps(o.num_threads),
    };
    match overlaps {
        None => None,
        Some(v) => {
            let mut out: Vec<u64> = Vec::new();
            let mut i: usize = 0;
            while i < v.len()
                invariant
                    i <= v@.len(),
                    out@.len() == i,
                    forall|k: int| 0 <= k < i ==> out@[k] == metric_of(#[trigger] v@[k], o.data_metric),
                decreases v@.len() - i,
            {
                out.push(metric(v[i], o.data_metric));
                i = i + 1;
            }
            proof {
                assert(ints(out@) =~= v@.map_values(|t: TraceValues| metric_of(t, o.data_metric)));
                if o.across_metric == AcrossMetric::Thread {
                    assert(ints(out@) =~= Seq::new(
                        o.num_threads as nat,
                        |i: int| metric_of(thread_bucket(m.values@, i), o.data_metric),
                    ));
                }
            }
            Some(out)
        },
    }
}

/// Appends every element of `src` to `dst`.
fn append_all<T: Copy>(dst: &mut Vec<T>, src: &Vec<T>)
    ensures
        final(dst)@ == old(dst)@ + src@,
{
    let mut j: usize = 0;
    while j < src.len()
        invariant
            j <= src@.len(),
            dst@ == old(dst)@ + src@.subrange(0, j as int),
        decreases src@.len() - j,
    {
        dst.push(src[j]);
        proof {
            assert(src@.subrange(0, j + 1) =~= src@.subrange(0, j as int).push(src@[j as int]));
        }
        j = j + 1;
    }
    proof {
        assert(src@.subrange(0, j as int) =~= src@);
    }
}

/// Appends `k` copies of `c` to `dst`.
fn append_copies(dst: &mut Vec<Color>, c: Color, k: usize)
    ensures
        final(dst)@ == old(dst)@ + Seq::new(k as nat, |i: int| c),
{
    let mut j: usize = 0;
    while j < k
        invariant
            j <= k,
            dst@ == old(dst)@ + Seq::new(j as nat, |i: int| c),
        decreases k - j,
    {
        dst.push(c);
        proof {
            assert(Seq::new((j + 1) as nat, |i: int| c) =~= Seq::new(j as nat, |i: int| c).push(c));
        }
        j = j + 1;
    }
}

/// Appends the node's own cuboids, bucket by bucket.
fn emit_cubes(sizes: &Vec<u64>, offs: &Vec<u64>, depth: usize, o: &MeshOptions, max: u64, color: Color, mesh: &mut Mesh)
    requires
        sizes@.len() == num_divisions(*o),
        offs@.len() == num_divisions(*o),
        depth < usize::MAX,
    ensures
        final(mesh).verts@ == old(mesh).verts@ + node_cubes(ints(sizes@), ints(offs@), depth as int, *o, max as int, num_divisions(*o)),
        final(mesh).colors@ == old(mesh).colors@ + Seq::new(
            node_cubes(ints(sizes@), ints(offs@), depth as int, *o, max as int, num_divisions(*o)).len(),
            |i: int| color,
        ),
        final(mesh).indicies@ == old(mesh).indicies@,
{
    let n: usize = sizes.len();
    let spacing: i128 = if o.bar_spacing { 1 } else { 0 };
    let ghost sz = ints(sizes@);
    let ghost of = ints(offs@);
    let mut b: usize = 0;
    while b < n
        invariant
            b <= n,
            n == sizes@.len(),
            n == num_divisions(*o),
            offs@.len() == n,
            sz == ints(sizes@),
            of == ints(offs@),
            depth < usize::MAX,
            spacing == if o.bar_spacing { 1int } else { 0int },
            mesh.verts@ == old(mesh).verts@ + node_cubes(sz, of, depth as int, *o, max as int, b as nat),
            mesh.colors@ == old(mesh).colors@ + Seq::new(node_cubes(sz, of, depth as int, *o, max as int, b as nat).len(), |i: int| color),
            mesh.indicies@ == old(mesh).indicies@,
        decreases n - b,
    {
        let ghost before_v = mesh.verts@;
        let ghost before_c = mesh.colors@;
        if sizes[b] > 0 {
            let lower = Vertex {
                x: length_coord(offs[b], max),
                y: Coord::Level { depth },
                z: Coord::Ratio { num: 180 * (b as i128) - 90 * (n as i128), den: 100 * (n as u128) },
            };
            let upper = Vertex {
                x: length_coord_end(offs[b], sizes[b], max),
                y: Coord::Level { depth: depth + 1 },
                z: Coord::Ratio { num: 180 * (b as i128) - 90 * (n as i128) + 180 - 100 * spacing, den: 100 * (n as u128) },
            };
            let cube = get_points_for_cube(lower, upper);
            append_all(&mut mesh.verts, &cube);
            append_copies(&mut mesh.colors, color, cube.len());
            proof {
                assert(mesh.colors@ =~= old(mesh).colors@ + Seq::new(
                    node_cubes(sz, of, depth as int, *o, max as int, (b + 1) as nat).len(),
                    |i: int| color,
                ));
            }
        }
        proof {
            assert(mesh.verts@ =~= old(mesh).verts@ + node_cubes(sz, of, depth as int, *o, max as int, (b + 1) as nat));
            assert(mesh.colors@ =~= old(mesh).colors@ + Seq::new(
                node_cubes(sz, of, depth as int, *o, max as int, (b + 1) as nat).len(),
                |i: int| color,
            ));
        }
        b = b + 1;
    }
}

proof fn lemma_sizes_total_bounded(ms: Seq<MasterNode>, o: MeshOptions)
    requires
        options_ok(o),
        forall|i: int| 0 <= i < ms.len() ==> node_wf(#[trigger] ms[i]),
    ensures
        sizes_total(ms, o).len() == num_divisions(o),
        forall|b: int| 0 <= b < num_divisions(o) ==> 0 <= #[trigger] sizes_total(ms, o)[b] <= children_sum(ms, o.data_metric),
    decreases ms.len(),
{
    if ms.len() > 0 {
        let pre = ms.drop_last();
        assert forall|i: int| 0 <= i < pre.len() implies node_wf(#[trigger] pre[i]) by {
            assert(pre[i] == ms[i]);
        }
        lemma_sizes_total_bounded(pre, o);
        assert(node_wf(ms[ms.len() - 1]));
        lemma_sizes_bounded(ms.last(), o);
        lemma_sums_nonneg(ms.last().values@);
        assert forall|b: int| 0 <= b < num_divisions(o) implies 0 <= #[trigger] sizes_total(ms, o)[b] <= children_sum(
            ms,
            o.data_metric,
        ) by {
            assert(sizes_total(ms, o)[b] == sizes_total(pre, o)[b] + sizes_or_zero(ms.last(), o)[b]);
            assert(0 <= sizes_or_zero(ms.last(), o)[b] <= node_sum(ms.last(), o.data_metric)) by {
                match o.data_metric {
                    DataChoices::Duration => {},
                    DataChoices::Value => {},
                }
            }
        }
    }
}

/// Appends the overview geometry of the subtree `m` at `depth`, its buckets
/// starting at `offs`, and returns its sizes (`None` when it is pruned).
fn tree_to_verts(m: &MasterNode, o: &MeshOptions, depth: usize, offs: &Vec<u64>, max: u64, mesh: &mut Mesh) -> (r: Option<Vec<u64>>)
    requires
        node_wf(*m),
        options_ok(*o),
        offs@.len() == num_divisions(*o),
        forall|b: int| 0 <= b < offs@.len() ==> #[trigger] offs@[b] + node_sum(*m, o.data_metric) <= u64::MAX,
        depth + master_height(*m) < usize::MAX,
    ensures
        r is None <==> node_sizes(*m, *o) is None,
        r matches Some(v) ==> ints(v@) == node_sizes(*m, *o)->0,
        final(mesh).verts@ == old(mesh).verts@ + tree_verts(*m, *o, depth as int, ints(offs@), max as int),
        final(mesh).colors@ == old(mesh).colors@ + tree_colors(*m, *o, depth as int, ints(offs@), max as int),
        final(mesh).indicies@ == old(mesh).indicies@,
    decreases *m,
{
    let sizes = match node_sizes_of(m, o) {
        None => {
            proof {
                assert(mesh.verts@ =~= old(mesh).verts@ + tree_verts(*m, *o, depth as int, ints(offs@), max as int));
                assert(mesh.colors@ =~= old(mesh).colors@ + tree_colors(*m, *o, depth as int, ints(offs@), max as int));
            }
            return None;
        },
        Some(v) => v,
    };
    proof {
        lemma_sizes_bounded(*m, *o);
    }
    let ghost base = ints(offs@);
    let ghost n = num_divisions(*o);
    match m.color {
        Some(c) => {
            if depth > 1 {
                emit_cubes(&sizes, offs, depth, o, max, c, mesh);
            }
        },
        None => {},
    }
    proof {
        assert(mesh.verts@ =~= old(mesh).verts@ + own_cubes(*m, *o, depth as int, base, max as int));
        assert(mesh.colors@ =~= old(mesh).colors@ + Seq::new(own_cubes(*m, *o, depth as int, base, max as int).len(), |i: int| m.color->0));
    }
    let ghost mid_v = mesh.verts@;
    let ghost mid_c = mesh.colors@;
    let mut run: Vec<u64> = Vec::new();
    let mut k: usize = 0;
    while k < offs.len()
        invariant
            k <= offs@.len(),
            run@.len() == k,
            forall|b: int| 0 <= b < k ==> #[trigger] run@[b] == offs@[b],
        decreases offs@.len() - k,
    {
        run.push(offs[k]);
        k = k + 1;
    }
    proof {
        assert(run@ =~= offs@);
        lemma_sums_nonneg(m.values@);
        assert(ints(run@) =~= vec_add(base, sizes_total(m.children@.subrange(0, 0), *o)));
    }
    let mut i: usize = 0;
    while i < m.children.len()
        invariant
            i <= m.children@.len(),
            node_wf(*m),
            options_ok(*o),
            n == num_divisions(*o),
            base.len() == n,
            base == ints(offs@),
            offs@.len() == n,
            run@.len() == n,
            depth + master_height(*m) < usize::MAX,
            forall|b: int| 0 <= b < n ==> #[trigger] offs@[b] + node_sum(*m, o.data_metric) <= u64::MAX,
            ints(run@) == vec_add(base, sizes_total(m.children@.subrange(0, i as int), *o)),
            mesh.verts@ == mid_v + list_verts(m.children@.subrange(0, i as int), *o, depth + 1, base, max as int),
            mesh.colors@ == mid_c + list_colors(m.children@.subrange(0, i as int), *o, depth + 1, base, max as int),
            mesh.indicies@ == old(mesh).indicies@,
        decreases m.children@.len() - i,
    {
        let ghost pre = m.children@.subrange(0, i as int);
        let ghost cur = m.children@.subrange(0, i + 1);
        let ghost child = m.children@[i as int];
        proof {
            assert(cur.drop_last() =~= pre);
            assert(cur.last() == child);
            assert(node_wf(child));
            assert forall|j: int| 0 <= j < cur.len() implies node_wf(#[trigger] cur[j]) by {
                assert(cur[j] == m.children@[j]);
            }
            lemma_sizes_total_bounded(cur, *o);
            lemma_sizes_total_bounded(pre, *o);
            lemma_children_sum_prefix(m.children@, i + 1);
            lemma_sizes_bounded(child, *o);
            lemma_child_height(m.children@, i as int);
            assert(decreases_to!(*m => m.children@[i as int]));
            assert(children_sum(cur, o.data_metric) == children_sum(pre, o.data_metric) + node_sum(child, o.data_metric));
            assert forall|b: int| 0 <= b < n implies #[trigger] run@[b] + node_sum(child, o.data_metric) <= u64::MAX by {
                assert(ints(run@)[b] == run@[b]);
                assert(sizes_total(pre, *o)[b] <= children_sum(pre, o.data_metric));
                assert(node_sum(*m, o.data_metric) >= children_sum(cur, o.data_metric)) by {
                    match o.data_metric {
                        DataChoices::Duration => {},
                        DataChoices::Value => {},
                    }
                }
            }
        }
        let csz = tree_to_verts(&m.children[i], o, depth + 1, &run, max, mesh);
        proof {
            assert(mesh.verts@ =~= mid_v + list_verts(cur, *o, depth + 1, base, max as int));
            assert(mesh.colors@ =~= mid_c + list_colors(cur, *o, depth + 1, base, max as int));
        }
        match csz {
            Some(cs) => {
                let mut b: usize = 0;
                let ghost run0 = run@;
                proof {
                    assert forall|j: int| 0 <= j < n implies #[trigger] run0[j] + cs@[j] <= u64::MAX by {
                        assert(ints(cs@)[j] == cs@[j]);
                        assert(run0[j] + node_sum(child, o.data_metric) <= u64::MAX);
                    }
                }
                while b < run.len()
                    invariant
                        b <= run@.len(),
                        run@.len() == n,
                        run0.len() == n,
                        cs@.len() == n,
                        ints(cs@) == sizes_or_zero(child, *o),
                        forall|j: int| 0 <= j < n ==> #[trigger] run0[j] + cs@[j] <= u64::MAX,
                        forall|j: int| 0 <= j < b ==> #[trigger] run@[j] == run0[j] + cs@[j],
                        forall|j: int| b <= j < n ==> #[trigger] run@[j] == run0[j],
                    decreases n - b,
                {
                    let v = run[b] + cs[b];
                    run.set(b, v);
                    b = b + 1;
                }
                proof {
                    assert forall|j: int| 0 <= j < n implies #[trigger] ints(run@)[j] == vec_add(base, sizes_total(cur, *o))[j] by {
                        assert(ints(run0)[j] == vec_add(base, sizes_total(pre, *o))[j]);
                        assert(ints(cs@)[j] == cs@[j]);
                        assert(sizes_total(cur, *o)[j] == sizes_total(pre, *o)[j] + sizes_or_zero(child, *o)[j]);
                    }
                    assert(ints(run@) =~= vec_add(base, sizes_total(cur, *o)));
                }
            },
            None => {
                proof {
                    assert(ints(run@) =~= vec_add(base, sizes_total(cur, *o)));
                }
            },
        }
        i = i + 1;
    }
    proof {
        assert(m.children@.subrange(0, i as int) =~= m.children@);
    }
    Some(sizes)
}

/// Overview geometry of the whole call tree: one cuboid per node below the
/// root, per bucket with a positive size, stacked per bucket depth-first and
/// scaled so that the largest root bucket fills the length axis.
pub fn get_mesh_from_tree(graph: &MasterTree, mesh_options: &MeshOptions) -> (r: Mesh)
    requires
        tree_wf(*graph),
        options_ok(*mesh_options),
        master_height(graph.root) < usize::MAX - 1,
    ensures
        r.indicies@.len() == 0,
        node_sizes(graph.root, *mesh_options) is None ==> r.verts@.len() == 0 && r.colors@.len() == 0,
        node_sizes(graph.root, *mesh_options) matches Some(rs) ==> r.verts@ == tree_verts(
            graph.root,
            *mesh_options,
            1,
            zeros(num_divisions(*mesh_options)),
            seq_max(rs),
        ) && r.colors@ == tree_colors(graph.root, *mesh_options, 1, zeros(num_divisions(*mesh_options)), seq_max(rs)),
{
    let mut mesh = Mesh { verts: Vec::new(), colors: Vec::new(), indicies: Vec::new() };
    let root_sizes = match node_sizes_of(&graph.root, mesh_options) {
        None => {
            return mesh;
        },
        Some(v) => v,
    };
    let mut max_size: u64 = 0;
    let mut i: usize = 0;
    while i < root_sizes.len()
        invariant
            i <= root_sizes@.len(),
            max_size == seq_max(ints(root_sizes@).subrange(0, i as int)),
        decreases root_sizes@.len() - i,
    {
        proof {
            assert(ints(root_sizes@).subrange(0, i + 1).drop_last() =~= ints(root_sizes@).subrange(0, i as int));
        }
        if root_sizes[i] > max_size {
            max_size = root_sizes[i];
        }
        i = i + 1;
    }
    proof {
        assert(ints(root_sizes@).subrange(0, i as int) =~= ints(root_sizes@));
        lemma_sizes_bounded(graph.root, *mesh_options);
        lemma_sums_nonneg(graph.root.values@);
    }
    let n: usize = root_sizes.len();
    let mut offs: Vec<u64> = Vec::new();
    let mut k: usize = 0;
    while k < n
        invariant
            k <= n,
            offs@.len() == k,
            forall|b: int| 0 <= b < k ==> #[trigger] offs@[b] == 0,
        decreases n - k,
    {
        offs.push(0);
        k = k + 1;
    }
    proof {
        assert(ints(offs@) =~= zeros(num_divisions(*mesh_options)));
        assert(node_sum(graph.root, mesh_options.data_metric) <= u64::MAX) by {
            match mesh_options.data_metric {
                DataChoices::Duration => {},
                DataChoices::Value => {},
            }
        }
    }
    let _ = tree_to_verts(&graph.root, mesh_options, 1, &offs, max_size, &mut mesh);
    proof {
        assert(mesh.verts@ =~= tree_verts(graph.root, *mesh_options, 1, zeros(num_divisions(*mesh_options)), max_size as int));
        assert(mesh.colors@ =~= tree_colors(graph.root, *mesh_options, 1, zeros(num_divisions(*mesh_options)), max_size as int));
    }
    mesh
}

} // verus!
