use metaflame::geometry::{get_points_for_cube, get_rect_from_points};
use metaflame::{
    build_time_tree, get_mesh_from_tree, get_rects_from_tree, grow_master_tree, AcrossMetric, Coord, DataChoices,
    MeshOptions, Stackframe, Trace, Vertex,
};

fn trace(name: &str, stack: &[&str], start: u64, dur: u64, value: u64, tid: usize) -> Trace {
    Trace {
        id: 0,
        name: name.to_string(),
        stack: stack.iter().map(|s| Stackframe { name: s.to_string() }).collect(),
        start,
        dur,
        value,
        tid,
    }
}

fn q(num: i128, den: u128) -> Coord {
    Coord::Ratio { num, den }
}

fn v(x: Coord, y: Coord, z: Coord) -> Vertex {
    Vertex { x, y, z }
}

fn options(across: AcrossMetric, metric: DataChoices, buckets: usize, start: u64, end: u64) -> MeshOptions {
    MeshOptions {
        bar_spacing: false,
        has_changed: false,
        time_range: start..end,
        data_metric: metric,
        across_metric: across,
        num_graphs: buckets,
        num_threads: buckets,
    }
}

#[test]
fn rectangle_vertex_order() {
    let lo = v(q(0, 1), q(1, 1), q(2, 1));
    let hi = v(q(3, 1), q(4, 1), q(2, 1));
    let r = get_rect_from_points(lo, hi, 2);
    let p1 = v(q(3, 1), q(1, 1), q(2, 1));
    let p2 = v(q(0, 1), q(4, 1), q(2, 1));
    assert_eq!(r, vec![lo, p1, hi, lo, p2, hi]);
}

#[test]
fn cube_has_six_faces() {
    let lo = v(q(0, 1), q(0, 1), q(0, 1));
    let hi = v(q(1, 1), q(1, 1), q(1, 1));
    let c = get_points_for_cube(lo, hi);
    assert_eq!(c.len(), 36);
    let first = get_rect_from_points(lo, v(q(0, 1), q(1, 1), q(1, 1)), 0);
    assert_eq!(&c[0..6], &first[..]);
    let last = get_rect_from_points(v(q(0, 1), q(0, 1), q(1, 1)), hi, 2);
    assert_eq!(&c[30..36], &last[..]);
}

#[test]
fn flame_rects_skip_colorless_root() {
    let tree = grow_master_tree(&vec![trace("leaf", &["mid", "top"], 0, 10, 5, 0)]);
    let view = build_time_tree(&tree, 0..100);
    let mesh = get_rects_from_tree(&view, &options(AcrossMetric::Time, DataChoices::Duration, 1, 0, 100));
    assert_eq!(mesh.verts.len(), 18);
    assert_eq!(mesh.colors.len(), 18);
    assert!(mesh.indicies.is_empty());
    assert_eq!(mesh.verts[0], v(q(-960, 1000), q(0, 1), q(0, 1)));
    assert_eq!(mesh.verts[1], v(q(940, 1000), q(0, 1), q(0, 1)));
    assert_eq!(mesh.verts[2], v(q(940, 1000), q(1, 1), q(0, 1)));
    assert_eq!(mesh.verts[8], v(q(940, 1000), q(2, 1), q(0, 1)));
    let top_color = view.root.children[0].color.unwrap();
    assert!(mesh.colors[0..6].iter().all(|c| *c == top_color));
}

#[test]
fn flame_rects_draw_a_colored_root() {
    let mut tree = grow_master_tree(&vec![trace("leaf", &[], 0, 10, 5, 0)]);
    tree.new_color_scheme();
    let view = build_time_tree(&tree, 0..100);
    let mesh = get_rects_from_tree(&view, &options(AcrossMetric::Time, DataChoices::Duration, 1, 0, 100));
    assert_eq!(mesh.verts.len(), 12);
    assert_eq!(mesh.verts[0], v(q(-960, 1000), q(-1, 1), q(0, 1)));
    assert_eq!(mesh.colors[0], view.root.color.unwrap());
}

#[test]
fn flame_rects_of_placeholder_are_empty() {
    let tree = grow_master_tree(&vec![]);
    let view = build_time_tree(&tree, 0..100);
    let mesh = get_rects_from_tree(&view, &options(AcrossMetric::Time, DataChoices::Value, 1, 0, 100));
    assert!(mesh.verts.is_empty() && mesh.colors.is_empty());
}

#[test]
fn flame_rects_use_value_offsets() {
    let tree = grow_master_tree(&vec![trace("a", &[], 0, 4, 1, 0), trace("b", &[], 0, 6, 3, 0)]);
    let view = build_time_tree(&tree, 0..10);
    let mesh = get_rects_from_tree(&view, &options(AcrossMetric::Time, DataChoices::Value, 1, 0, 10));
    assert_eq!(mesh.verts.len(), 12);
    assert_eq!(mesh.verts[6], v(q(190 - 384, 400), q(0, 1), q(0, 1)));
    assert_eq!(mesh.verts[8], v(q(760 - 384, 400), q(1, 1), q(0, 1)));
}

#[test]
fn overview_stacks_siblings() {
    let tree = grow_master_tree(&vec![trace("a", &[], 0, 4, 1, 0), trace("b", &[], 0, 6, 3, 0)]);
    let mesh = get_mesh_from_tree(&tree, &options(AcrossMetric::Time, DataChoices::Duration, 1, 0, 10));
    assert_eq!(mesh.verts.len(), 72);
    assert_eq!(mesh.colors.len(), 72);
    let level2 = Coord::Level { depth: 2 };
    let level3 = Coord::Level { depth: 3 };
    assert_eq!(mesh.verts[0], v(q(-960, 1000), level2, q(-90, 100)));
    assert_eq!(mesh.verts[36], v(q(-200, 1000), level2, q(-90, 100)));
    let b_upper = mesh.verts[36 + 35];
    assert_eq!(b_upper, v(q(940, 1000), level3, q(90, 100)));
    let a_color = tree.root.children[0].color.unwrap();
    let b_color = tree.root.children[1].color.unwrap();
    assert!(mesh.colors[0..36].iter().all(|c| *c == a_color));
    assert!(mesh.colors[36..72].iter().all(|c| *c == b_color));
}

#[test]
fn overview_buckets_and_depths() {
    let tree = grow_master_tree(&vec![trace("leaf", &["mid", "top"], 0, 10, 5, 0)]);
    let mut o = options(AcrossMetric::Time, DataChoices::Duration, 2, 0, 10);
    let mesh = get_mesh_from_tree(&tree, &o);
    assert_eq!(mesh.verts.len(), 6 * 36);
    assert_eq!(mesh.verts[0], v(q(-480, 500), Coord::Level { depth: 2 }, q(-180, 200)));
    assert_eq!(mesh.verts[35], v(q(470, 500), Coord::Level { depth: 3 }, q(0, 200)));
    assert_eq!(mesh.verts[36], v(q(-480, 500), Coord::Level { depth: 2 }, q(0, 200)));
    assert_eq!(mesh.verts[72], v(q(-480, 500), Coord::Level { depth: 3 }, q(-180, 200)));
    o.bar_spacing = true;
    let spaced = get_mesh_from_tree(&tree, &o);
    assert_eq!(spaced.verts[35], v(q(470, 500), Coord::Level { depth: 3 }, q(-100, 200)));
}

#[test]
fn overview_prunes_and_empties() {
    let tree = grow_master_tree(&vec![trace("a", &[], 0, 4, 1, 0), trace("b", &[], 50, 6, 3, 0)]);
    let mesh = get_mesh_from_tree(&tree, &options(AcrossMetric::Time, DataChoices::Duration, 1, 0, 10));
    assert_eq!(mesh.verts.len(), 36);
    let none = get_mesh_from_tree(&tree, &options(AcrossMetric::Time, DataChoices::Duration, 0, 0, 10));
    assert!(none.verts.is_empty());
    let outside = get_mesh_from_tree(&tree, &options(AcrossMetric::Time, DataChoices::Duration, 3, 100, 200));
    assert!(outside.verts.is_empty() && outside.colors.is_empty());
}

#[test]
fn overview_across_threads() {
    let tree = grow_master_tree(&vec![trace("a", &[], 0, 4, 1, 0), trace("a", &[], 0, 6, 3, 1)]);
    let mesh = get_mesh_from_tree(&tree, &options(AcrossMetric::Thread, DataChoices::Value, 2, 0, 0));
    assert_eq!(mesh.verts.len(), 72);
    assert_eq!(mesh.verts[0], v(q(-96 * 3, 300), Coord::Level { depth: 2 }, q(-180, 200)));
    assert_eq!(mesh.verts[35], v(q(190 - 288, 300), Coord::Level { depth: 3 }, q(0, 200)));
    assert_eq!(mesh.verts[71], v(q(570 - 288, 300), Coord::Level { depth: 3 }, q(180, 200)));
}
