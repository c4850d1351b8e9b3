use metaflame::color::color_from_scheme;
use metaflame::view::fetch_nth_colored_node;
use metaflame::{
    build_thread_tree, build_time_tree, fetch_nth_node, grow_master_tree, Color, ColorScheme, MasterNode, Node,
    Stackframe, Trace,
};

fn trace(name: &str, stack: &[&str], start: u64, dur: u64, value: u64, tid: usize) -> Trace {
    Trace {
        id: 0,
        name: name.to_string(),
        stack: stack.iter().map(|s| Stackframe { name: s.to_string() }).collect(),
        start,
        dur,
        value,
        tid,
    }
}

fn sample_traces() -> Vec<Trace> {
    vec![
        trace("leaf", &["mid", "top"], 0, 10, 5, 0),
        trace("mid", &["top"], 20, 30, 7, 0),
        trace("other", &["top"], 60, 20, 3, 1),
    ]
}

fn child<'a>(n: &'a MasterNode, name: &str) -> &'a MasterNode {
    n.children.iter().find(|c| c.name == name).unwrap()
}

fn same_view(a: &Node, b: &Node) -> bool {
    a.name == b.name
        && a.values == b.values
        && a.offsets == b.offsets
        && a.color == b.color
        && a.children.len() == b.children.len()
        && a.children.iter().zip(b.children.iter()).all(|(x, y)| same_view(x, y))
}

#[test]
fn folds_traces_by_frame() {
    let tree = grow_master_tree(&sample_traces());
    assert_eq!(tree.color_scheme, ColorScheme::Rainbow);
    assert_eq!(tree.color_salt, 1);
    assert_eq!(tree.root.name, "root");
    assert!(tree.root.color.is_none());
    assert_eq!(tree.root.values.len(), 3);
    assert_eq!(tree.root.children.len(), 1);
    let top = child(&tree.root, "top");
    assert_eq!(top.values.len(), 3);
    let names: Vec<&str> = top.children.iter().map(|c| c.name.as_str()).collect();
    assert_eq!(names, vec!["mid", "other"]);
    let mid = child(top, "mid");
    assert_eq!(mid.values.len(), 2);
    assert_eq!(mid.values[1].start, 20);
    assert_eq!(mid.values[1].thread, 0);
    let leaf = child(mid, "leaf");
    assert_eq!(leaf.values.len(), 1);
    assert_eq!(leaf.values[0].dur, 10);
    assert_eq!(leaf.color, Some(color_from_scheme(&"leaf".to_string(), ColorScheme::Rainbow, 1)));
}

#[test]
fn add_trace_reuses_and_creates_nodes() {
    let mut tree = grow_master_tree(&sample_traces());
    tree.add_trace(&trace("leaf", &["mid", "top"], 90, 1, 1, 0));
    tree.add_trace(&trace("new", &[], 95, 1, 1, 0));
    assert_eq!(tree.root.children.len(), 2);
    assert_eq!(tree.root.values.len(), 5);
    let leaf = child(child(child(&tree.root, "top"), "mid"), "leaf");
    assert_eq!(leaf.values.len(), 2);
    assert_eq!(tree.root.children[1].name, "new");
}

#[test]
fn modify_color_reaches_every_match() {
    let mut traces = sample_traces();
    traces.push(trace("mid", &[], 0, 1, 1, 0));
    let mut tree = grow_master_tree(&traces);
    let c = Color { r: 1, g: 2, b: 3, a: 4, scale: 5 };
    tree.modify_color("mid".to_string(), c);
    let top_mid = child(child(&tree.root, "top"), "mid");
    assert_eq!(top_mid.color, Some(c));
    assert_eq!(child(&tree.root, "mid").color, Some(c));
    assert_ne!(child(&tree.root, "top").color, Some(c));
    assert_ne!(child(top_mid, "leaf").color, Some(c));
    tree.add_trace(&trace("mid", &["other", "top"], 0, 1, 1, 0));
    let fresh = child(child(child(&tree.root, "top"), "other"), "mid");
    assert_eq!(fresh.color, Some(color_from_scheme(&"mid".to_string(), ColorScheme::Rainbow, 1)));
    assert_ne!(fresh.color, Some(c));
}

#[test]
fn modify_color_includes_the_root() {
    let mut tree = grow_master_tree(&sample_traces());
    let c = Color { r: 9, g: 8, b: 7, a: 6, scale: 10 };
    tree.modify_color("root".to_string(), c);
    assert_eq!(tree.root.color, Some(c));
    assert_ne!(child(&tree.root, "top").color, Some(c));
}

#[test]
fn colored_nodes_in_breadth_first_order() {
    let traces = vec![trace("c", &["a"], 0, 1, 0, 0), trace("b", &[], 0, 1, 0, 0)];
    let mut tree = grow_master_tree(&traces);
    let view = build_time_tree(&tree, 0..10);
    let first = fetch_nth_colored_node(&view, 0).map(|(d, n)| (d, n.name.clone()));
    assert_eq!(first, Some((1, "a".to_string())));
    assert_eq!(fetch_nth_colored_node(&view, 2).map(|(_, n)| n.name.clone()), Some("c".to_string()));
    assert!(fetch_nth_colored_node(&view, 3).is_none());
    tree.new_color_scheme();
    let view = build_time_tree(&tree, 0..10);
    assert_eq!(fetch_nth_colored_node(&view, 0).map(|(d, n)| (d, n.name.clone())), Some((0, "root".to_string())));
    assert_eq!(fetch_nth_colored_node(&view, 3).map(|(_, n)| n.name.clone()), Some("c".to_string()));
}

#[test]
fn new_color_scheme_recolors_everything() {
    let mut tree = grow_master_tree(&sample_traces());
    tree.color_scheme = ColorScheme::Ice;
    tree.color_salt = 4;
    tree.new_color_scheme();
    assert_eq!(tree.root.color, Some(color_from_scheme(&"root".to_string(), ColorScheme::Ice, 4)));
    let top = child(&tree.root, "top");
    assert_eq!(top.color, Some(color_from_scheme(&"top".to_string(), ColorScheme::Ice, 4)));
    let leaf = child(child(top, "mid"), "leaf");
    assert_eq!(leaf.color, Some(color_from_scheme(&"leaf".to_string(), ColorScheme::Ice, 4)));
}

#[test]
fn time_tree_offsets_follow_siblings() {
    let tree = grow_master_tree(&sample_traces());
    let view = build_time_tree(&tree, 0..100);
    assert_eq!(view.time_range, 0..100);
    let root = &view.root;
    assert_eq!((root.values.dur, root.values.value), (60, 15));
    assert_eq!((root.offsets.dur, root.offsets.value), (0, 0));
    let top = &root.children[0];
    assert_eq!(top.name, "top");
    assert_eq!((top.values.dur, top.values.value), (60, 15));
    assert_eq!(top.children.len(), 2);
    let mid = &top.children[0];
    let other = &top.children[1];
    assert_eq!((mid.values.dur, mid.values.value), (40, 12));
    assert_eq!((mid.offsets.dur, mid.offsets.value), (0, 0));
    assert_eq!(other.name, "other");
    assert_eq!((other.values.dur, other.values.value), (20, 3));
    assert_eq!((other.offsets.dur, other.offsets.value), (40, 12));
    assert_eq!((mid.children[0].offsets.dur, mid.children[0].offsets.value), (0, 0));
}

#[test]
fn time_tree_prunes_nodes_outside_range() {
    let tree = grow_master_tree(&sample_traces());
    let view = build_time_tree(&tree, 25..45);
    let top = &view.root.children[0];
    assert_eq!((top.values.dur, top.values.value), (20, 0));
    assert_eq!(top.children.len(), 1);
    let mid = &top.children[0];
    assert_eq!(mid.name, "mid");
    assert_eq!(mid.children.len(), 0);
}

#[test]
fn empty_time_tree_is_placeholder() {
    let tree = grow_master_tree(&sample_traces());
    let view = build_time_tree(&tree, 200..300);
    assert_eq!(view.root.name, "root");
    assert_eq!((view.root.values.dur, view.root.values.value), (0, 0));
    assert!(view.root.children.is_empty());
    assert!(view.root.color.is_none());
    let none = grow_master_tree(&vec![]);
    assert!(build_time_tree(&none, 0..10).root.children.is_empty());
}

#[test]
fn thread_tree_keeps_every_node() {
    let tree = grow_master_tree(&sample_traces());
    let view = build_thread_tree(&tree, 1);
    assert_eq!(view.time_range, 0..0);
    assert_eq!((view.root.values.dur, view.root.values.value), (20, 3));
    let top = &view.root.children[0];
    assert_eq!(top.children.len(), 2);
    let mid = &top.children[0];
    assert_eq!((mid.values.dur, mid.values.value), (0, 0));
    assert_eq!(mid.children.len(), 1);
    assert_eq!((top.children[1].offsets.dur, top.children[1].values.dur), (0, 20));
}

#[test]
fn rebuilding_gives_identical_trees() {
    let tree = grow_master_tree(&sample_traces());
    let a = build_time_tree(&tree, 5..70);
    let b = build_time_tree(&tree, 5..70);
    assert!(same_view(&a.root, &b.root));
    let c = build_thread_tree(&tree, 0);
    let d = build_thread_tree(&tree, 0);
    assert!(same_view(&c.root, &d.root));
}

#[test]
fn nth_node_is_breadth_first() {
    let traces = vec![trace("c", &["a"], 0, 1, 0, 0), trace("b", &[], 0, 1, 0, 0)];
    let tree = grow_master_tree(&traces);
    let view = build_time_tree(&tree, 0..10);
    let names: Vec<(usize, String)> =
        (0..4).map(|i| fetch_nth_node(&view, i).map(|(d, n)| (d, n.name.clone())).unwrap()).collect();
    assert_eq!(
        names,
        vec![(0, "root".to_string()), (1, "a".to_string()), (1, "b".to_string()), (2, "c".to_string())]
    );
    assert!(fetch_nth_node(&view, 4).is_none());
}

fn within(n: &Node) -> bool {
    let d: u64 = n.children.iter().map(|c| c.values.dur).sum();
    let v: u64 = n.children.iter().map(|c| c.values.value).sum();
    d <= n.values.dur && v <= n.values.value && n.children.iter().all(within)
}

#[test]
fn children_stay_within_parent() {
    let mut traces = sample_traces();
    traces.push(trace("top", &[], 5, 50, 4, 1));
    let tree = grow_master_tree(&traces);
    for range in [0..100, 25..45, 5..70, 0..1] {
        assert!(within(&build_time_tree(&tree, range).root));
    }
    for t in 0..3 {
        assert!(within(&build_thread_tree(&tree, t).root));
    }
    let view = build_time_tree(&tree, 0..100);
    let top = &view.root.children[0];
    let kids: u64 = top.children.iter().map(|c| c.values.dur).sum();
    assert_eq!((kids, top.values.dur), (60, 110));
}
