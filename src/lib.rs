//! Aggregation of timed call-stack samples into a call tree, per-view
//! extraction of that tree, and exact geometry for rendering it.
use vstd::prelude::*;

pub mod color;
pub mod geometry;
pub mod master;
pub mod options;
pub mod overlap;
pub mod trace;
pub mod view;

pub use color::{color_from_scheme, Color, ColorScheme};
pub use geometry::{get_mesh_from_tree, get_rects_from_tree, Coord, Mesh, Vertex};
pub use master::{grow_master_tree, MasterNode, MasterTree};
pub use options::{AcrossMetric, DataChoices, MeshOptions};
pub use trace::{get_info, trace_zero, Stackframe, Trace, TraceValues, TreeInfo};
pub use view::{build_thread_tree, build_time_tree, fetch_nth_node, Node, Tree};

verus! {

} // verus!
