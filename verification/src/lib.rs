//! Calling context trees built from Chrome trace events.
//!
//! A trace is a flat list of timestamped events. The events are gathered by
//! task, each task's events are put in chronological order, and a stack
//! machine turns them into a tree in which a node lies under another exactly
//! when its interval lies inside the other's.

pub mod application;
pub mod cct;
pub mod chunks;
pub mod json;
pub mod read;
pub mod sort;
pub mod text;
pub mod trace;
pub mod utils;

pub use application::{
    all_stops_fit, build_application_cct, build_application_trace, build_task_tree,
    try_build_application_cct, ApplicationCCT, ApplicationDiagnostics, ApplicationTrace, TaskId,
    TaskTable,
};
pub use cct::verify::{assert_cct_valid, covers, is_node1_parent_of_node2};
pub use cct::visualize::{build_visual_tree, visualize, visualize_tree, VisualNode, VisualTree};
pub use cct::model::Diagnostic;
pub use cct::{are_supported, is_chronological, is_supported, stop_fits, CCTMeta, CCTNode, CCT};
pub use sort::sort_by_timestamp;
pub use read::{chunk_size, collect_lines, header_len, read_chunk, Line};
pub use trace::{
    Category, Event, EventPhase, Id, PhaseGroup, ProcessId, Scope, TaskKind, ThreadId, Trace,
};
pub use utils::parse_hex_id;
