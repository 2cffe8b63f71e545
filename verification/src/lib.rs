//! Synchronization engine keeping an on-screen node graph consistent with a
//! backend-facing graph controller.
//!
//! The engine reconciles two independently evolving representations of a
//! program graph: the controller side, driven by asynchronous backend
//! notifications, and the view side, driven by direct user interaction.  Its
//! heart is a correlation store (the bidirectional id mapping plus cached
//! display attributes), an update planner that computes the minimal set of
//! view-mutation commands from a fresh controller snapshot, a dispatcher that
//! turns backend notifications into refresh triggers, and a placement
//! heuristic assigning default positions to unpositioned nodes.

use vstd::prelude::*;

pub mod backend_log;
pub mod dispatch;
pub mod graph;
pub mod ids;
pub mod laws;
pub mod placement;
pub mod plan;
pub mod provider;
pub mod snapshot;
pub mod state;

verus! {

/// The default X coordinate of a node whose metadata carries no position,
/// for instance a node created by editing program text directly.
pub const DEFAULT_NODE_X_POSITION: i64 = -100;

/// The default Y coordinate of a node whose metadata carries no position.
pub const DEFAULT_NODE_Y_POSITION: i64 = 200;

/// Default node position: the starting point for laying out nodes that have
/// no position recorded in their metadata.
pub fn default_node_position() -> (r: crate::ids::Position)
    ensures
        r.x == DEFAULT_NODE_X_POSITION,
        r.y == DEFAULT_NODE_Y_POSITION,
{
    crate::ids::Position { x: DEFAULT_NODE_X_POSITION, y: DEFAULT_NODE_Y_POSITION }
}

} // verus!
