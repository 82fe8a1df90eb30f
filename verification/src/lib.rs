//! Core of a node-level container agent: an observed-state model, a planner
//! that diffs desired state against observed state, and a work-tree executor
//! model that reuses in-flight tasks across reconciliations.

pub mod config;
pub mod control;
pub mod plan;
pub mod state;
pub mod strmap;
pub mod tasks;
pub mod worktree;
