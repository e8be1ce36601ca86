//! Planning of bounded walks over a square grid of recovering rewards.
//!
//! A walk collects the reward of every cell that it visits; a collected
//! reward drops to 0, and at every step the rewards of all other cells
//! recover by a fixed rate. Three strategies plan a walk of a given number of
//! steps from a start cell:
//!
//! - [`Graph::path_planning_bfs`], the greedy walker;
//! - [`Graph::lp`], the exact edge-flow planner;
//! - [`Graph::path_planning_lp`], the exact time-indexed planner.
//!
//! The two exact planners build a linear program and hand it to a solver;
//! [`planner::plan`] runs any of the three.

pub mod dynamics;
pub mod edge_flow;
pub mod flow_model;
pub mod greedy;
pub mod grid;
pub mod loader;
pub mod path;
pub mod planner;
pub mod program;
pub mod sequences;
pub mod solver;
pub mod subgraph;
pub mod time_indexed;
pub mod time_model;

pub use grid::{Graph, Position};
pub use loader::GridError;
pub use path::{PathfindingResult, PathfindingStep};
pub use planner::{plan, Strategy};
pub use program::PlanningError;
