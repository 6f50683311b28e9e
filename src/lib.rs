//! A computation-graph executor: tasks are nodes of a dependency graph, the
//! graph is checked for cycles, and the tasks run once each, in dependency
//! order.

pub mod graph;
pub mod node;
pub mod idset;
pub mod dag;
pub mod visit;
pub mod task;
pub mod execution;
pub mod flow;
