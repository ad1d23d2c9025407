//! A repository-structure analysis engine: builds a dependency graph from
//! extracted symbol records and reference facts, detects circular
//! dependencies, computes a deterministic processing order, and derives
//! architectural insights.

pub mod component;
pub mod doc;
pub mod graph;
pub mod insights;
pub mod mapper;
pub mod render;
pub mod responses;
pub mod scc;
pub mod sorting;
pub mod strid;
pub mod topo;
