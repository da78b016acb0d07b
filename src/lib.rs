//! The reconciliation core of a data-pipeline framework's command line: plans the changes
//! that take the observed infrastructure (tables, topics, workers, routes) to the desired
//! one, and keeps the route table, the process registries and the pass scheduling coherent.

pub mod aggregation;
pub mod infra;
pub mod lines;
pub mod model;
pub mod orchestrator;
pub mod plan;
pub mod reconcile;
pub mod registry;
pub mod routes;
pub mod routines;
pub mod schema;
pub mod versions;
