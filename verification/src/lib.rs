//! An incremental dataflow execution engine: an immutable, versioned
//! graph-execution state together with the algorithm that, each tick, decides
//! which computation nodes are ready, runs them through a host-supplied
//! backend, and propagates or evicts values.

pub mod ids;
pub mod im_api;
pub mod operation;
pub mod seq_util;
pub mod text;
pub mod telemetry;
pub mod cells;
pub mod md;
pub mod code_cell;
pub mod graph_export;
pub mod execution_state;
