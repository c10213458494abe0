//! claimdag: compare-and-swap claim and complete over a dependency DAG.
//!
//! One in-process graph, one mutator. Identity is a 128-bit [`WorkId`];
//! kind, status and role are closed enums; the summary is the only open
//! text field.

pub mod text;
pub mod id;
pub mod work;
pub mod sort;
pub mod model;
pub mod depth;
pub mod graph;
pub mod snap;
pub mod laws;
pub mod handles;
pub mod forest;
pub mod pane;
pub mod seat;
pub mod cli;
pub mod args;
pub mod prompts;
pub mod json;

pub use graph::{Absent, WorkGraph, DEFAULT_LEASE_SECS, SNAP_FILE};
pub use id::{mint_work_id, WorkId};
pub use snap::{SNAP_BIN, SNAP_JSON_V0};
pub use work::{WorkFields, WorkKind, WorkLedgerEntry, WorkNode, WorkRole, WorkStatus};
