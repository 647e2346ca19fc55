//! An embedded, in-process relational object store with referential-integrity
//! enforcement and delta-based incremental query evaluation.
//!
//! Rows are kept in persistent (structurally shared) ordered maps so that a
//! store can be snapshotted in O(1) and two snapshots diffed cheaply; foreign
//! keys are validated before every mutation and inverted into relationship
//! indices; deletions apply declared delete rules (deny / nullify / cascade)
//! atomically; and query results can be maintained incrementally from
//! row-level deltas.

pub mod changes;
pub mod circuit;
pub mod error;
pub mod ids;
pub mod pmap;
pub mod row;
pub mod schema;
pub mod store;
pub mod table;
