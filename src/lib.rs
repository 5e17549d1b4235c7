//! Process-lifecycle tracking: a table of live processes, the reduction of a
//! process's ancestry into a short anomaly-aware label, and the decisions
//! taken on each exec and exit event.
pub mod text;
pub mod known;
pub mod info;
pub mod watcher;
