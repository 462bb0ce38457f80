//! A verified presentation model for a process monitor: snapshots of
//! processes, applications and services are reconciled into a long-lived,
//! identity-stable tree of nodes, with grouping heuristics, aggregated
//! usage statistics, and a filter/sort pipeline layered on top.

pub mod actions;
pub mod columns;
pub mod filter;
pub mod grouping;
pub mod laws;
pub mod node;
pub mod pages;
pub mod reconcile;
pub mod snapshot;
pub mod settings_keys;
pub mod sort;
pub mod summary;
pub mod stats;
pub mod text;
