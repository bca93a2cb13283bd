//! A replicated, strongly consistent metadata catalog.
//!
//! A deterministic catalog state machine (databases, tables, cluster members)
//! is driven by a consensus engine that elects a leader, replicates a log of
//! commands to a majority, and applies committed entries in index order. A
//! request router accepts catalog requests at any node and forwards them to
//! the leader, so a client connected to any node observes one consistent view.

pub mod array_logic;
pub mod catalog;
pub mod client;
pub mod cluster;
pub mod command;
pub mod consensus;
