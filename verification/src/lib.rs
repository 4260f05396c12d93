//! A node-local observability and remediation core for accelerator clusters.
//!
//! The library keeps an in-memory causal graph of processes, resources and
//! errors, fed by a stream of telemetry events.  Around the graph it offers
//! the pieces a daemon needs: a bounded event buffer, a declarative rule
//! matcher, a remediation planner, length-prefixed RPC framing, the edge
//! roll-up filter that decides which events travel to the cluster hub, and
//! the translator that turns irreversible hardware faults into quarantine
//! requests.  Every function here is verified; the surrounding I/O lives
//! outside the crate.

pub mod action;
pub mod audit;
pub mod diag;
pub mod event;
pub mod graph;
pub mod hub;
pub mod probe;
pub mod quarantine;
pub mod rollup;
pub mod rpc;
pub mod scene;
pub mod rules;
pub mod strutil;
