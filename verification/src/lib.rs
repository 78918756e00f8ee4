//! Closed-world analysis of public Rust surface.
//!
//! The library merges the graph fragments that a compiler wrapper records for
//! every compiled workspace crate, computes production and non-production
//! reachability together with the visibility that compiled code requires, and
//! reports public or restricted declarations whose visibility can shrink.

pub mod model;
pub mod protocol;
pub mod text;
pub mod closure;
mod intern;
mod classify;
pub mod scope;
pub mod scope_flow;
pub mod walk;
pub mod semantics;
mod numbering;
mod resolve;
mod graphs;
mod liveness;
mod visibility;
mod scoping;
mod verdict;
mod identity;
mod report;
mod order;
pub mod graph;
pub mod driver;
pub mod properties;
pub mod config;
pub mod lint;
pub mod render;
pub mod invocation;
pub mod fixing;
pub mod outcome;
pub mod workspace;
pub mod policy;
