//! In-memory data model for reflexion-model conformance analysis.
//!
//! The model holds two parallel views of a software system — an intended
//! `Architecture` structure and an observed `Implementation` structure —
//! plus a derived `Propagated` view that lifts implementation facts up to
//! the architecture level. A separate comparison engine reads the graph,
//! classifies each architecture-level relationship, and records its
//! conclusions in the state vocabulary defined here.

pub mod types;
pub mod state;
pub mod graph;
