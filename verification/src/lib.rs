//! Inventory and consolidation of locally running SSH authentication agents.
//!
//! The crate reconciles two independently sampled views of the system — a
//! filesystem scan of agent socket directories and a snapshot of the process
//! table — into one classified inventory of agents, and applies deterministic
//! consolidation policies to the live subset. All external effects (directory
//! reads, process listing, probing and killing agents) happen outside this
//! crate; the functions here are pure computations over explicit snapshots.

pub mod agent;
pub mod cli;
pub mod text;
