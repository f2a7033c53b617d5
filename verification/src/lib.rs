//! Synchronous reachability graphs of modular Petri nets.
//!
//! A modular Petri net is a collection of Petri net modules that communicate
//! only through shared interface transitions, which fire when every module
//! that references them enables them at the same time.  This crate builds the
//! two-level reachability graph of such a net: per-module segments of markings
//! closed under internal-transition firing, and a top-level sync graph whose
//! nodes record which segment each module currently occupies.

pub mod net;
pub mod marking;
pub mod kernel;
pub mod graph;
pub mod explore;
pub mod builder;
pub mod transform;
pub mod parse;
