//! A simulation of a dynamic directed graph of charge-carrying nodes joined by
//! pulse-propagating edges. Each tick runs five ordered phases: propagate,
//! consume, decay, assimilate, and cooldown with health pruning. Unreliable
//! edges lose health and are pruned; growth wires new edges onto
//! under-connected nodes without ever duplicating an unordered pair.

pub mod arith;
pub mod edge;
pub mod grow;
pub mod laws;
pub mod node;
pub mod pairs;
pub mod web;
pub mod rng;
pub mod step;
