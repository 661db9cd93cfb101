//! Optimization middle tier of a small compiler over a flat, register-named
//! three-address IR: basic-block segmentation, CFG construction, a
//! reaching-definitions dataflow analysis, dominance information, and local
//! per-block optimization (value numbering, constant folding, dead code
//! elimination).

pub mod types;
pub mod lvn;
pub mod cfg;
pub mod graph;
pub mod sets;
pub mod dataflow;
pub mod global;
