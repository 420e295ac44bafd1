//! Zcash Digishield difficulty adjustment, with the block-window bookkeeping of a
//! solvetime simulator built around it.
pub mod digishield;
pub mod laws;
pub mod config;
pub mod simulation;
pub mod plotting;
pub mod report;
