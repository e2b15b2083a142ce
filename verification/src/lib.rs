//! Computes, for a set of named sample panels, the population prevalence of
//! genomic variant calls that pass quality thresholds, and builds a
//! per-variant table of prevalence ratios across panels.

pub mod parse;
pub mod record;
pub mod tally;
pub mod aggregate;
pub mod report;
pub mod run;
pub mod laws;
