//! Target selection for directed fuzzing of monolithic firmware: a store of
//! per-function facts, complexity classes, a composite vulnerability score and
//! the choice of one target per class.
pub mod analysis;
pub mod cli;
pub mod grouping;
pub mod laws;
pub mod ranking;
pub mod score;
pub mod scoring;
pub mod sensitive;
pub mod store;
