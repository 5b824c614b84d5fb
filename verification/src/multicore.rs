//! What is kept once per core.

pub mod local;
