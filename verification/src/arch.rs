//! Architecture back-ends.

pub mod x86_64;
