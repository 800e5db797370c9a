//! The plain evaluators.

pub mod material;
