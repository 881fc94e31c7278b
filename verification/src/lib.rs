//! Exchange-rate tables for a static currency API: merging EUR-based rate
//! sources, deriving cross rates for every currency, and planning the
//! files that are published.
pub mod text;
pub mod code_map;
pub mod normalize;
pub mod config;
pub mod sources;
pub mod generate;
