//! LUT text formats the engine can ingest.

pub mod cube;

pub use cube::parse as cube;
