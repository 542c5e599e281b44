//! Verified core of a course-catalog extraction pipeline.
//!
//! The library turns the catalog vendor's semi-structured markup into
//! structured course records, and derives a prerequisite graph from the
//! records.  Network transport, persistence and rendering live outside the
//! library; everything here is pure computation with proved contracts.

pub mod course;
pub mod graph;
pub mod parse;
pub mod retry;
pub mod text;

