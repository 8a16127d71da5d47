//! Batch cleanup of build artifacts and unused dependencies: the decisions,
//! parsers and bookkeeping of a sweep over many projects.

pub mod text;
pub mod size;
pub mod scan;
pub mod deps;
pub mod cleaner;
pub mod summary;
