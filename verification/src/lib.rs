//! Version-constraint consistency across a repository's manifests.
//!
//! The library reads manifest contents, models every version constraint
//! it understands as a union of intervals over a semantic version, and
//! reports where one dependency is constrained inconsistently.

pub mod text;
pub mod version;
pub mod interval;
pub mod grammar;
pub mod heuristics;
pub mod parser;
pub mod order;
pub mod compare;
pub mod document;
pub mod scan;
pub mod discover;
pub mod cli;
pub mod mcp;
