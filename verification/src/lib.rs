//! Dependency-tree resolution for Mach-O binaries: candidate paths for each
//! recorded reference, the filters applied to references, and the traversal
//! that turns probe and load results into an indented listing.

pub mod filters;
pub mod guarantees;
pub mod loader;
pub mod paths;
pub mod refinement;
pub mod report;
pub mod text;
pub mod tree;
pub mod walker;
