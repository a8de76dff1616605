//! Verified core of an upstream-binaries package manager.
mod text;
pub mod version_order;
pub mod versions;
pub mod git;
pub mod github;
pub mod repo;
pub mod base;
pub mod runner;
