//! A warehouse of build artifacts, kept per repository and commit.

pub mod audit_laws;
pub mod clean;
pub mod cli;
pub mod laws;
pub mod model;
pub mod paths;
pub mod query;
pub mod report;
pub mod store;
pub mod text;
