//! Deterministic dependency resolution with source-identity virtualization.
//!
//! Given a set of root dependencies, one or more package registries (each
//! optionally presented under a virtual "alternate registry" identity), and
//! an optional previous lock, the library resolves one version per package
//! slot with a backtracking constraint solver and renders the result as a
//! deterministic lockfile.

pub mod bytes;
pub mod config;
pub mod index;
pub mod lock;
pub mod model;
pub mod query;
pub mod resolve;
pub mod version;
pub mod wrap;
