//! Derives packaging metadata from a dependency lockfile: an RPM-safe
//! `Provides:` line for every bundled package, and one aggregate `License:`
//! line built from the normalized, deduplicated licenses of the vendored
//! packages.
//!
//! The crate holds the logic only. Reading the lockfile, the per-package
//! manifests and the command line is left to the surrounding program, which
//! hands in plain records and prints the lines this crate produces.

pub mod license;
pub mod report;
pub mod text;
pub mod version;
