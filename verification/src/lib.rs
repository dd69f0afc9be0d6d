//! Per-platform feature analysis for a package dependency graph.
//!
//! Given, for each target platform, the set of optional features that every
//! package enables on that platform, this library computes a compact,
//! deterministic description per package: the features enabled on every
//! platform, plus groups of features tied to identical platform subsets.
//!
//! The pipeline: `line` parses one dependency-tree record, `catalog` resolves
//! it against the known packages, `runner` folds one platform's records into
//! a package-to-features map, `transpose` inverts the nesting, `consolidate`
//! computes the canonical common and targeted feature lists, and `features`
//! orchestrates the whole analysis.

pub mod catalog;
pub mod consolidate;
pub mod error;
pub mod features;
pub mod line;
pub mod order;
pub mod runner;
pub mod transpose;
pub mod version;
