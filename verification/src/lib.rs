//! Package management for a game-server mod ecosystem: version-constraint
//! resolution against a release registry, classification of distributable
//! artifacts, workspace-aware placement planning, and reconciliation of the
//! lock file with the legacy plugin configuration.

pub mod build;
pub mod cache;
pub mod package;
pub mod result;
pub mod text;
