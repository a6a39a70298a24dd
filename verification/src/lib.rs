//! Release-management helpers for a package-manager repository: parsing
//! version-control commit logs into pull-request records, bumping a
//! semantic version, regenerating changelog sections, and deciding which
//! pull requests still need a release milestone.

pub mod auth;
pub mod changelog;
pub mod date;
pub mod logparse;
pub mod milestone;
pub mod repo;
pub mod text;
pub mod version;

pub use logparse::{commits_in_log, commits_in_log_strict};

