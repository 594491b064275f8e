//! Discovers which files of a tracked codebase tend to change together.
//!
//! A stream of change deltas (one per revision, or one per merged time
//! bucket) is folded into a coupling index; a calculator then derives, for
//! every pair of files that ever changed in the same unit, a coupling
//! statistic with exact counts.

pub mod change_delta;
pub mod changed_file;
pub mod changed_file_path;
pub mod cli;
pub mod commit;
pub mod commits;
pub mod coupling;
pub mod delta;
pub mod errors;
pub mod file_name;
pub mod filters;
pub mod hash;
pub mod repository;
pub mod statistics;
pub mod text;
