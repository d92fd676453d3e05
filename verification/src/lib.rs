//! Checks and rewrites the two-line license notice at the top of source files:
//! a line with the SPDX identifier of the license, and a copyright line with
//! the years and the holder.
//!
//! - [`format`] knows the two comment styles and the lines of a notice,
//!   [`copyright`] the years and the holder of a copyright line.
//! - [`check`] checks the notice of a file's content and [`fix`] rewrites it.
//! - [`config`] maps glob patterns to holders and licenses, and [`cli`] finds
//!   the configuration that a command line names.
//! - [`runner`] schedules the files that the globs match, works on the
//!   content of one file, and makes the report of a run.
//! - [`notice_laws`], [`scan_laws`] and [`fix_laws`] prove what holds of the
//!   notice engine as a whole.
//!
//! The library reads and writes no file: callers hand in the content of a
//! file and the current year, which [`clock`] tells, and write back what
//! comes out.

pub mod check;
pub mod claims;
pub mod cli;
pub mod clock;
pub mod config;
pub mod copyright;
pub mod fix;
pub mod fix_laws;
pub mod format;
pub mod lines;
pub mod notice_laws;
pub mod order;
pub mod runner;
pub mod scan_laws;
pub mod text;

pub use check::{check_file, CheckError};
pub use cli::{config_from_cli, Cli, ConfigSource};
pub use config::{merge_file, try_find_default_config_file, Config, ConfigError};
pub use fix::{fix_file, FixError};
pub use format::Format;
pub use runner::{run, Failure};
