//! Repository structure analysis.
//!
//! From the files of a source tree and the commits of its history this
//! library makes a report: the lines in all, the lines per language, and a
//! forest of directories in which each directory carries the lines of the
//! files that lie directly in it, its languages, and its age in days.
//!
//! The library reads no file and no repository. Its caller walks the tree
//! and the history and hands over what it saw as plain values; see
//! [`analysis::RepoSnapshot`].
//!
//! - [`language`]: the table of extensions, languages and colors.
//! - [`paths`]: paths as text, and the rule of what a walk leaves out.
//! - [`stats`], [`walk`]: line counts per language and per directory.
//! - [`breakdown`]: the languages of a scope, largest first.
//! - [`history`]: commits, and the age of a path among them.
//! - [`tree`], [`forest_laws`], [`forest_sums`]: the directory forest, and
//!   what holds of it.
//! - [`analysis`]: one analysis from start to end.
//! - [`order`], [`text`], [`models`], [`error`]: what the others share.

pub mod analysis;
pub mod breakdown;
pub mod error;
pub mod forest_laws;
pub mod forest_sums;
pub mod history;
pub mod language;
pub mod models;
pub mod order;
pub mod paths;
pub mod stats;
pub mod text;
pub mod tree;
pub mod walk;
