//! A database of the files of software packages, and its search.
//!
//! Each package has a store path and a tree of files. The database holds,
//! for every package, one record per file and then one record for the
//! package; the records are front-coded in blocks, and the blocks are
//! compressed behind a short header. A query names a pattern for the path
//! of a file and, if wanted, bounds on the package; its matches are the
//! files whose path matches, each with the package that owns it.
//!
//! - [`frcode`]: front coding of records in blocks.
//! - [`decimal`]: sizes as decimal digits.
//! - [`escape`]: paths without line feeds.
//! - [`files`]: files, their records, and the ordered tree of a package.
//! - [`json`]: JSON values, as `serde_json` reads and writes them.
//! - [`package`]: store paths and their JSON text.
//! - [`database`]: the file format, the writer and the reader.
//! - [`block`]: the lines of a decoded block and the owner of each.
//! - [`matcher`]: what is taken from the `regex` and `grep` crates.
//! - [`pattern`]: the pattern for records that belongs to a pattern for
//!   paths.
//! - [`query`]: the search itself, of a whole stream or of one that
//!   arrives chunk by chunk.
//! - [`locate`]: the decisions of the search tool.

pub mod block;
pub mod database;
pub mod decimal;
pub mod escape;
pub mod files;
pub mod frcode;
pub mod json;
pub mod locate;
pub mod matcher;
pub mod package;
pub mod pattern;
pub mod query;
