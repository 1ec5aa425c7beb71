//! Packs the source files of a project into a sequence of size-bounded text
//! parts.
//!
//! A part is a run of blocks, one for each file: a header line with the
//! file's path, the file's bytes, and two line terminators. Files are taken
//! in a fixed order and never split. A part is closed when the next block
//! would take it over the line budget; a file whose block meets or exceeds
//! the budget gets a part of its own.
//!
//! The library decides and formats; it reads and writes no file. A caller
//! lists the tree, hands the listing to [`collector::collect_files`], counts
//! the lines of each file with [`lines::LineCounter`], and either packs all
//! at once with [`Snapshotter::run`] or file by file with
//! [`writer::PackingEngine`], which says for each block into which part it
//! goes.
//!
//! - [`packing`]: the packing rule as mathematics, and what holds of it
//! - [`writer`]: the engine that packs, and [`Snapshotter`]
//! - [`collector`]: which files are wanted, and their order
//! - [`order`], [`path`]: the order of names and paths
//! - [`lines`], [`utils`]: counting lines, relative paths
//! - [`block`]: the bytes of a part, and why a block costs what it costs
//! - [`text`], [`report`]: file names, headers, the summary report
//! - [`config`], [`error`], [`types`]: settings, errors, results

pub mod block;
pub mod collector;
pub mod config;
pub mod error;
pub mod lines;
pub mod order;
pub mod packing;
pub mod path;
pub mod report;
pub mod text;
pub mod types;
pub mod utils;
pub mod writer;

pub use crate::config::SnapshotConfig;
pub use crate::error::SnapshotError;
pub use crate::types::{PartSummary, SnapshotResult};
pub use crate::writer::Snapshotter;
