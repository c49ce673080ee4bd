//! Drop tracking for Torchlight Infinite game logs: finding the drop blocks in the log,
//! parsing their structured text into records, picking out the items picked up, and
//! keeping per-item tallies across chunks of the log; with the decisions of the log
//! watcher and of the configuration server around it.

pub mod text;
pub mod value;
pub mod numeral;
pub mod order;
pub mod log_tree;
pub mod log_parser;
pub mod counts;
pub mod drop;
pub mod process;
pub mod log_watcher;
pub mod log_path;
pub mod config;
pub mod json_merge;
