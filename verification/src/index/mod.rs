//! The vault index: the derived data about notes, and the rules that turn
//! what a writer wrote into the file they meant. Every table can be
//! reconstructed from the Markdown files.
pub mod db;
pub mod graph;
pub mod indexer;
pub mod queries;
pub mod resolve;
pub mod scan;
pub mod writer;

pub use db::OpenOutcome;
pub use indexer::{EventOutcome, IgnoreRules, IndexProgress, ScanReport};
pub use queries::{GraphOptions, UnresolvedTarget};
pub use resolve::Resolution;
