//! Search: the query language, fuzzy matching for the quick switcher.
pub mod engine;
pub mod fuzzy;
pub mod plan;
pub mod query;
