//! Inner Empire core: the vault's naming rules, the Markdown extensions, link
//! resolution and the search language, with their contracts.
pub mod error;
pub mod strings;
pub mod digest;
pub mod vault;

pub use error::{CoreError, Diagnostic, Result, Severity};
pub mod links;
pub mod model;
pub mod markdown;
pub mod search;
pub mod index;
pub mod events;
pub mod templates;
pub mod recovery;
pub mod logging;
pub mod session;
pub mod export;
pub mod workspace;
