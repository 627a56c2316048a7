//! The vault: a plain folder the user owns, plus the small amount of app
//! state that travels with it.
pub mod attachments;
pub mod fileops;
pub mod path;
pub mod settings;
pub mod trash;
pub use path::{sanitize_segment, validate_segment, VaultPath, APP_DIR};
