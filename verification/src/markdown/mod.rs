//! Markdown: parsing, rendering and source transformation.
pub mod text;
pub mod scanner;
pub mod yaml;
pub mod frontmatter;
pub mod properties;
pub mod parser;
pub mod transform;
pub mod render;
