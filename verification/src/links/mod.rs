//! Links between notes: the grammar inside `[[ ]]` and keeping links correct
//! across renames.
pub mod reference;
pub mod rename;
pub mod resolver;
