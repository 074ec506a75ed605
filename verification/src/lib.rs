//! Story-structure projects: built-in structure templates, projects
//! derived from them, the beat editor's key handling and the text that the
//! exporters write.

pub mod text;
pub mod models;
pub mod registry;
pub mod exporters;
pub mod editor;
pub mod wizard;
