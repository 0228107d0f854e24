//! A clickable, filterable file tree for the Kakoune editor: the tree model,
//! its flattening under a filter, the application state machine and the
//! computations behind what the terminal shows.
pub mod text;
pub mod fspath;
pub mod tree;
pub mod git;
pub mod kak;
pub mod app;
pub mod input;
pub mod view;
pub mod laws;
