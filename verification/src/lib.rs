//! plv reads, edits and writes large tables a page at a time.
pub mod app;
pub mod clipboard;
pub mod complete;
pub mod data;
pub mod description;
pub mod grammar;
pub mod lake;
pub mod laws;
pub mod layout;
pub mod picker;
pub mod search;
pub mod text;
pub mod ui;
pub mod view;
