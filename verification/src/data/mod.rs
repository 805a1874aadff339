//! Reading, indexing, editing and writing tables.
pub mod budget;
pub mod catalog;
pub mod documents;
pub mod edit;
pub mod index;
pub mod job;
pub mod json;
pub mod json_edits;
pub mod json_file;
pub mod json_path;
pub mod json_read_back;
pub mod json_writer;
pub mod jsonl;
pub mod key_set;
pub mod lake_db;
pub mod lake_values;
pub mod loader;
pub mod natural;
pub mod ordered;
pub mod page;
pub mod read_back;
pub mod rows;
pub mod save;
pub mod scan;
pub mod shown;
pub mod span;
pub mod store;
pub mod typed;
pub mod writer;
