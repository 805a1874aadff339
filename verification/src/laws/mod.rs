//! What the parts of the library promise together, stated over what goes in and
//! what comes out.
pub mod answers;
pub mod browsing;
pub mod commands;
pub mod events;
pub mod files;
pub mod filtering;
pub mod json_values;
pub mod lake_queries;
pub mod listing;
pub mod moving;
pub mod names;
pub mod pressing;
pub mod reading;
pub mod searching;
pub mod selecting;
pub mod sorting;
pub mod tables;
pub mod typing;
pub mod values;
pub mod viewing;
pub mod writing;
