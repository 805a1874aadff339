//! The program as a state that keys and events change.
pub mod catalog;
pub mod columns;
pub mod command;
pub mod dispatch;
pub mod editing;
pub mod find;
pub mod frame;
pub mod highlight;
pub mod keys;
pub mod motion;
pub mod reshape;
pub mod screen;
pub mod session;
pub mod values;
