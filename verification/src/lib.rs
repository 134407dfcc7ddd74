//! A frecency database for directory navigation: visited directories are
//! ranked by how often and how recently they were entered, persisted in a
//! versioned binary file, and matched against keyword queries.

pub mod aging;
pub mod bridge;
pub mod codec;
pub mod commands;
pub mod entry;
pub mod error;
pub mod query;
pub mod ranking;
pub mod store;
pub mod text;
