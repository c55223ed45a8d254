//! What is kept on record, row by row.

pub mod bookmarks;
pub mod history;
pub mod migrations;
pub mod quick_launch;
pub mod tabs_repo;
