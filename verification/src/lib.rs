//! The decision core of a page-first web browser.

pub mod app;
pub mod archive;
pub mod capture;
pub mod chords;
pub mod db;
pub mod deeplink;
pub mod extensions;
pub mod fractional_index;
pub mod hotkeys;
pub mod incognito;
pub mod ipc_types;
pub mod json;
pub mod palette;
pub mod platform;
pub mod pool;
pub mod rank;
pub mod search;
pub mod sessions;
pub mod settings;
pub mod tabs;
pub mod text;
pub mod view;
pub mod windows;
