//! Window-discovery layer of a desktop dock: environment detection, four
//! compositor backends, a shared window registry with fuzzy lookup, and the
//! pure decision logic of the polling scheduler.

pub mod text;
pub mod registry;
pub mod json;
pub mod backends;
pub mod detect;
pub mod desktop_entry;
pub mod process_tracker;
pub mod drive_monitor;
pub mod recent_files;
pub mod config;
pub mod running_apps;
