//! Verified core of a terminal viewer for a HAL configuration.

pub mod text;
pub mod hal;
pub mod tree;
pub mod num;
pub mod watch;
pub mod prefs;
pub mod state;
pub mod fmt;
pub mod keys;
pub mod control;
pub mod dialog;
pub mod view;
