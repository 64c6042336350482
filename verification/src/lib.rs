//! Verified core of a multi-device clock synchronisation and media sorting tool.
pub mod command_pool;
pub mod data;
pub mod state;
pub mod text;
pub mod updater;
pub mod util;
pub mod val_hold;
pub mod tasks;
