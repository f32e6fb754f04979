//! Key-binding configuration editing for a fighting game's `button_config.ini`.

pub mod config;
pub mod text;
pub mod keys;
pub mod studio;
pub mod laws;
