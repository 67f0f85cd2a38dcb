//! The vault: archive format, entries and the vault manager.
pub mod codec;
pub mod entry;
pub mod error;
pub mod manager;
pub mod properties;
pub mod table;
pub mod utils;
