//! Verified core of Dodgin's UI mod: colour and settings handling, the
//! client's config and options readers, the keymap reader, the page reader
//! and importer, and what the installer writes and in which order.

pub mod text;
pub mod settings;
pub mod iff;
pub mod keymap;
pub mod cfg;
pub mod install;
pub mod xml;
pub mod import;
pub mod preview;
pub mod pathmap;
