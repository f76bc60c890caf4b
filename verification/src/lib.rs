//! Clipboard history for KDE Plasma on Wayland: the verified core.
//!
//! The daemon, the popup and the installer live in the application crate;
//! this library holds the rules they follow.

pub mod text;
pub mod plasma;
pub mod state;
pub mod crypto;
pub mod store;
pub mod ipc;
pub mod daemon;
pub mod clipboard;
pub mod paste;
pub mod install;
pub mod popup;
pub mod tray;
