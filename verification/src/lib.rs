//! Clipboard synchronisation between devices: command line, configuration, wire
//! framing, file and image transfers, and the session that ties them together.

pub mod capture;
pub mod cli;
pub mod clipboard;
pub mod config;
pub mod delivery;
pub mod digest;
pub mod direct;
pub mod endian;
pub mod fingerprint;
pub mod image;
pub mod laws;
pub mod manifest;
pub mod order;
pub mod panel;
pub mod paths;
pub mod progress;
pub mod receive;
pub mod seen;
pub mod send;
pub mod sessions;
pub mod state;
pub mod text;
pub mod transport;
pub mod tray;
pub mod units;
pub mod walk;
pub mod wire;
