//! What the library promises, in plain values.

pub mod capture;
pub mod cli;
pub mod clipboard;
pub mod config;
pub mod direct;
pub mod fingerprint;
pub mod image;
pub mod limits;
pub mod manifest;
pub mod panel;
pub mod paths;
pub mod receive;
pub mod send;
pub mod session;
pub mod text;
pub mod transport;
pub mod tray;
pub mod units;
