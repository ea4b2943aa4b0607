//! The direct mode: one listener, one peer, paths as texts, and every message to
//! everyone who is connected.

pub mod capture;
pub mod clipboard;
pub mod connect;
pub mod delivery;
pub mod hub;
pub mod options;
pub mod paths;
pub mod receive;
pub mod send;
pub mod state;
pub mod walk;
pub mod wire;
