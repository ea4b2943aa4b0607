//! What is promised of devices that are connected directly.

pub mod capture;
pub mod connect;
pub mod fingerprint;
pub mod options;
pub mod paths;
pub mod receive;
pub mod send;
pub mod session;
