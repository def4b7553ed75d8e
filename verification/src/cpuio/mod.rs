//! CPU I/O ports.
pub mod port;
