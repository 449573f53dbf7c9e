//! Verified core of an inter-process communication benchmark suite.
pub mod text;
pub mod config;
pub mod payload;
pub mod affinity;
pub mod ring;
pub mod mapping;
pub mod window;
pub mod wake;
pub mod report;
pub mod transport;
