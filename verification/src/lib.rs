//! # sshp
//!
//! An interactive SSH host selector: it reads the `Host` entries of an SSH
//! config, ranks them against what the user types, and lays the list out for
//! a terminal.

pub mod config;
pub mod selector;
pub mod text;
pub mod ui;

pub use config::SshHost;
