//! Verified core of a profile manager for AI-tool configuration
//! directories: named on-disk snapshots of a tool's live configuration,
//! with atomic switching between them.
//!
//! The library works on an in-memory model of the relevant directory
//! trees; the binary around it reads real directories into that model
//! and writes results back to disk.


pub mod model;
pub mod copy;
pub mod errors;
pub mod name;
pub mod settings;
pub mod tool;
pub mod manager;
pub mod switching;
pub mod sync;
pub mod extract;
pub mod cli;
pub mod ui;
