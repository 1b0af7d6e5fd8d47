//! A personal journal library: a versioned on-disk file format with an
//! authenticated-encryption envelope, and an incremental export manifest
//! that avoids re-exporting unchanged files.

pub mod cli;
pub mod config;
pub mod crypto;
pub mod errors;
pub mod export;
pub mod format;
pub mod fs;
pub mod header;
pub mod manifest;
pub mod search;
pub mod template;
pub mod types;
pub mod validate;
