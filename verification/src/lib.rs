//! Encrypted private diary: key management, encrypted file framing,
//! vault layout, WebDAV listing parsing and the two-way sync planner.

pub mod text;
pub mod crypto;
pub mod vault;
pub mod webdav;
pub mod sync;
pub mod commands;
