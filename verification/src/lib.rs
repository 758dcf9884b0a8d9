//! Read-only access to PSARC archives: table-of-contents parsing, block-wise
//! extraction of archived files, and an inode tree over the archived paths.

pub mod bytes;
pub mod codec;
pub mod error;
pub mod extract;
pub mod format;
pub mod fs;
pub mod layout;
pub mod manifest;
pub mod tree;
