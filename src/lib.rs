//! A content-addressed cache: 32-byte keys derived by SHA-256, each owning a
//! directory named by the key's URL-safe base64 text under a cache root.
//!
//! The library keeps the cache's index and makes every decision; the caller
//! performs the filesystem work it asks for and hands back the outcomes.

pub mod error;
pub mod file_cache;
pub mod key;
