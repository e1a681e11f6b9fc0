//! Scrubs source-file path strings out of binary data.
//!
//! The library scans a byte buffer for embedded printable-ASCII strings,
//! looks for path-like substrings ending in a fixed dot-plus-two-letter
//! extension, and overwrites every match with spaces, leaving the buffer
//! length and all other bytes untouched.

pub mod extract;
pub mod matcher;
pub mod redact;
