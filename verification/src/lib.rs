//! Verified core of a small set of command-line tools for a message-passing
//! operating system: argument splitting, decimal parsing, little-endian
//! field codecs, configuration blobs, report decoding and text layout.

pub mod text;
pub mod number;
pub mod wire;
pub mod config;
pub mod hexdump;
pub mod top;
pub mod sysmon;
pub mod monitor;
pub mod commands;
pub mod gpu;
