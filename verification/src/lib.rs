//! The verified core of a read-only, on-demand, deduplicating filesystem.

pub mod backend;
pub mod bench;
pub mod bytes;
pub mod checksum;
pub mod cli;
pub mod error;
pub mod image;
pub mod log_rotation;
pub mod text;
pub mod utils;
