//! Sharing chunks with other nodes.

pub mod client;
pub mod discovery;
pub mod health;
pub mod index;
pub mod pool;
pub mod protocol;
pub mod registry;
pub mod select;
pub mod server;
pub mod session;
pub mod table;
