pub mod config;
pub mod conn;
pub mod error;
pub mod handshake;
pub mod laws;
pub mod messages;
pub mod params;
pub mod proto;
pub mod session;
pub mod startup;
pub mod stream;
pub mod wire;
