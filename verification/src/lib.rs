//! A miniature key-value server core: the RESP2 frame codec, the command layer,
//! the connection framer and the expiring store.

pub mod clock;
pub mod cmd;
pub mod codec_laws;
pub mod connection;
pub mod cursor;
pub mod db;
pub mod decimal;
pub mod frame;
pub mod payload;
pub mod server;
pub mod store;
pub mod store_laws;
pub mod wire;

pub use cmd::Command;
pub use connection::Connection;
pub use db::Db;
pub use frame::Frame;
