//! The client side: the wire protocol and what a connection does with it.

pub mod protocol;
pub mod server;
