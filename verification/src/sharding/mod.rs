//! Sharding: the consistent-hash ring and the router in front of it.

pub mod ring;
pub mod router;
