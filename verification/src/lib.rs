//! Verified core of a chainHead subscription engine: a block-tree follower
//! that turns import and finality notifications into an ordered stream of
//! follow events, with a reference-counted pin registry, an operation table
//! with admission control, and a paginated storage traversal engine.

pub mod api;
pub mod bytesord;
pub mod client;
pub mod decimal;
pub mod digest;
pub mod events;
pub mod follow;
pub mod hexcodec;
pub mod storage;

pub use hexcodec::hex_string;
