//! Client-side core of an editor front end: the offset codec, the line cache
//! that mirrors the visible document, and the request correlator.

pub mod codec;
pub mod json;
pub mod linecache;
pub mod pending;
pub mod rpc;
