//! Connection core of a multiplexed, HTTP/2-style request/response protocol:
//! frame codec, header validation, stream table and flow control, server role.

pub mod conn;
pub mod frame;
pub mod headers;
pub mod stream;
