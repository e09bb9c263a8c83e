//! The caching proxy that stands between clients and the file server.
pub mod request;
pub mod cache;
pub mod client;
pub mod framing;
pub mod user;
