//! The file server that the proxy forwards to.
pub mod request;
pub mod dirtree;
pub mod reply;
