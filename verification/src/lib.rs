//! Verified core of a caching file proxy and the file server behind it.
pub mod text;
pub mod command;
pub mod proxy;
pub mod remote;
