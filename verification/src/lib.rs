//! Verified core of a desktop process manager: the applications and their
//! life cycle, log buffers and resource history, the hosts file format,
//! process search, and the request logic of the static file server.
pub mod text;
pub mod models;
pub mod static_server;
pub mod hosts;
pub mod keyed;
pub mod logs;
pub mod registry;
pub mod monitor;
pub mod lifecycle;
pub mod process;
pub mod laws;
pub mod tools;
