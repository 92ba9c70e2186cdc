//! oxicache: an in-memory cache with S3-FIFO eviction, the binary protocol it
//! speaks, and the client side of a cluster of such caches.
//!
//! Every function here is verified; sockets, files, time and threads belong to
//! the program around the library.

pub mod buf;
pub mod cache;
pub mod cli;
pub mod client;
pub mod config;
pub mod http;
pub mod io;
pub mod metrics;
pub mod tcp;
pub mod text;
pub mod tls;
pub mod wire;
