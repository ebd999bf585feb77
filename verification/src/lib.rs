//! A NATS Core server: the client protocol, routing and lifecycle, with nothing
//! else. No accounts, no authorization, no TLS, no JetStream, no clustering, no
//! monitoring endpoint, and INFO says nothing about any of them.
//!
//! Everything the protocol promises is decided here, over plain values and
//! without I/O; the program around it moves bytes between sockets and this
//! library.
pub mod allocstats;
pub mod arena;
pub mod buf;
pub mod chars;
pub mod client;
pub mod config;
pub mod driving;
pub mod effects;
pub mod fanout;
pub mod flood;
pub mod harness;
pub mod info;
pub mod json;
pub mod laws;
pub mod loops;
pub mod net;
pub mod nuid;
pub mod proto;
pub mod publishing;
pub mod reader;
pub mod reading;
pub mod routing;
pub mod server;
pub mod settings;
pub mod subjects;
pub mod text;
pub mod tooling;
pub mod wire;

pub use config::Config;
pub use nuid::Rng;
pub use routing::Registry;
pub use server::Server;
