//! A dynamically reconfigurable network proxy, verified at its core.
//!
//! A single control endpoint receives textual configuration sentences; each
//! sentence instantiates, inspects, or terminates an independent forwarding
//! server. This library holds the control-plane parser and dispatcher, the
//! weighted round-robin scheduling, the server registry, the certificate
//! store, the IP admission rules and the per-connection accounting hooks;
//! the asynchronous socket plumbing around them lives outside the library.

pub mod addr;
pub mod args;
pub mod cert;
pub mod dispatch;
pub mod http;
pub mod pd;
pub mod pdtrait;
pub mod protoc;
pub mod remote;
pub mod route;
pub mod rule;
pub mod server;
pub mod state;
pub mod text;
pub mod visit;
pub mod weights;
