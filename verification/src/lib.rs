//! A TLS-terminating HTTP reverse proxy and static-file server: the
//! declarative configuration compiles into a frozen routing table, requests
//! route to an upstream backend, a filesystem tree or a redirect, and
//! per-name certificates reload in place.
//!
//! This crate holds the verified core: configuration compilation, header
//! policies, route matching, load balancing, file-path sanitization, the
//! certificate store and the IPC framing. The process plumbing around it
//! (sockets, TLS handshakes, the HTTP engine) lives with the binary.
pub mod config;
pub mod handler;
pub mod headers;
pub mod http_response;
pub mod ipc;
pub mod load_balancing;
pub mod middleware;
pub mod serve_file;
pub mod strmap;
pub mod text;
pub mod tls;
pub mod toml_model;
