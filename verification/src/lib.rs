//! Elrond — a web server and reverse proxy with Nginx-style configuration.
//!
//! This library holds what the server decides and computes: how a
//! configuration reads, what a request is answered, where it is forwarded,
//! what is cached, limited, compressed and counted. Sockets, files, clocks and
//! tasks belong to the program around it.

pub mod access;
pub mod app;
pub mod auth;
pub mod auth_request;
pub mod body;
pub mod cache;
pub mod cli;
pub mod config;
pub mod gzip;
pub mod headers;
pub mod health;
pub mod http3;
pub mod http_date;
pub mod laws;
pub mod limit;
pub mod metrics;
pub mod mirror;
pub mod net;
pub mod pipeline;
pub mod privilege;
pub mod proxy;
pub mod request_ctx;
pub mod sd_notify;
pub mod server;
pub mod static_files;
pub mod stream;
pub mod subrequest;
pub mod supervisor;
pub mod template;
pub mod text;
pub mod time;
pub mod tls;
