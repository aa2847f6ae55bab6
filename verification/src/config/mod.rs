//! Nginx-style configuration: lexing, parsing, include expansion, and
//! lowering to a typed model.
//!
//! ```text
//! text ──lex──▶ tokens ──parse──▶ directive tree
//!           ──expand_includes──▶ flattened tree ──build──▶ Config
//! ```

pub mod ast;
pub mod context;
pub mod describe;
pub mod includes;
pub mod laws;
pub mod lexer;
pub mod location;
pub mod lowering;
pub mod parser;
pub mod values;
pub mod zones;

pub use ast::{
    Action, CacheZone, Config, HealthCheckCfg, Http, LbMethod, LimitConnZoneDecl, LimitReqZoneDecl,
    Location, LocationKind, MapDecl, MapPattern, MapRule, Server, Stream, StreamServer, TlsVersion,
    TryFilesEntry, Upstream, UpstreamServer,
};
pub use context::{build, parse_str};
pub use includes::{load, Found, Progress, Source};
