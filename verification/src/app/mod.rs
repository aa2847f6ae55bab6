//! Runtime model: the validated configuration lowered into ready-to-serve
//! state.

pub mod actions;
pub mod assemble;
pub mod balance;
pub mod consistency;
pub mod listeners;
pub mod runtime;
pub mod startup;

pub use actions::{StaticKind, TryFilesEntryRt};
pub use assemble::UserFile;
pub use balance::{Balancer, InflightGuard, Peer};
pub use runtime::{
    ActionRt, ListenerCfg, LocationRt, PathRegex, Pools, ProxyCache, ProxyTarget, ServerState,
    VirtualHost, DEFAULT_CLIENT_MAX_BODY_SIZE, DEFAULT_PROXY_CONNECT_TIMEOUT,
    DEFAULT_PROXY_READ_TIMEOUT,
};
pub use startup::{build, Runtime};
