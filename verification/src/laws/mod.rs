//! What the library promises, stated over inputs and results.

pub mod addresses;
pub mod assembly;
pub mod blocks;
pub mod cache;
pub mod calendar;
pub mod counting;
pub mod fields;
pub mod files;
pub mod guards;
pub mod inclusion;
pub mod location;
pub mod process;
pub mod request;
pub mod serving;
pub mod text;
pub mod tokens;
pub mod traffic;
pub mod upstreams;
pub mod variables;
pub mod words;
pub mod zones;
