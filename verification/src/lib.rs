//! Stable `<name>.localhost` hostnames for local development: the route
//! registry's rules, hostname grammar and the reverse proxy's request logic.

pub mod header_map;
pub mod headers;
pub mod lifecycle;
pub mod proxy;
pub mod routes;
pub mod supervisor;
pub mod text;
pub mod types;
pub mod upstream;
pub mod utils;

pub use routes::RouteStore;
pub use types::Route;
