//! Verified core of an authorization-aware API gateway.
//!
//! The library holds the gateway's decision logic: path-based service
//! resolution, the role/namespace authorization check, graph-edge
//! reconciliation for role assignments, and the credential/token
//! lifecycle rules.  The surrounding HTTP server, the storage engine
//! round-trips and the token signature primitives live outside of it
//! and hand the library plain values.

pub mod api_services;
pub mod auth;
pub mod authz;
pub mod errors;
pub mod forwarder;
pub mod store;
pub mod text;
pub mod users;
