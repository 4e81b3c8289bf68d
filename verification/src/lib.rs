//! A DNS resolver that keeps the addresses of a changing set of names up to date, the system
//! configuration that it goes by, and the requests that a client answers with it.
pub mod addr;
pub mod client;
pub mod config;
pub mod endpoints;
pub mod fields;
pub mod hostname;
pub mod laws;
pub mod model;
pub mod ord_map;
pub mod resolver;
pub mod stdlib;
pub mod text;
pub mod time;
