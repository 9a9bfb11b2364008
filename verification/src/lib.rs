//! Verified core of the BlindSpot privacy-routing service.
pub mod union_find;
pub mod text;
pub mod assets;
pub mod valhalla;
pub mod route_cache;
pub mod astar;
pub mod graph;
pub mod ors;
pub mod error;
pub mod routing;
pub mod cameras;
pub mod admin;
pub mod seed;
pub mod events;
pub mod client;
pub mod fetch;
