//! Verified core of a reverse-proxying load balancer for a fleet of
//! streaming inference backends: per-backend health state, the weighted
//! selector that builds a racing shortlist, and the racing verdict logic.

pub mod config;
pub mod handler;
pub mod health;
pub mod jsonv;
pub mod race;
pub mod registry;
pub mod sample;
pub mod select;
pub mod strutil;
