//! Weak-tie bridging networks and information diffusion on them.
mod text;
pub mod cascade;
pub mod config;
pub mod graph;
pub mod laws;
pub mod mechanisms;
pub mod metrics;
pub mod network;
pub mod paths;
pub mod record;
pub mod reproduce;
pub mod rng;
pub mod simulation;
pub mod world;
