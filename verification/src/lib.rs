//! A realtime pub/sub engine: channel glob permissions, namespace access policy, configuration
//! model, per-channel streams with offsets, history and recovery, local fan-out routing, and
//! the command orchestration that ties them together.

pub mod text;
pub mod strmap;
pub mod auth;
pub mod protocol;
pub mod config;
pub mod env;
pub mod namespace;
pub mod metrics;
pub mod events;
pub mod dash;
pub mod broker;
pub mod redis;
pub mod hub;
pub mod delivery;
pub mod api;
pub mod loadtest;
pub mod server;
