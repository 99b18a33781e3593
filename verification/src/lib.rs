//! Declarative reconciliation of roles and channels for a competition guild.
//!
//! The heart of the crate is a pair of planners: given the desired
//! definitions (derived from the event configuration) and the observed
//! remote state, they compute the exact sequence of create / edit / delete
//! operations that converges the remote side, and nothing else.  The
//! planners are pure, so the surrounding process can re-run them safely
//! after any mid-sequence failure.

pub mod cache;
pub mod channels;
pub mod commands;
pub mod config;
pub mod error;
pub mod models;
pub mod permissions;
pub mod recreate;
pub mod roles;
pub mod services;
