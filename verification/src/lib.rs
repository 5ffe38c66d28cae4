//! Startup-entry lifecycle manager and background window/process monitor.
//!
//! The library normalizes boot-time "auto-run" entries from two structurally
//! different backing stores (a hierarchical run-key store with an approval
//! shadow, and startup folders with a disabled-suffix convention) into one
//! entity model with stable identity, computes the mutations that enable,
//! disable or delete an entry at its source, and drives a polling monitor
//! that matches live windows to configured items, applies per-item delay
//! scheduling and decides when the host process may terminate itself.
//!
//! All platform access (registry reads and writes, directory listings,
//! window enumeration, the clock) is injected as plain values; the logic
//! that interprets and transforms those values is verified.

pub mod assoc;
pub mod codec;
pub mod ids;
pub mod item;
pub mod manager;
pub mod monitor;
pub mod registry;
pub mod scanner;
pub mod settings;
pub mod text;
