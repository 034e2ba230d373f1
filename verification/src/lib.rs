//! Host-side runtime for sandboxed guest modules.
//!
//! The runtime owns a guest-addressable linear memory per plugin, a fixed
//! menu of host functions the guest may call, per-plugin key/value and
//! configuration stores, deadline bookkeeping for calls into untrusted code,
//! and a registry that hands out integer handles for live plugins.

pub mod context;
pub mod error;
pub mod kv;
pub mod manifest;
pub mod memory;
pub mod plugin;
pub mod timer;
