//! Duplicate-message moderation core.
//!
//! The library classifies inbound chat messages per community ("guild"):
//! within monitored channels, a message whose normalized content repeats a
//! recently accepted message is rejected so the caller can delete it.
//! It holds the per-community state store, the classification rules, the
//! text-normalization / fingerprinting pipeline, and the codec for the
//! durable per-community records.

pub mod command;
pub mod kv;
pub mod laws;
pub mod model;
pub mod numeric;
pub mod store;
pub mod text;
