//! Schema model, wire codec and frame engine for a MAVLink-style telemetry link.
//!
//! A schema (enums, messages, typed fields) fixes for every message a canonical
//! field order, a one-byte checksum seed and a byte-exact payload layout. The
//! frame engine finds, validates and decodes frames in a byte stream and builds
//! frames for transmission.

pub mod checksum;
pub mod codec;
pub mod engine;
pub mod frame;
pub mod grammar;
pub mod loader;
pub mod model;
pub mod schema;
pub mod table;
pub mod text;
pub mod types;
pub mod wire;
