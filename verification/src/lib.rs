//! Command adaptation and accessibility-snapshot formatting for a
//! browser-hosted automation engine.

pub mod text;
pub mod json;
pub mod snapshot_format;
pub mod runtime;
pub mod wasm_support;
