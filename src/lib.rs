//! Route registration and per-context listener planning for an axum host.

pub mod router;
pub mod service;
pub mod serving;
pub mod laws;
