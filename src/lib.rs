//! Streaming replacement of a pattern by weighted-random alternatives,
//! carried out chunk by chunk without splitting an occurrence.

pub mod selector;
pub mod text;
pub mod log;
pub mod apply;
pub mod config;
pub mod laws;
pub mod stream;
