//! DeltaNet: the delta rule without a forget gate.
pub mod config;
pub mod deltanet;
