//! Gated DeltaNet: the delta rule with a forget gate per head.
pub mod cache;
pub mod config;
pub mod gated_deltanet_1;
