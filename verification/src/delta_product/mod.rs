//! DeltaProduct: several steps of the delta rule per token.
pub mod config;
pub mod delta_product;
pub mod laws;
