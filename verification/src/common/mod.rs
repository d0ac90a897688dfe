//! What every block puts around the delta rule: projections, the short
//! convolution, activations, normalisations, gates and caches.
pub mod activation;
pub mod block;
pub mod cache;
pub mod columns;
pub mod config;
pub mod conv;
pub mod exchange;
pub mod finite;
pub mod gate;
pub mod index;
pub mod laws;
pub mod linear;
pub mod muon;
pub mod norm;
pub mod order;
pub mod pipeline;
pub mod qkv;
pub mod shape;
pub mod tokens;
