//! The delta rule: an associative memory whose writes correct an error.
//!
//! ```text
//!   S_t = (I - k_t (b_t * k_t)^T) diag(exp(g_t)) S_(t-1) + k_t (w_t * v_t)^T
//!   y_t = scale * S_t^T q_t
//! ```
//!
//! - `rule` states the recurrence; `recurrent` computes one step of it.
//! - `wy`, `tri`, `decay`, `forward` and `scan` compute many steps at once, a chunk at
//!   a time.
//! - `path` holds what a layer hands over and picks how it is evaluated.
//! - `adjoint`, `rates`, `frame`, `backward`, `channel`, `chunk_grad`, `head_grad`,
//!   `tri_grad` and `combined` compute the gradient from the inputs alone.
//! - `laws`, `entries`, `bounds`, `derivative`, `grad_laws` and `linear` say what holds
//!   of all of it.
pub mod adjoint;
pub mod backward;
pub mod bounds;
pub mod channel;
pub mod chunk_grad;
pub mod combined;
pub mod decay;
pub mod derivative;
pub mod entries;
pub mod forward;
pub mod frame;
pub mod grad_laws;
pub mod head_grad;
pub mod laws;
pub mod linear;
pub mod path;
pub mod rates;
pub mod recurrent;
pub mod rule;
pub mod scan;
pub mod tri;
pub mod tri_grad;
pub mod wy;
