//! Blocks built on the delta rule: DeltaNet, Gated DeltaNet, DeltaProduct and GDN-2.
//!
//! Everything is written over an arbitrary commutative ring with an exponential
//! ([`ring`]), so that two ways of computing one thing can be proved equal:
//!
//! - [`delta`] has the recurrence, its chunkwise form and its gradient;
//! - [`common`] has what every block puts around it;
//! - [`deltanet`], [`gated_deltanet`], [`delta_product`] and [`gdn2`] are the blocks;
//! - [`families`] says where the gates of each of them come from, [`initial`] what each
//!   of them is made of, [`segments`] how its weights are laid out, and [`guards`] what
//!   is let through;
//! - [`sum`], [`mat`], [`matrix`], [`tensor`], [`pair`] and [`dual`] are the algebra;
//! - [`residue`] is a ring to compute in exactly.
pub mod common;
pub mod delta;
pub mod delta_product;
pub mod deltanet;
pub mod dual;
pub mod families;
pub mod gated_deltanet;
pub mod gdn2;
pub mod guards;
pub mod initial;
pub mod mat;
pub mod matrix;
pub mod pair;
pub mod residue;
pub mod ring;
pub mod segments;
pub mod sum;
pub mod tensor;
