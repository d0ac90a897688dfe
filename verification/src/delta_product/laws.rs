//! What holds between DeltaProduct and the other families.
use vstd::prelude::*;

use crate::delta_product::delta_product::DeltaProduct;
use crate::gated_deltanet::gated_deltanet_1::GatedDeltaNet1;
use crate::ring::Real;

verus! {

/// One step per token is Gated DeltaNet: a block of either family with the same
/// parts computes the same.
pub proof fn law_one_step_is_gated_deltanet<R: Real>(
    product: DeltaProduct<R>,
    gated: GatedDeltaNet1<R>,
)
    requires
        product.qkv == gated.qkv,
        product.gate == Some(gated.gate),
        product.norm == gated.norm,
        product.out_proj == gated.out_proj,
        gated.valid(),
    ensures
        product.valid(),
        product.qkv.n_householder == 1,
        product.pipeline() == gated.pipeline(),
{
    let (p, g) = (product.pipeline(), gated.pipeline());
    assert(p.decay =~= g.decay);
    assert(p == g);
}

/// The state does not grow with the steps per token: blocks with the same heads
/// carry states of the same shape.
pub proof fn law_state_does_not_grow<R: Real>(
    a: DeltaProduct<R>,
    b: DeltaProduct<R>,
    batch: usize,
)
    requires
        a.qkv.n_value_heads == b.qkv.n_value_heads,
        a.qkv.head_k_dim == b.qkv.head_k_dim,
        a.qkv.head_v_dim == b.qkv.head_v_dim,
    ensures
        a.cache_shape(batch).nheads == b.cache_shape(batch).nheads,
        a.cache_shape(batch).head_k_dim == b.cache_shape(batch).head_k_dim,
        a.cache_shape(batch).head_v_dim == b.cache_shape(batch).head_v_dim,
{
}

} // verus!
