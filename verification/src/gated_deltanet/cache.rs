//! What a Gated DeltaNet layer carries between calls.
use vstd::prelude::*;

use crate::common::finite::{finite3, finite4, is_finite3, is_finite4};
use crate::ring::{Real, Scalar};
use crate::tensor::{Tensor3, Tensor4};

verus! {

/// What a single Gated DeltaNet layer carries from one call to the next.
pub struct GatedDeltaNetCache<T> {
    /// The window of the short convolution, `[batch, conv_dim, conv_kernel]`; none
    /// where there is no convolution.
    pub conv_bwc: Option<Tensor3<T>>,
    /// The state of the delta rule, `[batch, nheads, head_k_dim, head_v_dim]`.
    pub state_bhkv: Tensor4<T>,
}

impl<T: Real> GatedDeltaNetCache<T> {
    /// Whether every entry of both tensors is a number.
    pub open spec fn sane(&self) -> bool {
        &&& self.conv_bwc matches Some(w) ==> finite3(w)
        &&& finite4(self.state_bhkv)
    }

    /// Checks that every entry of both tensors is a number.
    pub fn sanity(&self) -> (r: bool)
        ensures
            r == self.sane(),
    {
        let window: bool = match &self.conv_bwc {
            Some(w) => is_finite3(w),
            None => true,
        };
        window && is_finite4(&self.state_bhkv)
    }
}

/// The shape of a [`GatedDeltaNetCache`].
#[derive(Debug, Clone, Copy)]
pub struct GatedDeltaNetCacheConfig {
    /// The batch size.
    pub batch: usize,
    /// The number of heads.
    pub nheads: usize,
    /// The key channels of each head.
    pub head_k_dim: usize,
    /// The value channels of each head.
    pub head_v_dim: usize,
    /// The channels that enter the short convolution.
    pub conv_dim: usize,
    /// The window length; zero where there is no convolution.
    pub conv_kernel: usize,
}

impl GatedDeltaNetCacheConfig {
    /// Whether a cache has this shape.
    pub open spec fn shapes<T>(self, cache: GatedDeltaNetCache<T>) -> bool {
        &&& cache.conv_bwc is Some == (self.conv_kernel > 0)
        &&& cache.conv_bwc matches Some(w) ==> w.has_shape(
            self.batch as int,
            self.conv_dim as int,
            self.conv_kernel as int,
        )
        &&& cache.state_bhkv.has_shape(
            self.batch as int,
            self.nheads as int,
            self.head_k_dim as int,
            self.head_v_dim as int,
        )
    }

    /// The cache before the first token: an empty window and a state that reads
    /// zero for every key.
    pub fn init<T: Scalar>(self) -> (r: GatedDeltaNetCache<T>)
        ensures
            self.shapes(r),
            r.conv_bwc matches Some(w) ==> forall|a: int, c: int, j: int| #[trigger]
                w@(a, c, j) == T::zero(),
            forall|a: int, h: int, d: int, e: int| #[trigger]
                r.state_bhkv@(a, h, d, e) == T::zero(),
    {
        let conv_bwc = if self.conv_kernel > 0 {
            Some(Tensor3::zeros(self.batch, self.conv_dim, self.conv_kernel))
        } else {
            None
        };
        GatedDeltaNetCache {
            conv_bwc,
            state_bhkv: Tensor4::zeros(
                self.batch,
                self.nheads,
                self.head_k_dim,
                self.head_v_dim,
            ),
        }
    }
}

/// One cache per layer of a network.
pub struct GatedDeltaNetCaches<T> {
    /// The caches, layer by layer.
    pub caches: Vec<GatedDeltaNetCache<T>>,
}

impl<T> GatedDeltaNetCaches<T> {
    /// The number of caches.
    pub fn caches_len(&self) -> (r: usize)
        ensures
            r == self.caches@.len(),
    {
        self.caches.len()
    }

    /// Wraps a vector of caches.
    pub fn from_vec(vec: Vec<GatedDeltaNetCache<T>>) -> (r: Self)
        ensures
            r.caches == vec,
    {
        GatedDeltaNetCaches { caches: vec }
    }

    /// The caches, each of which can be taken on its own.
    pub fn into_options(self) -> (r: Vec<Option<GatedDeltaNetCache<T>>>)
        ensures
            r@.len() == self.caches@.len(),
            forall|i: int| 0 <= i < r@.len() ==> #[trigger] r@[i] == Some(self.caches@[i]),
    {
        let ghost all = self.caches@;
        let mut rest = self.caches;
        let mut r: Vec<Option<GatedDeltaNetCache<T>>> = Vec::with_capacity(rest.len());
        while rest.len() > 0
            invariant
                r@.len() + rest@.len() == all.len(),
                forall|i: int| 0 <= i < r@.len() ==> #[trigger] r@[i] == Some(all[i]),
                forall|i: int| 0 <= i < rest@.len() ==> #[trigger] rest@[i] == all[r@.len() + i],
            decreases rest@.len(),
        {
            let cache = rest.remove(0);
            r.push(Some(cache));
        }
        r
    }

    /// The inverse of [`GatedDeltaNetCaches::into_options`].
    pub fn from_options(options: Vec<Option<GatedDeltaNetCache<T>>>) -> (r: Self)
        requires
            forall|i: int| 0 <= i < options@.len() ==> (#[trigger] options@[i]) is Some,
        ensures
            r.caches@.len() == options@.len(),
            forall|i: int| 0 <= i < options@.len() ==> #[trigger] r.caches@[i] == options@[i]->0,
    {
        let ghost all = options@;
        let mut rest = options;
        let mut caches: Vec<GatedDeltaNetCache<T>> = Vec::with_capacity(rest.len());
        while rest.len() > 0
            invariant
                caches@.len() + rest@.len() == all.len(),
                forall|i: int| 0 <= i < all.len() ==> (#[trigger] all[i]) is Some,
                forall|i: int| 0 <= i < caches@.len() ==> #[trigger] caches@[i] == all[i]->0,
                forall|i: int|
                    0 <= i < rest@.len() ==> #[trigger] rest@[i] == all[caches@.len() + i],
            decreases rest@.len(),
        {
            assert(rest@[0] is Some);
            let option = rest.remove(0);
            match option {
                Some(cache) => {
                    caches.push(cache);
                },
                None => {},
            }
        }
        GatedDeltaNetCaches { caches }
    }
}

/// Wrapping the caches in options and unwrapping them again gives them back.
pub proof fn law_options_round_trip<T>(
    caches: GatedDeltaNetCaches<T>,
    options: Seq<Option<GatedDeltaNetCache<T>>>,
    back: GatedDeltaNetCaches<T>,
)
    requires
        options.len() == caches.caches@.len(),
        forall|i: int| 0 <= i < options.len() ==> #[trigger] options[i] == Some(caches.caches@[i]),
        back.caches@.len() == options.len(),
        forall|i: int| 0 <= i < options.len() ==> #[trigger] back.caches@[i] == options[i]->0,
    ensures
        back.caches@ == caches.caches@,
{
    assert(back.caches@ =~= caches.caches@);
}

/// The shape of a [`GatedDeltaNetCaches`].
#[derive(Debug, Clone, Copy)]
pub struct GatedDeltaNetCachesConfig {
    /// The number of caches.
    pub n_real_caches: usize,
    /// The shape of each of them.
    pub cache: GatedDeltaNetCacheConfig,
}

impl GatedDeltaNetCachesConfig {
    /// The caches before the first token.
    pub fn init<T: Scalar>(self) -> (r: GatedDeltaNetCaches<T>)
        ensures
            r.caches@.len() == self.n_real_caches,
            forall|i: int| 0 <= i < self.n_real_caches ==> self.cache.shapes(#[trigger] r.caches@[i]),
            forall|i: int, a: int, h: int, d: int, e: int|
                0 <= i < self.n_real_caches ==> #[trigger] r.caches@[i].state_bhkv@(a, h, d, e)
                    == T::zero(),
            forall|i: int, a: int, c: int, j: int|
                0 <= i < self.n_real_caches && r.caches@[i].conv_bwc is Some
                    ==> #[trigger] r.caches@[i].conv_bwc->0@(a, c, j) == T::zero(),
    {
        let mut caches: Vec<GatedDeltaNetCache<T>> = Vec::with_capacity(self.n_real_caches);
        for n in 0..self.n_real_caches
            invariant
                caches@.len() == n,
                forall|i: int| 0 <= i < n ==> self.cache.shapes(#[trigger] caches@[i]),
                forall|i: int, a: int, h: int, d: int, e: int|
                    0 <= i < n ==> #[trigger] caches@[i].state_bhkv@(a, h, d, e) == T::zero(),
                forall|i: int, a: int, c: int, j: int|
                    0 <= i < n && caches@[i].conv_bwc is Some ==> #[trigger] caches@[i].conv_bwc->0@(
                        a,
                        c,
                        j,
                    ) == T::zero(),
        {
            let cache = self.cache.init::<T>();
            caches.push(cache);
        }
        GatedDeltaNetCaches { caches }
    }
}

} // verus!
