# deltanet

The delta-rule family of sequence layers (DeltaNet, Gated DeltaNet, DeltaProduct and
GDN-2), verified with Verus.

A layer carries one matrix per head, an associative memory `S`. Each step decays it,
takes back a part of what it retrieves for a key, and writes a value there:

```text
  S_t = (I - k_t (b_t * k_t)^T) diag(exp(g_t)) S_(t-1) + k_t (w_t * v_t)^T
  y_t = scale * S_t^T q_t
```

## What is proved

- The step-by-step recurrence and the chunkwise form, at any chunk length and with
  either way of inverting the triangular systems, compute the same outputs and the same
  last state (`src/delta/path.rs`, `src/delta/laws.rs`).
- The gradient that is recomputed from the inputs is the gradient of that function
  (`src/delta/combined.rs`): paired with any rates of change of the inputs it gives the
  rate of change of the outputs. There is only one such gradient, and it is linear in
  what is pulled back, as is each chunk's step of the way (`src/delta/grad_laws.rs`,
  `src/delta/linear.rs`).
- A block run over a sequence is the block run over its tokens one by one, and a
  sequence can be cut anywhere, on outputs, windows and states
  (`src/common/laws.rs`).
- What the gates of a write can and cannot do: replace, delete, add, reflect, leave
  alone (`src/delta/laws.rs`).
- DeltaProduct with one step per token is Gated DeltaNet (`src/delta_product/laws.rs`).
- Over any ordered field, forget gates never amplify, write gates stay in their range,
  and a forget gate starts with time steps and decay rates in the ranges asked for
  (`src/common/order.rs`). A key that was normalised lengthens nothing, for any erase
  gate from zero to two, and the triangular inverse for constant keys stays bounded at
  every length (`src/delta/bounds.rs`).

The numbers are those of any commutative ring with an exponential that turns sums into
products (`src/ring.rs`). Floating-point numbers are such a ring only up to rounding:
the theorems are about the mathematics, and the tests under `tests/` measure how far
double precision strays from it. `src/residue.rs` is a ring in which nothing is rounded.

## Layout

- `src/`: the verified library.
- `tests/`: exact tests over residues, and tests in double precision.
- `app/`: the blocks on [Burn](https://burn.dev) tensors: conversion, random
  initialisation, modules and configurations, and the gradients of the rule and of whole
  blocks as nodes of Burn's autodiff.
