//! Positions in axes that stand for two.
use vstd::prelude::*;

verus! {

/// The position of an index pair in a flattened axis.
pub proof fn lemma_flat(i: int, n: int, j: int, m: int)
    requires
        0 <= i < n,
        0 <= j < m,
    ensures
        0 <= i * m + j < n * m,
        0 <= i * m <= i * m + j,
        (i * m + j) / m == i,
        (i * m + j) % m == j,
{
    assert(i * m + j < n * m && 0 <= i * m) by (nonlinear_arith)
        requires
            0 <= i < n,
            0 <= j < m,
    ;
    vstd::arithmetic::div_mod::lemma_fundamental_div_mod_converse(i * m + j, m, i, j);
}

/// The token that a step belongs to, and which of its steps it is.
pub proof fn lemma_token(s: int, sequence: int, u: int)
    requires
        0 <= s < sequence * u,
        u > 0,
    ensures
        0 <= s / u < sequence,
        0 <= s % u < u,
{
    assert(0 <= s / u < sequence) by (nonlinear_arith)
        requires
            0 <= s < sequence * u,
            u > 0,
    ;
}

} // verus!
