//! Which weights an orthogonalising optimizer may own, and where fused ones split.
//!
//! A fused weight holds independent maps side by side. The maps that are matrices
//! are orthogonalised one by one; those that project one number per head are
//! vectors, and are left to another optimizer.
use vstd::prelude::*;

verus! {

/// Some columns of a fused weight.
#[derive(Debug, Clone, Copy)]
pub struct ProjSegment {
    /// What they project.
    pub name: &'static str,
    /// How many there are.
    pub width: usize,
    /// Whether they are orthogonalised.
    pub muon: bool,
}

/// The columns of a matrix, which is orthogonalised on its own.
pub open spec fn muon_columns(name: &'static str, width: int) -> ProjSegment {
    ProjSegment { name, width: width as usize, muon: true }
}

/// The columns of a map to one number per head.
pub open spec fn plain_columns(name: &'static str, width: int) -> ProjSegment {
    ProjSegment { name, width: width as usize, muon: false }
}

/// A weight that the optimizer may own.
#[derive(Debug)]
pub enum ProjSpec {
    /// A fused weight, segment by segment.
    Block {
        /// Where the weight stands in the block.
        weight: &'static str,
        /// Its columns, in order.
        segments: Vec<ProjSegment>,
    },
    /// A weight that is one matrix.
    Whole {
        /// Where the weight stands in the block.
        weight: &'static str,
        /// The number of its columns.
        width: usize,
    },
}

impl ProjSpec {
    /// Whether this is the fused weight at `weight` with the given segments.
    pub open spec fn is_block(self, weight: &'static str, segments: Seq<ProjSegment>) -> bool {
        self matches ProjSpec::Block { weight: w, segments: s } && w == weight && s@ == segments
    }

    /// Whether this is the matrix at `weight` with the given number of columns.
    pub open spec fn is_whole(self, weight: &'static str, width: int) -> bool {
        self matches ProjSpec::Whole { weight: w, width: n } && w == weight && n == width
    }
}

/// The columns of the first `n` segments.
pub open spec fn columns(segments: Seq<ProjSegment>, n: int) -> int
    decreases n,
{
    if n <= 0 {
        0
    } else {
        columns(segments, n - 1) + segments[n - 1].width
    }
}

impl ProjSegment {
    /// The columns of a matrix, which is orthogonalised on its own.
    pub fn muon(name: &'static str, width: usize) -> (r: Self)
        ensures
            r == muon_columns(name, width as int),
    {
        ProjSegment { name, width, muon: true }
    }

    /// The columns of a map to one number per head.
    pub fn adamw(name: &'static str, width: usize) -> (r: Self)
        ensures
            r == plain_columns(name, width as int),
    {
        ProjSegment { name, width, muon: false }
    }
}

/// The columns of two runs of segments.
pub proof fn lemma_columns_add(a: Seq<ProjSegment>, b: Seq<ProjSegment>, n: int)
    requires
        0 <= n <= b.len(),
    ensures
        columns(a + b, a.len() + n) == columns(a, a.len() as int) + columns(b, n),
    decreases n,
{
    if n > 0 {
        lemma_columns_add(a, b, n - 1);
        assert((a + b)[a.len() + n - 1] == b[n - 1]);
    } else {
        lemma_columns_prefix(a, b, a.len() as int);
    }
}

proof fn lemma_columns_prefix(a: Seq<ProjSegment>, b: Seq<ProjSegment>, n: int)
    requires
        0 <= n <= a.len(),
    ensures
        columns(a + b, n) == columns(a, n),
    decreases n,
{
    if n > 0 {
        lemma_columns_prefix(a, b, n - 1);
        assert((a + b)[n - 1] == a[n - 1]);
    }
}

/// The columns of segments that are all alike.
pub proof fn lemma_columns_repeat(s: Seq<ProjSegment>, width: int, n: int)
    requires
        0 <= n <= s.len(),
        forall|i: int| 0 <= i < s.len() ==> (#[trigger] s[i]).width == width,
    ensures
        columns(s, n) == n * width,
    decreases n,
{
    if n > 0 {
        lemma_columns_repeat(s, width, n - 1);
        assert(n * width == (n - 1) * width + width) by (nonlinear_arith);
    } else {
        assert(0 * width == 0) by (nonlinear_arith);
    }
}

} // verus!
