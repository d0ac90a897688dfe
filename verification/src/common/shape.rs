//! Where each part of a token stands among the channels of the fused projection.
//!
//! ```text
//!   [ q | k .. | v .. | beta .. or (erase .. | write ..) | gate? | extra? ]
//!     `-- short convolution --'
//! ```
//!
//! Keys, values and write gates come `n_householder` times over, one after the
//! other. Queries, keys and erase gates follow the query heads, each of which
//! serves a group of consecutive value heads.
use vstd::prelude::*;

use crate::common::index::lemma_flat;

verus! {

/// How a block gates its writes.
#[derive(Debug, Clone, Copy, PartialEq, Eq, Structural)]
pub enum WriteGate {
    /// Always one: nothing is projected.
    Fixed,
    /// One value per head for erasing and writing both.
    Scalar,
    /// An erase gate per key channel and a write gate per value channel.
    Channel,
}

impl Default for WriteGate {
    fn default() -> (r: Self)
        ensures
            r == WriteGate::Scalar,
    {
        WriteGate::Scalar
    }
}

/// The lengths that the layout of the fused projection follows from.
#[derive(Debug, Clone, Copy)]
pub struct QkvShape {
    /// The number of query and key heads.
    pub nheads: usize,
    /// The number of value heads, a multiple of the query heads.
    pub n_value_heads: usize,
    /// The query and key channels of each head.
    pub head_k_dim: usize,
    /// The value channels of each head.
    pub head_v_dim: usize,
    /// The steps of the delta rule per token.
    pub n_householder: usize,
    /// How writes are gated.
    pub write_gate: WriteGate,
    /// Whether an output gate is projected.
    pub has_gate: bool,
    /// The width of the trailing segment.
    pub extra_channels: usize,
}

/// The name and width of one segment of the projection.
pub type Segment = (&'static str, usize);

/// The total width of the first `n` segments.
pub open spec fn total_width(segments: Seq<Segment>, n: int) -> int
    decreases n,
{
    if n <= 0 {
        0
    } else {
        total_width(segments, n - 1) + segments[n - 1].1
    }
}

impl QkvShape {
    /// Whether there is at least one of everything and the value heads divide
    /// among the query heads.
    pub open spec fn sound(self) -> bool {
        &&& self.nheads > 0
        &&& self.n_value_heads > 0
        &&& self.n_value_heads % self.nheads == 0
        &&& self.head_k_dim > 0
        &&& self.head_v_dim > 0
        &&& self.n_householder > 0
    }

    /// Value heads per query head.
    pub open spec fn group(self) -> int {
        self.n_value_heads as int / self.nheads as int
    }

    /// The query head that value head `h` reads with.
    pub open spec fn query_head(self, h: int) -> int {
        h / self.group()
    }

    /// The channels of one key.
    pub open spec fn keys(self) -> int {
        self.nheads * self.head_k_dim
    }

    /// The channels of one value.
    pub open spec fn values(self) -> int {
        self.n_value_heads * self.head_v_dim
    }

    /// The channels that enter the short convolution.
    pub open spec fn mixed(self) -> int {
        self.keys() + self.n_householder * (self.keys() + self.values())
    }

    /// The channels of the write gates of one step.
    pub open spec fn write_step(self) -> int {
        match self.write_gate {
            WriteGate::Fixed => 0,
            WriteGate::Scalar => self.n_value_heads as int,
            WriteGate::Channel => self.keys() + self.values(),
        }
    }

    /// The channels of all write gates.
    pub open spec fn writes(self) -> int {
        self.n_householder * self.write_step()
    }

    /// The channels of the output gate.
    pub open spec fn gates(self) -> int {
        if self.has_gate {
            self.values()
        } else {
            0
        }
    }

    /// The channels of the whole projection.
    pub open spec fn channels(self) -> int {
        self.mixed() + self.writes() + self.gates() + self.extra_channels
    }

    /// Where channel `d` of the query of head `h` stands.
    pub open spec fn query_at(self, h: int, d: int) -> int {
        self.query_head(h) * self.head_k_dim + d
    }

    /// Where channel `d` of key `j` of head `h` stands.
    pub open spec fn key_at(self, j: int, h: int, d: int) -> int {
        self.keys() + (j * self.keys() + (self.query_head(h) * self.head_k_dim + d))
    }

    /// Where channel `e` of value `j` of head `h` stands.
    pub open spec fn value_at(self, j: int, h: int, e: int) -> int {
        self.keys() + self.n_householder * self.keys() + (j * self.values() + (h * self.head_v_dim
            + e))
    }

    /// Where the write strength of step `j` of head `h` stands.
    pub open spec fn beta_at(self, j: int, h: int) -> int {
        self.mixed() + (j * self.n_value_heads + h)
    }

    /// Where channel `d` of the erase gate of step `j` of head `h` stands.
    pub open spec fn erase_at(self, j: int, h: int, d: int) -> int {
        self.mixed() + (j * self.keys() + (self.query_head(h) * self.head_k_dim + d))
    }

    /// Where channel `e` of the write gate of step `j` of head `h` stands.
    pub open spec fn write_at(self, j: int, h: int, e: int) -> int {
        self.mixed() + self.n_householder * self.keys() + (j * self.values() + (h * self.head_v_dim
            + e))
    }

    /// Where channel `e` of the output gate of head `h` stands.
    pub open spec fn gate_at(self, h: int, e: int) -> int {
        self.mixed() + self.writes() + (h * self.head_v_dim + e)
    }

    /// Where channel `x` of the trailing segment stands.
    pub open spec fn extra_at(self, x: int) -> int {
        self.mixed() + self.writes() + self.gates() + x
    }

    /// Value heads fall into equal groups, one per query head.
    pub proof fn lemma_groups(self, h: int)
        requires
            self.sound(),
            0 <= h < self.n_value_heads,
        ensures
            self.group() > 0,
            self.group() * self.nheads == self.n_value_heads,
            0 <= self.query_head(h) < self.nheads,
    {
        let (n, m) = (self.n_value_heads as int, self.nheads as int);
        vstd::arithmetic::div_mod::lemma_fundamental_div_mod(n, m);
        let g = self.group();
        assert(g > 0 && g * m == n) by (nonlinear_arith)
            requires
                n == m * g + 0,
                n > 0,
                m > 0,
        ;
        assert(0 <= h / g < m) by (nonlinear_arith)
            requires
                0 <= h < n,
                g > 0,
                g * m == n,
        ;
    }

    /// Every product of lengths is at least as great as each of its parts.
    pub proof fn lemma_parts(self)
        requires
            self.sound(),
        ensures
            0 < self.keys(),
            0 < self.values(),
            self.keys() <= self.n_householder * self.keys(),
            self.values() <= self.n_householder * self.values(),
            self.n_householder * (self.keys() + self.values()) == self.n_householder * self.keys()
                + self.n_householder * self.values(),
            0 <= self.write_step() <= self.writes(),
            self.write_gate == WriteGate::Channel ==> self.writes() == self.n_householder
                * self.keys() + self.n_householder * self.values(),
            0 < self.mixed() <= self.channels(),
            self.mixed() + self.writes() + self.gates() <= self.channels(),
    {
        let (u, k, v, w) = (
            self.n_householder as int,
            self.keys(),
            self.values(),
            self.write_step(),
        );
        assert(0 < k) by (nonlinear_arith)
            requires
                k == self.nheads * self.head_k_dim,
                self.nheads > 0,
                self.head_k_dim > 0,
        ;
        assert(0 < v) by (nonlinear_arith)
            requires
                v == self.n_value_heads * self.head_v_dim,
                self.n_value_heads > 0,
                self.head_v_dim > 0,
        ;
        assert(k <= u * k && v <= u * v && u * (k + v) == u * k + u * v && w <= u * w)
            by (nonlinear_arith)
            requires
                u > 0,
                k > 0,
                v > 0,
                w >= 0,
        ;
    }

    /// Every position lies inside its segment.
    pub proof fn lemma_positions(self, j: int, h: int, d: int, e: int)
        requires
            self.sound(),
            0 <= j < self.n_householder,
            0 <= h < self.n_value_heads,
            0 <= d < self.head_k_dim,
            0 <= e < self.head_v_dim,
        ensures
            0 <= self.query_at(h, d) < self.keys(),
            self.keys() <= self.key_at(j, h, d) < self.keys() + self.n_householder * self.keys(),
            self.keys() + self.n_householder * self.keys() <= self.value_at(j, h, e)
                < self.mixed(),
            self.write_gate == WriteGate::Scalar ==> self.mixed() <= self.beta_at(j, h)
                < self.mixed() + self.writes(),
            self.write_gate == WriteGate::Channel ==> self.mixed() <= self.erase_at(j, h, d)
                < self.mixed() + self.n_householder * self.keys(),
            self.write_gate == WriteGate::Channel ==> self.mixed() + self.n_householder
                * self.keys() <= self.write_at(j, h, e) < self.mixed() + self.writes(),
            self.has_gate ==> self.mixed() + self.writes() <= self.gate_at(h, e) < self.mixed()
                + self.writes() + self.gates(),
    {
        self.lemma_parts();
        self.lemma_groups(h);
        let u = self.n_householder as int;
        let q = self.query_head(h);
        lemma_flat(q, self.nheads as int, d, self.head_k_dim as int);
        lemma_flat(j, u, q * self.head_k_dim + d, self.keys());
        lemma_flat(h, self.n_value_heads as int, e, self.head_v_dim as int);
        lemma_flat(j, u, h * self.head_v_dim + e, self.values());
        lemma_flat(j, u, h, self.n_value_heads as int);
    }

    /// The channels of one key.
    pub fn key_dim(self) -> (r: usize)
        requires
            self.sound(),
            self.channels() <= usize::MAX,
        ensures
            r == self.keys(),
    {
        proof {
            self.lemma_parts();
        }
        self.nheads * self.head_k_dim
    }

    /// The channels of one value.
    pub fn value_dim(self) -> (r: usize)
        requires
            self.sound(),
            self.channels() <= usize::MAX,
        ensures
            r == self.values(),
    {
        proof {
            self.lemma_parts();
        }
        self.n_value_heads * self.head_v_dim
    }

    /// Value heads per query head.
    pub fn heads_per_group(self) -> (r: usize)
        requires
            self.sound(),
        ensures
            r == self.group(),
    {
        self.n_value_heads / self.nheads
    }

    /// The channels that enter the short convolution.
    pub fn conv_dim(self) -> (r: usize)
        requires
            self.sound(),
            self.channels() <= usize::MAX,
        ensures
            r == self.mixed(),
    {
        proof {
            self.lemma_parts();
        }
        self.key_dim() + self.n_householder * (self.key_dim() + self.value_dim())
    }

    /// The channels of all write gates.
    pub fn write_gate_width(self) -> (r: usize)
        requires
            self.sound(),
            self.channels() <= usize::MAX,
        ensures
            r == self.writes(),
    {
        proof {
            self.lemma_parts();
        }
        let step: usize = match self.write_gate {
            WriteGate::Fixed => 0,
            WriteGate::Scalar => self.n_value_heads,
            WriteGate::Channel => self.key_dim() + self.value_dim(),
        };
        self.n_householder * step
    }

    /// The channels of the whole projection.
    pub fn d_in_proj(self) -> (r: usize)
        requires
            self.sound(),
            self.channels() <= usize::MAX,
        ensures
            r == self.channels(),
    {
        proof {
            self.lemma_parts();
        }
        let gates: usize = if self.has_gate {
            self.value_dim()
        } else {
            0
        };
        self.conv_dim() + self.write_gate_width() + gates + self.extra_channels
    }

    /// Where channel `d` of the query of head `h` stands.
    pub fn query_index(self, h: usize, d: usize) -> (r: usize)
        requires
            self.sound(),
            self.channels() <= usize::MAX,
            h < self.n_value_heads,
            d < self.head_k_dim,
        ensures
            r == self.query_at(h as int, d as int),
            r < self.mixed(),
    {
        proof {
            self.lemma_positions(0, h as int, d as int, 0);
            self.lemma_groups(h as int);
            self.lemma_parts();
            lemma_flat(
                self.query_head(h as int),
                self.nheads as int,
                d as int,
                self.head_k_dim as int,
            );
        }
        (h / self.heads_per_group()) * self.head_k_dim + d
    }

    /// Where channel `d` of key `j` of head `h` stands.
    pub fn key_index(self, j: usize, h: usize, d: usize) -> (r: usize)
        requires
            self.sound(),
            self.channels() <= usize::MAX,
            j < self.n_householder,
            h < self.n_value_heads,
            d < self.head_k_dim,
        ensures
            r == self.key_at(j as int, h as int, d as int),
            r < self.mixed(),
    {
        proof {
            self.lemma_positions(j as int, h as int, d as int, 0);
            self.lemma_parts();
            lemma_flat(
                j as int,
                self.n_householder as int,
                self.query_at(h as int, d as int),
                self.keys(),
            );
        }
        let k: usize = self.key_dim();
        k + (j * k + self.query_index(h, d))
    }

    /// Where channel `e` of value `j` of head `h` stands.
    pub fn value_index(self, j: usize, h: usize, e: usize) -> (r: usize)
        requires
            self.sound(),
            self.channels() <= usize::MAX,
            j < self.n_householder,
            h < self.n_value_heads,
            e < self.head_v_dim,
        ensures
            r == self.value_at(j as int, h as int, e as int),
            r < self.mixed(),
    {
        proof {
            self.lemma_positions(j as int, h as int, 0, e as int);
            self.lemma_parts();
            lemma_flat(h as int, self.n_value_heads as int, e as int, self.head_v_dim as int);
            lemma_flat(
                j as int,
                self.n_householder as int,
                h * self.head_v_dim + e,
                self.values(),
            );
        }
        let (k, v) = (self.key_dim(), self.value_dim());
        k + self.n_householder * k + (j * v + (h * self.head_v_dim + e))
    }

    /// Where the write strength of step `j` of head `h` stands.
    pub fn beta_index(self, j: usize, h: usize) -> (r: usize)
        requires
            self.sound(),
            self.channels() <= usize::MAX,
            self.write_gate == WriteGate::Scalar,
            j < self.n_householder,
            h < self.n_value_heads,
        ensures
            r == self.beta_at(j as int, h as int),
            r < self.channels(),
    {
        proof {
            self.lemma_positions(j as int, h as int, 0, 0);
            self.lemma_parts();
            lemma_flat(
                j as int,
                self.n_householder as int,
                h as int,
                self.n_value_heads as int,
            );
        }
        self.conv_dim() + (j * self.n_value_heads + h)
    }

    /// Where channel `d` of the erase gate of step `j` of head `h` stands.
    pub fn erase_index(self, j: usize, h: usize, d: usize) -> (r: usize)
        requires
            self.sound(),
            self.channels() <= usize::MAX,
            self.write_gate == WriteGate::Channel,
            j < self.n_householder,
            h < self.n_value_heads,
            d < self.head_k_dim,
        ensures
            r == self.erase_at(j as int, h as int, d as int),
            r < self.channels(),
    {
        proof {
            self.lemma_positions(j as int, h as int, d as int, 0);
            self.lemma_parts();
            lemma_flat(
                j as int,
                self.n_householder as int,
                self.query_at(h as int, d as int),
                self.keys(),
            );
        }
        let k: usize = self.key_dim();
        self.conv_dim() + (j * k + self.query_index(h, d))
    }

    /// Where channel `e` of the write gate of step `j` of head `h` stands.
    pub fn write_index(self, j: usize, h: usize, e: usize) -> (r: usize)
        requires
            self.sound(),
            self.channels() <= usize::MAX,
            self.write_gate == WriteGate::Channel,
            j < self.n_householder,
            h < self.n_value_heads,
            e < self.head_v_dim,
        ensures
            r == self.write_at(j as int, h as int, e as int),
            r < self.channels(),
    {
        proof {
            self.lemma_positions(j as int, h as int, 0, e as int);
            self.lemma_parts();
            lemma_flat(h as int, self.n_value_heads as int, e as int, self.head_v_dim as int);
            lemma_flat(
                j as int,
                self.n_householder as int,
                h * self.head_v_dim + e,
                self.values(),
            );
        }
        let (k, v) = (self.key_dim(), self.value_dim());
        self.conv_dim() + self.n_householder * k + (j * v + (h * self.head_v_dim + e))
    }

    /// Where channel `e` of the output gate of head `h` stands.
    pub fn gate_index(self, h: usize, e: usize) -> (r: usize)
        requires
            self.sound(),
            self.channels() <= usize::MAX,
            self.has_gate,
            h < self.n_value_heads,
            e < self.head_v_dim,
        ensures
            r == self.gate_at(h as int, e as int),
            r < self.channels(),
    {
        proof {
            self.lemma_positions(0, h as int, 0, e as int);
            self.lemma_parts();
            lemma_flat(h as int, self.n_value_heads as int, e as int, self.head_v_dim as int);
        }
        self.conv_dim() + self.write_gate_width() + (h * self.head_v_dim + e)
    }

    /// Where channel `x` of the trailing segment stands.
    pub fn extra_index(self, x: usize) -> (r: usize)
        requires
            self.sound(),
            self.channels() <= usize::MAX,
            x < self.extra_channels,
        ensures
            r == self.extra_at(x as int),
            r < self.channels(),
    {
        proof {
            self.lemma_parts();
        }
        self.d_in_proj() - self.extra_channels + x
    }

    /// The segments of the projection in order, by name and width.
    pub fn segments(self) -> (r: Vec<Segment>)
        requires
            self.sound(),
            self.channels() <= usize::MAX,
        ensures
            r@ == self.layout(),
    {
        proof {
            self.lemma_parts();
        }
        let u: usize = self.n_householder;
        let mut r: Vec<Segment> = Vec::new();
        r.push(("q", self.key_dim()));
        r.push(("k", u * self.key_dim()));
        r.push(("v", u * self.value_dim()));
        match self.write_gate {
            WriteGate::Fixed => {},
            WriteGate::Scalar => {
                r.push(("beta", u * self.n_value_heads));
            },
            WriteGate::Channel => {
                r.push(("erase", u * self.key_dim()));
                r.push(("write", u * self.value_dim()));
            },
        }
        if self.has_gate {
            r.push(("gate", self.value_dim()));
        }
        if self.extra_channels > 0 {
            r.push(("extra", self.extra_channels));
        }
        assert(r@ =~= self.layout());
        r
    }

    /// The segments of the projection in order, by name and width.
    pub open spec fn layout(self) -> Seq<Segment> {
        let (u, k, v) = (self.n_householder, self.keys(), self.values());
        let mixed: Seq<Segment> = seq![
            ("q", k as usize),
            ("k", (u * k) as usize),
            ("v", (u * v) as usize),
        ];
        let writes: Seq<Segment> = match self.write_gate {
            WriteGate::Fixed => seq![],
            WriteGate::Scalar => seq![("beta", (u * self.n_value_heads) as usize)],
            WriteGate::Channel => seq![("erase", (u * k) as usize), ("write", (u * v) as usize)],
        };
        let gate: Seq<Segment> = if self.has_gate {
            seq![("gate", v as usize)]
        } else {
            seq![]
        };
        let extra: Seq<Segment> = if self.extra_channels > 0 {
            seq![("extra", self.extra_channels)]
        } else {
            seq![]
        };
        mixed + writes + gate + extra
    }
}

/// The widths of the segments add up to the width of the projection.
pub proof fn law_segments_cover_the_projection(shape: QkvShape)
    requires
        shape.sound(),
        shape.channels() <= usize::MAX,
    ensures
        total_width(shape.layout(), shape.layout().len() as int) == shape.channels(),
{
    shape.lemma_parts();
    reveal_with_fuel(total_width, 9);
}

} // verus!
