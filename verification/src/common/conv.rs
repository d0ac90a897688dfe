//! The causal depthwise short convolution and its rolling window.
//!
//! Every channel is filtered on its own, so one convolution over the concatenated
//! query, key and value channels serves all three. The window carries the last
//! `conv_kernel` inputs from one call to the next: what came before the first step
//! of a call is read from there.
//!
//! - window: `[batch, conv_dim, conv_kernel]`
//! - `forward`: `[batch, sequence, conv_dim]` to `[batch, sequence, conv_dim]`
//! - `step`: `[batch, conv_dim]` to `[batch, conv_dim]`
use vstd::prelude::*;

use crate::common::activation::{silu, silu_of};
use crate::common::linear::{
    bound_of, fan_in_bound, offset_by, sequence_of, spread, spread_bias, spread_bias_to, spread_to,
    token_of, with_offset,
};
use crate::mat::Mat;
use crate::matrix::Matrix;
use crate::ring::Real;
use crate::sum::{lemma_sum_ext, sum};
use crate::tensor::Tensor3;

verus! {

/// The activation folded into the short convolution.
#[derive(Debug, Clone, Copy, PartialEq, Eq, Structural)]
pub enum ConvActivation {
    /// `x sigmoid(x)`.
    Silu,
    /// No activation.
    Identity,
}

impl Default for ConvActivation {
    fn default() -> (r: Self)
        ensures
            r == ConvActivation::Silu,
    {
        ConvActivation::Silu
    }
}

impl ConvActivation {
    /// The activation of one value.
    pub open spec fn value<R: Real>(self, x: R) -> R {
        match self {
            ConvActivation::Silu => silu(x),
            ConvActivation::Identity => x,
        }
    }

    /// Applies the activation to one value.
    pub fn apply<T: Real>(self, x: T) -> (r: T)
        ensures
            r == self.value(x),
    {
        match self {
            ConvActivation::Silu => silu_of(x),
            ConvActivation::Identity => x,
        }
    }
}

/// The input of channel `c` at step `t`; before step `0`, what the window holds.
pub open spec fn history<R>(kernel: int, window: Mat<R>, x: Mat<R>, t: int, c: int) -> R {
    if t >= 0 {
        x(t, c)
    } else {
        window(c, kernel + t)
    }
}

/// A causal depthwise convolution with an activation.
pub struct ShortConv<T> {
    /// The filters, `[conv_dim, conv_kernel]`: the last column weighs the newest
    /// input.
    pub weight: Matrix<T>,
    /// The bias, if there is one: one value per channel.
    pub bias: Option<Vec<T>>,
    /// The activation of the output.
    pub activation: ConvActivation,
}

impl<T: Real> ShortConv<T> {
    /// Whether there is a filter and the bias has one value per channel.
    pub open spec fn valid(&self) -> bool {
        &&& self.weight.cols() > 0
        &&& self.bias matches Some(b) ==> b@.len() == self.weight.rows()
    }

    /// The output of channel `c` at step `t` of the sequence `x`, entered with a
    /// window.
    pub open spec fn filtered(&self, window: Mat<T>, x: Mat<T>, t: int, c: int) -> T {
        let kernel = self.weight.cols() as int;
        self.activation.value(
            offset_by(
                self.bias,
                c,
                sum(
                    kernel,
                    |j: int|
                        history(kernel, window, x, t - (kernel - 1) + j, c) * self.weight@(c, j),
                ),
            ),
        )
    }

    /// The window after the first `t` steps of the sequence `x`: the last inputs.
    pub open spec fn window_after(&self, window: Mat<T>, x: Mat<T>, t: int) -> Mat<T> {
        let kernel = self.weight.cols() as int;
        |c: int, j: int| history(kernel, window, x, t - kernel + j, c)
    }

    /// Whether a window has the right shape for a batch.
    pub open spec fn fits(&self, batch: int, window: &Tensor3<T>) -> bool {
        window.has_shape(batch, self.weight.rows() as int, self.weight.cols() as int)
    }

    /// The number of channels.
    pub fn conv_dim(&self) -> (r: usize)
        ensures
            r == self.weight.rows(),
    {
        self.weight.rows()
    }

    /// The window length.
    pub fn conv_kernel(&self) -> (r: usize)
        ensures
            r == self.weight.cols(),
    {
        self.weight.cols()
    }

    /// The window before the first token.
    pub fn zero_window(&self, batch: usize) -> (w: Tensor3<T>)
        ensures
            self.fits(batch as int, &w),
            forall|a: int, c: int, j: int| #[trigger] w@(a, c, j) == T::zero(),
    {
        Tensor3::zeros(batch, self.conv_dim(), self.conv_kernel())
    }

    /// The input `lag` steps before step `t` of sequence `a`.
    fn lagged(x: &Tensor3<T>, window: &Tensor3<T>, a: usize, t: usize, c: usize, lag: usize) -> (r:
        T)
        requires
            a < x.dims().0,
            t < x.dims().1,
            c < x.dims().2,
            window.dims().0 == x.dims().0,
            c < window.dims().1,
            lag <= window.dims().2 + t,
        ensures
            r == history(
                window.dims().2 as int,
                sequence_of(window@, a as int),
                sequence_of(x@, a as int),
                t - lag,
                c as int,
            ),
    {
        if lag <= t {
            x.at(a, t - lag, c)
        } else {
            window.at(a, c, window.dims().2 - (lag - t))
        }
    }

    /// Filters a batch of sequences. Returns the outputs and the window after the
    /// last step.
    pub fn forward(&self, x_bsw: &Tensor3<T>, window_bwc: &Tensor3<T>) -> (r: (
        Tensor3<T>,
        Tensor3<T>,
    ))
        requires
            self.valid(),
            x_bsw.dims().1 > 0,
            x_bsw.dims().2 == self.weight.rows(),
            self.fits(x_bsw.dims().0 as int, window_bwc),
        ensures
            r.0.dims() == x_bsw.dims(),
            self.fits(x_bsw.dims().0 as int, &r.1),
            forall|a: int, t: int, c: int|
                0 <= a < x_bsw.dims().0 && 0 <= t < x_bsw.dims().1 && 0 <= c < x_bsw.dims().2
                    ==> #[trigger] r.0@(a, t, c) == self.filtered(
                    sequence_of(window_bwc@, a),
                    sequence_of(x_bsw@, a),
                    t,
                    c,
                ),
            forall|a: int, c: int, j: int|
                0 <= a < x_bsw.dims().0 && 0 <= c < x_bsw.dims().2 && 0 <= j < self.weight.cols()
                    ==> #[trigger] r.1@(a, c, j) == self.window_after(
                    sequence_of(window_bwc@, a),
                    sequence_of(x_bsw@, a),
                    x_bsw.dims().1 as int,
                )(c, j),
    {
        let (batch, sequence, width) = x_bsw.dims();
        let kernel: usize = self.conv_kernel();
        let f = |a: usize, t: usize, c: usize| -> (r: T)
            requires
                a < batch,
                t < sequence,
                c < width,
            ensures
                r == self.filtered(
                    sequence_of(window_bwc@, a as int),
                    sequence_of(x_bsw@, a as int),
                    t as int,
                    c as int,
                ),
            {
                let ghost (w, x) = (
                    sequence_of(window_bwc@, a as int),
                    sequence_of(x_bsw@, a as int),
                );
                let ghost terms = |j: int|
                    history(kernel as int, w, x, t - (kernel - 1) + j, c as int) * self.weight@(
                        c as int,
                        j,
                    );
                let mut r = T::nil();
                for j in 0..kernel
                    invariant
                        a < batch,
                        t < sequence,
                        c < width,
                        x_bsw.has_shape(batch as int, sequence as int, width as int),
                        kernel == self.weight.cols(),
                        width == self.weight.rows(),
                        self.fits(batch as int, window_bwc),
                        w == sequence_of(window_bwc@, a as int),
                        x == sequence_of(x_bsw@, a as int),
                        terms == (|j: int|
                            history(kernel as int, w, x, t - (kernel - 1) + j, c as int)
                                * self.weight@(c as int, j)),
                        r == sum(j as int, terms),
                {
                    let past = Self::lagged(x_bsw, window_bwc, a, t, c, kernel - 1 - j);
                    r = r.plus(past.times(self.weight.at(c, j)));
                    assert(sum(j + 1, terms) == sum(j as int, terms) + terms(j as int));
                }
                self.activation.apply(with_offset(&self.bias, c, r))
            };
        let y = Tensor3::from_fn(batch, sequence, width, f);
        let g = |a: usize, c: usize, j: usize| -> (r: T)
            requires
                a < batch,
                c < width,
                j < kernel,
            ensures
                r == self.window_after(
                    sequence_of(window_bwc@, a as int),
                    sequence_of(x_bsw@, a as int),
                    sequence as int,
                )(c as int, j as int),
            { Self::lagged(x_bsw, window_bwc, a, sequence - 1, c, kernel - 1 - j) };
        let next = Tensor3::from_fn(batch, width, kernel, g);
        (y, next)
    }

    /// Filters a single token. Slides the window and weighs it with the filter.
    pub fn step(&self, x_bw: &Matrix<T>, window_bwc: &Tensor3<T>) -> (r: (Matrix<T>, Tensor3<T>))
        requires
            self.valid(),
            x_bw.cols() == self.weight.rows(),
            self.fits(x_bw.rows() as int, window_bwc),
        ensures
            r.0.has_shape(x_bw.rows() as int, x_bw.cols() as int),
            self.fits(x_bw.rows() as int, &r.1),
            forall|a: int, c: int|
                0 <= a < x_bw.rows() && 0 <= c < x_bw.cols() ==> #[trigger] r.0@(a, c)
                    == self.filtered(sequence_of(window_bwc@, a), token_of(x_bw@, a), 0, c),
            forall|a: int, c: int, j: int|
                0 <= a < x_bw.rows() && 0 <= c < x_bw.cols() && 0 <= j < self.weight.cols()
                    ==> #[trigger] r.1@(a, c, j) == self.window_after(
                    sequence_of(window_bwc@, a),
                    token_of(x_bw@, a),
                    1,
                )(c, j),
    {
        let (batch, width) = (x_bw.rows(), x_bw.cols());
        let kernel: usize = self.conv_kernel();
        let g = |a: usize, c: usize, j: usize| -> (r: T)
            requires
                a < batch,
                c < width,
                j < kernel,
            ensures
                r == self.window_after(
                    sequence_of(window_bwc@, a as int),
                    token_of(x_bw@, a as int),
                    1,
                )(c as int, j as int),
            {
                if j + 1 < kernel {
                    window_bwc.at(a, c, j + 1)
                } else {
                    x_bw.at(a, c)
                }
            };
        let next = Tensor3::from_fn(batch, width, kernel, g);
        let f = |a: usize, c: usize| -> (r: T)
            requires
                a < batch,
                c < width,
            ensures
                r == self.filtered(
                    sequence_of(window_bwc@, a as int),
                    token_of(x_bw@, a as int),
                    0,
                    c as int,
                ),
            {
                let ghost terms = |j: int| next@(a as int, c as int, j) * self.weight@(c as int, j);
                let mut r = T::nil();
                for j in 0..kernel
                    invariant
                        a < batch,
                        c < width,
                        next.has_shape(batch as int, width as int, kernel as int),
                        kernel == self.weight.cols(),
                        width == self.weight.rows(),
                        terms == (|j: int|
                            next@(a as int, c as int, j) * self.weight@(c as int, j)),
                        r == sum(j as int, terms),
                {
                    r = r.plus(next.at(a, c, j).times(self.weight.at(c, j)));
                    assert(sum(j + 1, terms) == sum(j as int, terms) + terms(j as int));
                }
                proof {
                    let (w, x) = (sequence_of(window_bwc@, a as int), token_of(x_bw@, a as int));
                    let named = |j: int|
                        history(kernel as int, w, x, 0 - (kernel - 1) + j, c as int) * self.weight@(
                            c as int,
                            j,
                        );
                    assert forall|j: int| 0 <= j < kernel implies #[trigger] terms(j) == named(
                        j,
                    ) by {
                        assert(next@(a as int, c as int, j) == self.window_after(w, x, 1)(
                            c as int,
                            j,
                        ));
                    }
                    lemma_sum_ext(kernel as int, terms, named);
                }
                self.activation.apply(with_offset(&self.bias, c, r))
            };
        let y = Matrix::from_fn(batch, width, f);
        (y, next)
    }
}

/// A filtered value depends only on the window and the inputs up to its step.
pub proof fn lemma_filtered_depends<R: Real>(
    conv: ShortConv<R>,
    w: Mat<R>,
    v: Mat<R>,
    x: Mat<R>,
    y: Mat<R>,
    t: int,
    c: int,
)
    requires
        forall|j: int| 0 <= j < conv.weight.cols() ==> #[trigger] w(c, j) == v(c, j),
        forall|i: int| 0 <= i <= t ==> #[trigger] x(i, c) == y(i, c),
        0 <= t,
    ensures
        conv.filtered(w, x, t, c) == conv.filtered(v, y, t, c),
{
    let kernel = conv.weight.cols() as int;
    let f = |j: int| history(kernel, w, x, t - (kernel - 1) + j, c) * conv.weight@(c, j);
    let g = |j: int| history(kernel, v, y, t - (kernel - 1) + j, c) * conv.weight@(c, j);
    assert forall|j: int| 0 <= j < kernel implies #[trigger] f(j) == g(j) by {
        let i = t - (kernel - 1) + j;
        if i >= 0 {
            assert(x(i, c) == y(i, c));
        } else {
            assert(w(c, kernel + i) == v(c, kernel + i));
        }
    }
    lemma_sum_ext(kernel, f, g);
}

/// Filtering from the window that the first `t0` steps left goes on where they
/// stopped.
pub proof fn law_window_continues<R: Real>(
    conv: ShortConv<R>,
    window: Mat<R>,
    x: Mat<R>,
    rest: Mat<R>,
    t0: int,
    t: int,
    c: int,
)
    requires
        conv.valid(),
        0 <= t0,
        0 <= t,
        forall|i: int| 0 <= i <= t ==> #[trigger] rest(i, c) == x(t0 + i, c),
    ensures
        conv.filtered(conv.window_after(window, x, t0), rest, t, c) == conv.filtered(
            window,
            x,
            t0 + t,
            c,
        ),
{
    let kernel = conv.weight.cols() as int;
    let middle = conv.window_after(window, x, t0);
    let f = |j: int| history(kernel, middle, rest, t - (kernel - 1) + j, c) * conv.weight@(c, j);
    let g = |j: int|
        history(kernel, window, x, t0 + t - (kernel - 1) + j, c) * conv.weight@(c, j);
    assert forall|j: int| 0 <= j < kernel implies #[trigger] f(j) == g(j) by {
        let i = t - (kernel - 1) + j;
        if i >= 0 {
            assert(rest(i, c) == x(t0 + i, c));
        }
    }
    lemma_sum_ext(kernel, f, g);
}

/// The window after a call that continues another is the window after one call
/// over both.
pub proof fn law_windows_chain<R: Real>(
    conv: ShortConv<R>,
    window: Mat<R>,
    x: Mat<R>,
    rest: Mat<R>,
    t0: int,
    t: int,
    c: int,
    j: int,
)
    requires
        conv.valid(),
        0 <= t0,
        0 <= t,
        0 <= j < conv.weight.cols(),
        forall|i: int| 0 <= i < t ==> #[trigger] rest(i, c) == x(t0 + i, c),
    ensures
        conv.window_after(conv.window_after(window, x, t0), rest, t)(c, j) == conv.window_after(
            window,
            x,
            t0 + t,
        )(c, j),
{
    let i = t - conv.weight.cols() + j;
    if i >= 0 {
        assert(rest(i, c) == x(t0 + i, c));
    }
}

/// The hyperparameters of a [`ShortConv`].
#[derive(Debug, Clone, Copy)]
pub struct ShortConvConfig {
    /// The number of channels.
    pub conv_dim: usize,
    /// The window length.
    pub conv_kernel: usize,
    /// Whether the convolution carries a bias.
    pub has_bias: bool,
    /// The activation of the output.
    pub activation: ConvActivation,
}

impl ShortConvConfig {
    /// The default convolution over `conv_dim` channels.
    pub fn new(conv_dim: usize) -> (r: Self)
        ensures
            r.conv_dim == conv_dim,
            r.conv_kernel == 4,
            !r.has_bias,
            r.activation == ConvActivation::Silu,
    {
        ShortConvConfig {
            conv_dim,
            conv_kernel: 4,
            has_bias: false,
            activation: ConvActivation::Silu,
        }
    }

    /// The convolution whose parameters are the given draws from `[-1, 1)`, scaled
    /// to `1 / sqrt(conv_kernel)`.
    pub fn init<T: Real>(&self, weight: &Matrix<T>, bias: &Option<Vec<T>>) -> (r: ShortConv<T>)
        requires
            self.conv_kernel > 0,
            weight.has_shape(self.conv_dim as int, self.conv_kernel as int),
            bias is Some == self.has_bias,
            bias matches Some(b) ==> b@.len() == self.conv_dim,
        ensures
            r.valid(),
            r.weight.has_shape(self.conv_dim as int, self.conv_kernel as int),
            r.activation == self.activation,
            spread(weight@, fan_in_bound(self.conv_kernel), r.weight@),
            spread_bias(*bias, fan_in_bound(self.conv_kernel), r.bias),
    {
        let bound = bound_of::<T>(self.conv_kernel);
        ShortConv {
            weight: spread_to(weight, bound),
            bias: spread_bias_to(bias, bound),
            activation: self.activation,
        }
    }
}

} // verus!
