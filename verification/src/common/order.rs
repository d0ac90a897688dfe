//! What the gates do to numbers that are ordered as the real numbers are.
use vstd::prelude::*;

use crate::common::activation::{clamped, raised, sigmoid, softplus, twice};
use crate::common::gate::{ChannelForgetGate, ForgetGate, GateDraws};
use crate::common::linear::Row;
use crate::common::qkv::QkvProjection;
use crate::common::shape::WriteGate;
use crate::ring::{
    lemma_add_zero, lemma_mul_neg, lemma_mul_one, lemma_mul_zero, lemma_neg_mul, lemma_neg_neg, lemma_one_mul,
    lemma_sub_is_add_neg, lemma_zero_mul, Real,
};

verus! {

/// Whether sums, products, reciprocals and exponentials go with the order as they do
/// for the real numbers.
pub open spec fn ordered<R: Real>() -> bool {
    &&& forall|a: R, b: R| a.positive() && b.positive() ==> #[trigger] (a + b).positive()
    &&& forall|a: R, b: R| a.positive() && b.positive() ==> #[trigger] (a * b).positive()
    &&& forall|a: R| #[trigger] (-a).positive() ==> !a.positive()
    &&& forall|a: R| a == R::zero() || a.positive() || #[trigger] (-a).positive()
    &&& !R::zero().positive()
    &&& R::one().positive()
    &&& forall|a: R| (#[trigger] a.expo()).positive()
    &&& forall|a: R| a.positive() ==> #[trigger] (a.expo() - R::one()).positive()
    &&& forall|a: R|
        a.positive() ==> (#[trigger] a.recip()).positive() && a * a.recip() == R::one()
}

/// `a <= b`
pub open spec fn at_most<R: Real>(a: R, b: R) -> bool {
    !(a - b).positive()
}

/// A difference, the other way round.
pub proof fn lemma_flip<R: Real>(a: R, b: R)
    ensures
        b - a == -(a - b),
{
    R::sub_is_add_neg(a, b);
    R::sub_is_add_neg(b, a);
    crate::ring::lemma_neg_add(a, -b);
    lemma_neg_neg(b);
    R::add_commutes(-a, b);
}

/// The sum of two values that are not positive.
pub proof fn lemma_sum_not_positive<R: Real>(p: R, q: R)
    requires
        ordered::<R>(),
        !p.positive(),
        !q.positive(),
    ensures
        !(p + q).positive(),
{
    if p == R::zero() {
        crate::ring::lemma_zero_add(q);
    } else if q == R::zero() {
        lemma_add_zero(p);
    } else {
        assert((-p).positive() && (-q).positive());
        assert((-p + -q).positive());
        crate::ring::lemma_neg_add(p, q);
        assert((-(p + q)).positive());
    }
}

/// The product of a value that is not negative and one that is not positive.
pub proof fn lemma_product_not_positive<R: Real>(p: R, q: R)
    requires
        ordered::<R>(),
        !(-p).positive(),
        !q.positive(),
    ensures
        !(p * q).positive(),
{
    if p == R::zero() {
        lemma_zero_mul(q);
    } else if q == R::zero() {
        lemma_mul_zero(p);
    } else {
        assert(p.positive() && (-q).positive());
        assert((p * -q).positive());
        lemma_mul_neg(p, q);
        assert((-(p * q)).positive());
    }
}

/// The order is transitive.
pub proof fn lemma_at_most_chain<R: Real>(a: R, b: R, c: R)
    requires
        ordered::<R>(),
        at_most(a, b),
        at_most(b, c),
    ensures
        at_most(a, c),
{
    lemma_sum_not_positive(a - b, b - c);
    assert((a - b) + (b - c) == a - c) by {
        R::sub_is_add_neg(a, b);
        R::sub_is_add_neg(b, c);
        R::sub_is_add_neg(a, c);
        R::add_associates(a, -b, b + -c);
        R::add_associates(-b, b, -c);
        R::add_commutes(-b, b);
        R::add_neg(b);
        crate::ring::lemma_zero_add(-c);
    }
}

/// Raising to a floor goes with the order.
proof fn lemma_raised<R: Real>(floor: R, a: R, b: R)
    requires
        ordered::<R>(),
        at_most(a, b),
    ensures
        at_most(raised(floor, a), raised(floor, b)),
        at_most(floor, raised(floor, a)),
        at_most(a, raised(floor, a)),
{
    crate::ring::lemma_sub_self(floor);
    crate::ring::lemma_sub_self(a);
    if (floor - a).positive() {
        lemma_flip(floor, a);
        assert(at_most(a, floor)) by {
            if (a - floor).positive() {
                assert((-(floor - a)).positive());
            }
        }
    } else if (floor - b).positive() {
        lemma_flip(floor, b);
        assert(at_most(b, floor)) by {
            if (b - floor).positive() {
                assert((-(floor - b)).positive());
            }
        }
        lemma_at_most_chain(a, b, floor);
    }
}

/// What lies a part of the way from `lo` to `hi` lies between them.
proof fn lemma_between<R: Real>(lo: R, hi: R, part: R)
    requires
        ordered::<R>(),
        at_most(lo, hi),
        !(-part).positive(),
        at_most(part, R::one()),
    ensures
        at_most(lo, lo + part * (hi - lo)),
        at_most(lo + part * (hi - lo), hi),
{
    let (one, d) = (R::one(), hi - lo);
    let x = lo + part * d;
    lemma_flip(hi, lo);
    // lo - x = part (lo - hi)
    assert(lo - x == part * -d) by {
        R::sub_is_add_neg(lo, x);
        crate::ring::lemma_neg_add(lo, part * d);
        R::add_associates(lo, -lo, -(part * d));
        R::add_neg(lo);
        crate::ring::lemma_zero_add(-(part * d));
        lemma_mul_neg(part, d);
    }
    lemma_product_not_positive(part, -d);
    // x - hi = (1 - part) (lo - hi)
    let rest = one - part;
    lemma_flip(part, one);
    lemma_neg_neg(part - one);
    assert(x - hi == rest * -d) by {
        R::sub_is_add_neg(one, part);
        crate::ring::lemma_distributes_right(-d, one, -part);
        lemma_one_mul(-d);
        lemma_neg_mul(part, -d);
        lemma_mul_neg(part, d);
        lemma_neg_neg(part * d);
        assert(rest * -d == -d + part * d);
        R::sub_is_add_neg(lo, hi);
        R::sub_is_add_neg(x, hi);
        let y = part * d;
        assert((lo + y) + -hi == (lo + -hi) + y) by {
            R::add_associates(lo, y, -hi);
            R::add_commutes(y, -hi);
            R::add_associates(lo, -hi, y);
        }
    }
    lemma_product_not_positive(rest, -d);
}

/// The exponential goes with the order.
proof fn lemma_expo_rises<R: Real>(a: R, b: R)
    requires
        ordered::<R>(),
        at_most(a, b),
    ensures
        at_most(a.expo(), b.expo()),
{
    // exp(a) - exp(b) = exp(b) (exp(a - b) - 1)
    let (x, y, one) = (a.expo(), b.expo(), R::one());
    let z = (a - b).expo();
    lemma_decay(a - b);
    assert(y * z == x) by {
        R::expo_add(b, a - b);
        R::sub_is_add_neg(a, b);
        R::add_commutes(a, -b);
        R::add_associates(b, -b, a);
        R::add_neg(b);
        crate::ring::lemma_zero_add(a);
    }
    assert(y * (z - one) == x - y) by {
        R::sub_is_add_neg(z, one);
        R::mul_distributes(y, z, -one);
        lemma_mul_neg(y, one);
        lemma_mul_one(y);
        R::sub_is_add_neg(x, y);
    }
    assert(!(-y).positive());
    lemma_product_not_positive(y, z - one);
}

/// The logarithm goes with the order.
proof fn lemma_ln_rises<R: Real>(a: R, b: R)
    requires
        ordered::<R>(),
        logarithmic::<R>(),
        a.positive(),
        (b - a).positive(),
    ensures
        b.positive(),
        at_most(a.ln(), b.ln()),
{
    assert(b.positive()) by {
        assert((a + (b - a)).positive());
        R::sub_is_add_neg(b, a);
        R::add_commutes(b, -a);
        R::add_associates(a, -a, b);
        R::add_neg(a);
        crate::ring::lemma_zero_add(b);
    }
    let (x, y) = (a.ln(), b.ln());
    assert(x.expo() == a && y.expo() == b);
    if !at_most(x, y) {
        lemma_flip(x, y);
        assert(at_most(y, x)) by {
            if (y - x).positive() {
                assert((-(x - y)).positive());
            }
        }
        lemma_expo_rises(y, x);
    }
}

/// A sigmoid lies above zero and below one.
proof fn lemma_sigmoid<R: Real>(x: R)
    requires
        ordered::<R>(),
    ensures
        sigmoid(x).positive(),
        (R::one() - sigmoid(x)).positive(),
{
    let (one, e, s) = (R::one(), (-x).expo(), sigmoid(x));
    assert(e.positive());
    assert((one + e).positive());
    assert(s.positive() && (one + e) * s == one);
    // 1 - s = e s
    assert((e * s).positive());
    assert(one - s == e * s) by {
        crate::ring::lemma_distributes_right(s, one, e);
        lemma_one_mul(s);
        R::sub_is_add_neg(one, s);
        let es = e * s;
        assert((s + es) + -s == es) by {
            R::add_commutes(s, es);
            R::add_associates(es, s, -s);
            R::add_neg(s);
            lemma_add_zero(es);
        }
    }
}

/// A value held to a range that does not go below zero is not negative.
proof fn lemma_clamped<R: Real>(lo: R, hi: R, x: R)
    requires
        ordered::<R>(),
        !(-lo).positive(),
    ensures
        !(-clamped(lo, hi, x)).positive(),
{
    broadcast use lemma_sub_is_add_neg;

    let r = clamped(lo, hi, x);
    if r != lo && (-r).positive() {
        // Then `lo - r = lo + (-r)` is positive as well, and `r` lies below the range.
        assert((lo - r).positive()) by {
            if lo == R::zero() {
                crate::ring::lemma_zero_add(-r);
            } else {
                assert(lo.positive());
            }
        }
    }
}

/// What is not positive decays: its exponential is positive and at most one.
pub proof fn lemma_decay<R: Real>(g: R)
    requires
        ordered::<R>(),
        !g.positive(),
    ensures
        g.expo().positive(),
        !(g.expo() - R::one()).positive(),
{
    let (x, one) = (g.expo(), R::one());
    if g == R::zero() {
        R::expo_zero();
        crate::ring::lemma_sub_self(one);
    } else {
        // exp(g) exp(-g) = 1 with exp(-g) > 1.
        let y = (-g).expo();
        assert((-g).positive());
        assert((y - one).positive());
        R::expo_add(g, -g);
        R::add_neg(g);
        R::expo_zero();
        assert(x * y == one);
        let gap = x * (y - one);
        assert(gap.positive());
        assert(gap == -(x - one)) by {
            R::sub_is_add_neg(y, one);
            R::mul_distributes(x, y, -one);
            lemma_mul_neg(x, one);
            lemma_mul_one(x);
            R::sub_is_add_neg(x, one);
            crate::ring::lemma_neg_add(x, -one);
            lemma_neg_neg(one);
            R::add_commutes(one, -x);
        }
        if (x - one).positive() {
            assert(!(-(x - one)).positive());
        }
    }
}

/// The forget gate of a head cannot amplify the state: its log decay is never
/// positive, and the decay itself lies above zero and not above one.
pub proof fn law_forget_gate_never_amplifies<R: Real>(gate: ForgetGate<R>, raw: R, h: int)
    requires
        ordered::<R>(),
        !(-gate.dt_limit.0).positive(),
    ensures
        !gate.decay(raw, h).positive(),
        gate.decay(raw, h).expo().positive(),
        !(gate.decay(raw, h).expo() - R::one()).positive(),
{
    let (lo, hi) = gate.dt_limit;
    let x = softplus(raw + gate.dt_bias_h@[h]);
    let (d, e) = (clamped(lo, hi, x), gate.a_log_h@[h].expo());
    lemma_clamped(lo, hi, x);
    let g = gate.decay(raw, h);
    lemma_mul_neg(d, e);
    assert(g == -(d * e));
    if d == R::zero() {
        lemma_zero_mul(e);
        crate::ring::lemma_neg_zero::<R>();
    } else {
        assert(d.positive());
        assert(e.positive());
        assert((d * e).positive());
    }
    lemma_decay(g);
}

/// The forget gate of a key channel cannot amplify the state either, and its log
/// decay stays above the lower bound.
pub proof fn law_channel_gate_never_amplifies<R: Real>(
    gate: ChannelForgetGate<R>,
    raw: Row<R>,
    h: int,
    d: int,
)
    requires
        ordered::<R>(),
        (-gate.lower_bound).positive(),
    ensures
        !gate.decay(raw, h, d).positive(),
        (gate.decay(raw, h, d) - gate.lower_bound).positive(),
        gate.decay(raw, h, d).expo().positive(),
        !(gate.decay(raw, h, d).expo() - R::one()).positive(),
{
    let i = h * gate.head_k_dim + d;
    let x = gate.a_log_h@[h].expo() * (gate.up.image(raw)(i) + gate.dt_bias_i@[i]);
    let (lb, one) = (gate.lower_bound, R::one());
    let (s, g) = (sigmoid(x), gate.decay(raw, h, d));
    lemma_sigmoid(x);
    assert(g == lb * s);
    lemma_neg_mul(lb, s);
    assert((-lb * s).positive());
    assert(-g == -lb * s);
    assert(!g.positive()) by {
        if g.positive() {
            assert(!(-g).positive());
        }
    }
    // g - lb = (-lb) (1 - s)
    assert((-lb * (one - s)).positive());
    assert(g - lb == -lb * (one - s)) by {
        R::sub_is_add_neg(one, s);
        R::mul_distributes(-lb, one, -s);
        lemma_mul_one(-lb);
        lemma_neg_mul(lb, -s);
        lemma_mul_neg(lb, s);
        lemma_neg_neg(lb * s);
        R::sub_is_add_neg(g, lb);
        R::add_commutes(g, -lb);
    }
    lemma_decay(g);
}

/// Whether the logarithm undoes the exponential, and the other way round.
pub open spec fn logarithmic<R: Real>() -> bool {
    &&& forall|a: R| #[trigger] a.expo().ln() == a
    &&& forall|a: R| a.positive() ==> #[trigger] a.ln().expo() == a
}

/// The bias that a forget gate starts with undoes the softplus: from a projected
/// value of zero, the time step is the one that was drawn.
pub proof fn law_bias_inverts_softplus<R: Real>(draws: GateDraws<R>, draw: R)
    requires
        ordered::<R>(),
        logarithmic::<R>(),
        draws.dt(draw).positive(),
    ensures
        softplus(draws.dt_bias(draw)) == draws.dt(draw),
{
    let (dt, one) = (draws.dt(draw), R::one());
    let (up, down) = (dt.expo(), (-dt).expo());
    let y = -(down - one);
    let b = draws.dt_bias(draw);
    // exp(dt) exp(-dt) = 1, and exp(dt) > 1, so that y = 1 - exp(-dt) is positive.
    assert(up * down == one) by {
        R::expo_add(dt, -dt);
        R::add_neg(dt);
        R::expo_zero();
    }
    assert(up * y == up - one) by {
        lemma_mul_neg(up, down - one);
        R::sub_is_add_neg(down, one);
        R::mul_distributes(up, down, -one);
        lemma_mul_neg(up, one);
        lemma_mul_one(up);
        crate::ring::lemma_neg_add(one, -up);
        lemma_neg_neg(up);
        R::add_commutes(-one, up);
        R::sub_is_add_neg(up, one);
    }
    assert(y.positive()) by {
        assert((up - one).positive());
        // y = exp(-dt) (exp(dt) - 1)
        assert(down * (up - one) == y) by {
            R::mul_associates(down, up, y);
            R::mul_commutes(down, up);
            lemma_one_mul(y);
        }
        assert(down.positive());
        assert((down * (up - one)).positive());
    }
    // exp(b) = exp(dt) y = exp(dt) - 1.
    assert(b.expo() == up - one) by {
        R::expo_add(dt, y.ln());
        assert(y.ln().expo() == y);
    }
    assert(one + b.expo() == up) by {
        R::sub_is_add_neg(up, one);
        R::add_commutes(up, -one);
        R::add_associates(one, -one, up);
        R::add_neg(one);
        crate::ring::lemma_zero_add(up);
    }
    assert(up.ln() == dt);
    if b.positive() {
        // 1 + exp(-b) = exp(dt - b).
        let c = (-b).expo();
        assert(b.expo() * c == one) by {
            R::expo_add(b, -b);
            R::add_neg(b);
            R::expo_zero();
        }
        assert(one + c == (dt + -b).expo()) by {
            R::expo_add(dt, -b);
            crate::ring::lemma_distributes_right(c, one, b.expo());
            lemma_one_mul(c);
            R::add_commutes(one, c);
        }
        assert((dt + -b).expo().ln() == dt + -b);
        assert(b + (dt + -b) == dt) by {
            R::add_commutes(dt, -b);
            R::add_associates(b, -b, dt);
            R::add_neg(b);
            crate::ring::lemma_zero_add(dt);
        }
    }
}

/// A forget gate starts with every time step in the range that was asked for: from a
/// projected value of zero it is at least `dt_min` and at least the floor, and no
/// more than `dt_max` or the floor, whichever is greater.
pub proof fn law_initial_steps_in_range<R: Real>(draws: GateDraws<R>, draw: R)
    requires
        ordered::<R>(),
        logarithmic::<R>(),
        draws.valid(),
        !(-draw).positive(),
        at_most(draw, R::one()),
    ensures
        at_most(draws.dt_min, softplus(draws.dt_bias(draw))),
        at_most(draws.dt_init_floor, softplus(draws.dt_bias(draw))),
        at_most(softplus(draws.dt_bias(draw)), raised(draws.dt_init_floor, draws.dt_max)),
{
    let (lo, hi, floor) = (draws.dt_min, draws.dt_max, draws.dt_init_floor);
    let (a, b) = (lo.ln(), hi.ln());
    let x = a + draw * (b - a);
    lemma_ln_rises(lo, hi);
    lemma_between(a, b, draw);
    lemma_expo_rises(a, x);
    lemma_expo_rises(x, b);
    assert(a.expo() == lo && b.expo() == hi);
    let dt = x.expo();
    lemma_raised(floor, dt, hi);
    lemma_at_most_chain(lo, dt, draws.dt(draw));
    // What is at least `dt_min` is positive, so the bias undoes the softplus.
    let r = draws.dt(draw);
    assert(r.positive()) by {
        lemma_flip(lo, r);
        assert(r == lo + (r - lo)) by {
            R::sub_is_add_neg(r, lo);
            R::add_commutes(r, -lo);
            R::add_associates(lo, -lo, r);
            R::add_neg(lo);
            crate::ring::lemma_zero_add(r);
        }
        if r - lo == R::zero() {
            lemma_add_zero(lo);
        } else {
            lemma_neg_neg(lo - r);
            assert((r - lo).positive()) by {
                if !(r - lo).positive() {
                    lemma_neg_neg(r - lo);
                    assert((-(r - lo)).positive());
                }
            }
        }
    }
    law_bias_inverts_softplus(draws, draw);
}

/// A forget gate starts with every decay rate in the range that was asked for,
/// unless both the draw and the lower end of the range are zero: no logarithm stands
/// for a rate of zero.
pub proof fn law_initial_rates_in_range<R: Real>(draws: GateDraws<R>, draw: R)
    requires
        ordered::<R>(),
        logarithmic::<R>(),
        draws.valid(),
        !(-draw).positive(),
        at_most(draw, R::one()),
        draw.positive() || draws.a_init_range.0.positive(),
    ensures
        at_most(draws.a_init_range.0, draws.a_log(draw).expo()),
        at_most(draws.a_log(draw).expo(), draws.a_init_range.1),
{
    let (lo, hi) = draws.a_init_range;
    let part = draw * (hi - lo);
    let x = lo + part;
    lemma_flip(hi, lo);
    assert(at_most(lo, hi)) by {
        if (lo - hi).positive() {
            assert((-(hi - lo)).positive());
        }
    }
    lemma_between(lo, hi, draw);
    assert(x.positive()) by {
        if draw == R::zero() {
            lemma_zero_mul(hi - lo);
            lemma_add_zero(lo);
        } else {
            assert(draw.positive());
            assert(part.positive());
            if lo == R::zero() {
                crate::ring::lemma_zero_add(part);
            } else {
                assert(lo.positive());
            }
        }
    }
    assert(x.ln().expo() == x);
}

/// What lies between zero and one doubles to what lies between zero and two.
proof fn lemma_doubled<R: Real>(x: R)
    requires
        ordered::<R>(),
        x.positive(),
        (R::one() - x).positive(),
    ensures
        twice(x).positive(),
        ((R::one() + R::one()) - twice(x)).positive(),
{
    let one = R::one();
    let two = one + one;
    assert(two.positive());
    assert((x * two).positive());
    assert(((one - x) * two).positive());
    assert((one - x) * two == two - x * two) by {
        R::sub_is_add_neg(one, x);
        crate::ring::lemma_distributes_right(two, one, -x);
        lemma_one_mul(two);
        lemma_neg_mul(x, two);
        R::sub_is_add_neg(two, x * two);
    }
}

/// The write gates stay in range: each erase and write gate is positive, a gate that
/// may reach two stays below two, and any other below one. A fixed gate stands at the
/// top of the range.
pub proof fn law_write_gates_in_range<R: Real>(
    front: QkvProjection<R>,
    raw: Row<R>,
    j: int,
    h: int,
    i: int,
)
    requires
        ordered::<R>(),
    ensures
        ({
            let one = R::one();
            let top = if front.allow_neg_eigval {
                one + one
            } else {
                one
            };
            let (erase, write) = (front.erase(raw, j, h, i), front.write(raw, j, h, i));
            &&& erase.positive()
            &&& write.positive()
            &&& match front.write_gate {
                WriteGate::Fixed => erase == top && write == one,
                WriteGate::Scalar => (top - erase).positive() && write == erase,
                WriteGate::Channel => (top - erase).positive() && (one - write).positive(),
            }
        }),
{
    let one = R::one();
    let two = one + one;
    let shape = front.shape();
    assert(two.positive());
    lemma_one_mul(two);
    let (b, e, w) = (
        raw(shape.beta_at(j, h)),
        raw(shape.erase_at(j, h, i)),
        raw(shape.write_at(j, h, i)),
    );
    lemma_sigmoid(b);
    lemma_sigmoid(e);
    lemma_sigmoid(w);
    lemma_doubled(sigmoid(b));
    lemma_doubled(sigmoid(e));
}

} // verus!
