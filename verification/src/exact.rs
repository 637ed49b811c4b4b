//! Complex numbers without rounding, for statements about exact arithmetic.
use vstd::prelude::*;

verus! {

/// A complex number.
#[verifier::ext_equal]
pub struct Cx {
    /// The real part.
    pub re: real,
    /// The imaginary part.
    pub im: real,
}

impl Cx {
    /// The number with the given real part.
    pub open spec fn of(x: real) -> Cx {
        Cx { re: x, im: 0 as real }
    }

    /// The number zero.
    pub open spec fn zero() -> Cx {
        Cx::of(0 as real)
    }

    /// The number one.
    pub open spec fn one() -> Cx {
        Cx::of(1 as real)
    }

    /// The imaginary unit.
    pub open spec fn i() -> Cx {
        Cx { re: 0 as real, im: 1 as real }
    }

    /// The sum.
    pub open spec fn plus(self, other: Cx) -> Cx {
        Cx { re: self.re + other.re, im: self.im + other.im }
    }

    /// The opposite number.
    pub open spec fn negate(self) -> Cx {
        Cx { re: -self.re, im: -self.im }
    }

    /// The complex conjugate.
    pub open spec fn conj(self) -> Cx {
        Cx { re: self.re, im: -self.im }
    }

    /// The product.
    #[verifier::opaque]
    pub open spec fn times(self, other: Cx) -> Cx {
        Cx {
            re: self.re * other.re - self.im * other.im,
            im: self.re * other.im + self.im * other.re,
        }
    }

    /// Whether the absolute value is one.
    pub open spec fn is_phase(self) -> bool {
        self.times(self.conj()) == Cx::one()
    }
}

pub(crate) proof fn real_comm(a: real, b: real)
    by (nonlinear_arith)
    ensures
        a * b == b * a,
{
}

pub(crate) proof fn real_assoc(a: real, b: real, c: real)
    by (nonlinear_arith)
    ensures
        a * (b * c) == (a * b) * c,
{
}

pub(crate) proof fn real_dist(a: real, b: real, c: real)
    by (nonlinear_arith)
    ensures
        a * (b + c) == a * b + a * c,
        a * (b - c) == a * b - a * c,
{
}

proof fn real_dist_right(a: real, b: real, c: real)
    by (nonlinear_arith)
    ensures
        (a + b) * c == a * c + b * c,
        (a - b) * c == a * c - b * c,
{
}

pub(crate) proof fn real_neg(a: real, b: real)
    by (nonlinear_arith)
    ensures
        a * (-b) == -(a * b),
        (-a) * b == -(a * b),
        (-a) * (-b) == a * b,
{
}

pub(crate) proof fn real_units(a: real)
    by (nonlinear_arith)
    ensures
        a * (0 as real) == 0 as real,
        (0 as real) * a == 0 as real,
        a * (1 as real) == a,
        (1 as real) * a == a,
{
}

/// Multiplication is commutative.
pub(crate) proof fn times_comm(a: Cx, b: Cx)
    ensures
        a.times(b) == b.times(a),
{
    reveal(Cx::times);
    real_comm(a.re, b.re);
    real_comm(a.im, b.im);
    real_comm(a.re, b.im);
    real_comm(a.im, b.re);
}

/// Multiplication distributes over addition.
pub(crate) proof fn times_plus(a: Cx, b: Cx, c: Cx)
    ensures
        a.times(b.plus(c)) == a.times(b).plus(a.times(c)),
        b.plus(c).times(a) == b.times(a).plus(c.times(a)),
{
    reveal(Cx::times);
    real_dist(a.re, b.re, c.re);
    real_dist(a.im, b.im, c.im);
    real_dist(a.re, b.im, c.im);
    real_dist(a.im, b.re, c.re);
    times_comm(a, b);
    times_comm(a, c);
    times_comm(a, b.plus(c));
}

/// Multiplication is associative.
pub(crate) proof fn times_assoc(a: Cx, b: Cx, c: Cx)
    ensures
        a.times(b.times(c)) == a.times(b).times(c),
{
    reveal(Cx::times);
    real_dist(a.re, b.re * c.re, b.im * c.im);
    real_dist(a.im, b.re * c.im, b.im * c.re);
    real_dist(a.re, b.re * c.im, b.im * c.re);
    real_dist(a.im, b.re * c.re, b.im * c.im);
    real_dist_right(a.re * b.re, a.im * b.im, c.re);
    real_dist_right(a.re * b.im, a.im * b.re, c.im);
    real_dist_right(a.re * b.re, a.im * b.im, c.im);
    real_dist_right(a.re * b.im, a.im * b.re, c.re);
    real_assoc(a.re, b.re, c.re);
    real_assoc(a.re, b.im, c.im);
    real_assoc(a.im, b.re, c.im);
    real_assoc(a.im, b.im, c.re);
    real_assoc(a.re, b.re, c.im);
    real_assoc(a.re, b.im, c.re);
    real_assoc(a.im, b.re, c.re);
    real_assoc(a.im, b.im, c.im);
}

/// A factor can be moved to the front.
pub(crate) proof fn times_front(a: Cx, b: Cx, c: Cx)
    ensures
        a.times(b.times(c)) == b.times(a.times(c)),
{
    times_assoc(a, b, c);
    times_assoc(b, a, c);
    times_comm(a, b);
}

/// Multiplication by an opposite number.
pub(crate) proof fn times_negate(a: Cx, b: Cx)
    ensures
        a.times(b.negate()) == a.times(b).negate(),
        a.negate().times(b) == a.times(b).negate(),
{
    reveal(Cx::times);
    real_neg(a.re, b.re);
    real_neg(a.im, b.im);
    real_neg(a.re, b.im);
    real_neg(a.im, b.re);
}

/// Multiplication by zero and one.
pub(crate) proof fn times_units(a: Cx)
    ensures
        a.times(Cx::zero()) == Cx::zero(),
        Cx::zero().times(a) == Cx::zero(),
        a.times(Cx::one()) == a,
        Cx::one().times(a) == a,
{
    reveal(Cx::times);
    real_units(a.re);
    real_units(a.im);
}

/// The square of the imaginary unit.
pub(crate) proof fn i_squared()
    ensures
        Cx::i().times(Cx::i()) == Cx::one().negate(),
{
    reveal(Cx::times);
    real_units(1 as real);
    real_units(0 as real);
}

/// The product of real numbers.
pub(crate) proof fn times_real(x: real, y: real)
    ensures
        Cx::of(x).times(Cx::of(y)) == Cx::of(x * y),
{
    reveal(Cx::times);
    real_units(x);
    real_units(y);
    real_units(0 as real);
}

/// The conjugate of a product.
pub(crate) proof fn conj_times(a: Cx, b: Cx)
    ensures
        a.times(b).conj() == a.conj().times(b.conj()),
{
    reveal(Cx::times);
    real_neg(a.re, b.re);
    real_neg(a.im, b.im);
    real_neg(a.re, b.im);
    real_neg(a.im, b.re);
}

/// The product of two numbers of absolute value one is one.
pub(crate) proof fn phase_times(a: Cx, b: Cx)
    requires
        a.is_phase(),
        b.is_phase(),
    ensures
        a.times(b).is_phase(),
{
    let (ac, bc) = (a.conj(), b.conj());
    conj_times(a, b);
    times_assoc(a, b, ac.times(bc));
    times_front(b, ac, bc);
    times_assoc(a, ac, b.times(bc));
    times_units(Cx::one());
}

/// One, its opposite and the imaginary unit have the absolute value one.
pub(crate) proof fn phase_examples()
    ensures
        Cx::one().is_phase(),
        Cx::one().negate().is_phase(),
        Cx::i().is_phase(),
        Cx::i().negate().is_phase(),
{
    times_units(Cx::one());
    i_squared();
    assert(Cx::one().conj() == Cx::one());
    times_negate(Cx::one(), Cx::one());
    times_negate(Cx::one().negate(), Cx::one());
    assert(Cx::one().negate().conj() == Cx::one().negate());
    assert(Cx::i().conj() == Cx::i().negate());
    times_negate(Cx::i(), Cx::i());
    assert(Cx::i().negate().conj() == Cx::i());
}

/// The conjugate of a number of absolute value one is its inverse.
pub(crate) proof fn phase_conj(z: Cx)
    requires
        z.is_phase(),
    ensures
        z.conj().is_phase(),
        z.conj().times(z) == Cx::one(),
{
    assert(z.conj().conj() == z);
    times_comm(z, z.conj());
}

} // verus!
