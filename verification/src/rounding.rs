//! What amplitudes and angles mean where the arithmetic rounds: each operation
//! gives a number that is close to the one it is named after.
use crate::arith::{
    complex, difference, exponential, imaginary_unit, nearly_zero, negated, norm_square, one,
    product, real_cos, real_frac_1_sqrt_2, real_half, real_less, real_nearly_zero, real_negated,
    real_recip, real_sin, real_sqrt, real_sum, real_zero, scaled, sum, Amplitude,
};
use crate::exact::{
    real_assoc, real_comm, real_dist, real_neg, real_units, times_negate, times_plus, Cx,
};
use crate::matrix::Vector;
use crate::norms::norm2;
use crate::reading::{half, Reading};
use vstd::prelude::*;

verus! {

/// The absolute value.
pub open spec fn size(x: real) -> real {
    if x < 0 as real {
        -x
    } else {
        x
    }
}

/// The sum of the absolute values of both parts, which is not below the absolute
/// value and at most half as large again.
#[verifier::opaque]
pub open spec fn mag(z: Cx) -> real {
    size(z.re) + size(z.im)
}

/// How far apart two numbers are.
pub open spec fn gap(a: Cx, b: Cx) -> real {
    mag(a.plus(b.negate()))
}

/// The size of the two amplitudes that differ from that of `k` in the target bit
/// at most.
pub open spec fn around(psi: Vector, target: nat, k: Set<nat>) -> real {
    mag(psi(k.remove(target))) + mag(psi(k.insert(target)))
}

/// Whether `a` is `b` but for errors: at most `rel` times the amplitudes of `psi`
/// around it, and `least` besides.
pub open spec fn close_to(
    a: Vector,
    b: Vector,
    psi: Vector,
    target: nat,
    rel: real,
    least: real,
) -> bool {
    forall|k: Set<nat>| #[trigger]
        gap(a(k), b(k)) <= rel * around(psi, target, k) + least
}

impl<A: Amplitude> Reading<A> {
    /// Whether the operations on real numbers have errors of at most `e`,
    /// relative to their result or, for the sine and the cosine, to one. What is
    /// taken for zero is at most `d`. Halving, changing the sign and comparing
    /// are exact.
    pub open spec fn rounds_reals(self, e: real, d: real) -> bool {
        &&& forall|r: A::Real| #[trigger] real_zero(r) ==> self.val(r) == 0 as real
        &&& forall|r: A::Real| #[trigger]
            real_frac_1_sqrt_2(r) ==> size(self.val(r) - self.root_half) <= e * self.root_half
        &&& forall|a: A::Real, r: A::Real| #[trigger]
            real_negated(a, r) ==> self.val(r) == -self.val(a)
        &&& forall|a: A::Real, r: A::Real| #[trigger]
            real_half(a, r) ==> self.val(r) == half(self.val(a))
        &&& forall|a: A::Real, b: A::Real, r: A::Real| #[trigger]
            real_sum(a, b, r) ==> size(self.val(r) - (self.val(a) + self.val(b))) <= e * size(
                self.val(a) + self.val(b),
            )
        &&& forall|a: A::Real, r: A::Real| #[trigger]
            real_sin(a, r) ==> size(self.val(r) - self.sin(self.val(a))) <= e
        &&& forall|a: A::Real, r: A::Real| #[trigger]
            real_cos(a, r) ==> size(self.val(r) - self.cos(self.val(a))) <= e
        &&& forall|a: A::Real, r: A::Real| #[trigger]
            real_sqrt(a, r) && self.val(a) >= 0 as real ==> self.root_of(e, self.val(a), self.val(r))
        &&& forall|a: A::Real, r: A::Real| #[trigger]
            real_recip(a, r) && self.val(a) > 0 as real ==> size(
                self.val(a) * self.val(r) - 1 as real,
            ) <= e
        &&& forall|a: A::Real, b: A::Real, r: bool| #[trigger]
            real_less(a, b, r) ==> r == (self.val(a) < self.val(b))
        &&& forall|a: A::Real| #[trigger] real_nearly_zero(a, true) ==> size(self.val(a)) <= d
    }

    /// Whether `r` is the square root of `x` with an error of at most `e`.
    pub open spec fn root_of(self, e: real, x: real, r: real) -> bool {
        &&& r >= 0 as real
        &&& (1 as real - e) * ((1 as real - e) * x) <= r * r
        &&& r * r <= (1 as real + e) * ((1 as real + e) * x)
    }

    /// Whether the operations on complex numbers have errors of at most `e`,
    /// relative to their arguments. What is taken for zero is at most `d`. Putting
    /// a number together and changing the sign are exact.
    pub open spec fn rounds_numbers(self, e: real, d: real) -> bool {
        &&& forall|re: A::Real, im: A::Real, r: A| #[trigger]
            complex(re, im, r) ==> self.num(r) == (Cx { re: self.val(re), im: self.val(im) })
        &&& forall|r: A| #[trigger] one(r) ==> self.num(r) == Cx::one()
        &&& forall|r: A| #[trigger] imaginary_unit(r) ==> self.num(r) == Cx::i()
        &&& forall|a: A, r: A| #[trigger] negated(a, r) ==> self.num(r) == self.num(a).negate()
        &&& forall|a: A, b: A, r: A| #[trigger]
            sum(a, b, r) ==> gap(self.num(r), self.num(a).plus(self.num(b))) <= e * mag(
                self.num(a).plus(self.num(b)),
            )
        &&& forall|a: A, b: A, r: A| #[trigger]
            difference(a, b, r) ==> gap(self.num(r), self.num(a).plus(self.num(b).negate())) <= e
                * mag(self.num(a).plus(self.num(b).negate()))
        &&& forall|a: A, b: A, r: A| #[trigger]
            product(a, b, r) ==> gap(self.num(r), self.num(a).times(self.num(b))) <= e * (mag(
                self.num(a),
            ) * mag(self.num(b)))
        &&& forall|a: A, f: A::Real, r: A| #[trigger]
            scaled(a, f, r) ==> gap(self.num(r), self.num(a).times(Cx::of(self.val(f)))) <= e * (
            mag(self.num(a)) * size(self.val(f)))
        &&& forall|a: A, r: A| #[trigger]
            exponential(a, r) && self.num(a).re == 0 as real ==> gap(
                self.num(r),
                (Cx { re: self.cos(self.num(a).im), im: self.sin(self.num(a).im) }),
            ) <= e
        &&& forall|a: A, r: A::Real| #[trigger]
            norm_square(a, r) ==> size(self.val(r) - norm2(self.num(a))) <= e * norm2(self.num(a))
        &&& forall|a: A| #[trigger] nearly_zero(a, true) ==> mag(self.num(a)) <= d
    }

    /// Whether the arithmetic rounds by at most `e`, and takes for zero what is at
    /// most `d`. Floating point is such an arithmetic while nothing overflows or
    /// underflows: `e` is a few units in the last place.
    pub open spec fn rounds(self, e: real, d: real) -> bool {
        &&& 0 as real <= e
        &&& (100 as real) * e <= 1 as real
        &&& 0 as real <= d
        &&& (100 as real) * d <= 1 as real
        &&& self.trigonometry()
        &&& self.root_half > 0 as real
        &&& (2 as real) * (self.root_half * self.root_half) == 1 as real
        &&& self.rounds_reals(e, d)
        &&& self.rounds_numbers(e, d)
    }
}

// ---------------------------------------------------------------------------
// Inequalities
// ---------------------------------------------------------------------------

/// Both sides of an inequality can be multiplied.
pub(crate) proof fn real_scale(a: real, b: real, c: real)
    by (nonlinear_arith)
    requires
        a <= b,
        0 as real <= c,
    ensures
        a * c <= b * c,
        c * a <= c * b,
{
}

/// Products of what is not negative.
pub(crate) proof fn real_mono(a: real, b: real, c: real, d: real)
    requires
        0 as real <= a <= b,
        0 as real <= c <= d,
    ensures
        0 as real <= a * c <= b * d,
        0 as real <= c * a <= d * b,
{
    real_scale(a, b, c);
    real_scale(c, d, b);
    real_scale(0 as real, a, c);
    real_units(c);
    real_comm(a, c);
    real_comm(b, d);
}

/// A constant can be drawn out of a product.
pub(crate) proof fn real_times(c: real, x: real, y: real)
    by (nonlinear_arith)
    ensures
        (c * x) * y == c * (x * y),
        x * (c * y) == c * (x * y),
{
}

/// The absolute value of a product.
pub(crate) proof fn size_times(x: real, y: real)
    ensures
        size(x * y) == size(x) * size(y),
        size(x) >= 0 as real,
{
    real_neg(x, y);
    let (p, q) = (size(x), size(y));
    real_mono(0 as real, p, 0 as real, q);
    real_units(0 as real);
    real_mono(p, p, q, q);
}

/// Sizes of sums and opposites.
pub(crate) proof fn mag_plus(a: Cx, b: Cx)
    ensures
        mag(a.plus(b)) <= mag(a) + mag(b),
        mag(a) >= 0 as real,
        mag(b) >= 0 as real,
        mag(a.negate()) == mag(a),
        mag(b.negate()) == mag(b),
        mag(Cx::zero()) == 0 as real,
{
    reveal(mag);
}

/// The size of a number with one part.
pub(crate) proof fn mag_part(x: real)
    ensures
        mag(Cx::of(x)) == size(x),
        mag(Cx { re: 0 as real, im: x }) == size(x),
        size(x) >= 0 as real,
{
    reveal(mag);
}

/// Distances by way of a third number.
pub(crate) proof fn gap_via(a: Cx, b: Cx, c: Cx)
    ensures
        gap(a, c) <= gap(a, b) + gap(b, c),
        gap(a, b) >= 0 as real,
        gap(b, c) >= 0 as real,
        gap(b, a) == gap(a, b),
        gap(a, a) == 0 as real,
        mag(a) <= mag(b) + gap(a, b),
        mag(b) <= mag(a) + gap(a, b),
        gap(a, Cx::zero()) == mag(a),
        gap(Cx::zero(), a) == mag(a),
{
    reveal(mag);
}

/// Distances of sums and opposites.
pub(crate) proof fn gap_plus(a: Cx, b: Cx, c: Cx, d: Cx)
    ensures
        gap(a.plus(b), c.plus(d)) <= gap(a, c) + gap(b, d),
        gap(a.negate(), c.negate()) == gap(a, c),
{
    reveal(mag);
}

/// The size of a product is at most the product of the sizes.
pub(crate) proof fn mag_times(a: Cx, b: Cx)
    ensures
        mag(a.times(b)) <= mag(a) * mag(b),
        mag(a) >= 0 as real,
        mag(b) >= 0 as real,
{
    reveal(Cx::times);
    reveal(mag);
    size_times(a.re, b.re);
    size_times(a.im, b.im);
    size_times(a.re, b.im);
    size_times(a.im, b.re);
    let (p, q, r, s) = (size(a.re), size(a.im), size(b.re), size(b.im));
    real_dist(p + q, r, s);
    real_comm(p + q, r);
    real_comm(p + q, s);
    real_dist(r, p, q);
    real_dist(s, p, q);
    real_comm(r, p);
    real_comm(r, q);
    real_comm(s, p);
    real_comm(s, q);
}

/// A factor that is off makes a product off.
pub(crate) proof fn gap_times(v: Cx, f: Cx, x: Cx)
    ensures
        gap(v.times(f), v.times(x)) <= mag(v) * gap(f, x),
        gap(f.times(v), x.times(v)) <= mag(v) * gap(f, x),
        mag(v) >= 0 as real,
        gap(f, x) >= 0 as real,
{
    times_plus(v, f, x.negate());
    times_negate(v, x);
    times_negate(x, v);
    mag_times(v, f.plus(x.negate()));
    mag_times(f.plus(x.negate()), v);
    real_comm(mag(v), gap(f, x));
    gap_via(f, x, x);
}

/// A product of a rounded factor.
pub(crate) proof fn product_off<A: Amplitude>(
    rd: Reading<A>,
    e: real,
    d: real,
    v: A,
    f: A,
    r: A,
    x: Cx,
    b: real,
    m: real,
)
    requires
        rd.rounds(e, d),
        product(v, f, r),
        gap(rd.num(f), x) <= b,
        mag(x) <= m,
    ensures
        gap(rd.num(r), rd.num(v).times(x)) <= (e * (m + b) + b) * mag(rd.num(v)),
        mag(rd.num(v)) >= 0 as real,
{
    let n = rd.num(v);
    let g = rd.num(f);
    gap_times(n, g, x);
    gap_via(g, x, x);
    gap_via(rd.num(r), n.times(g), n.times(x));
    mag_times(n, g);
    real_mono(mag(n), mag(n), mag(g), m + b);
    let p = mag(n) * mag(g);
    real_mono(e, e, p, mag(n) * (m + b));
    real_scale(gap(g, x), b, mag(n));
    real_comm(mag(n), m + b);
    real_assoc(e, m + b, mag(n));
    real_comm(mag(n), b);
    real_dist(mag(n), e * (m + b), b);
    real_comm(mag(n), e * (m + b));
    real_comm(mag(n), e * (m + b) + b);
}

/// The square root of a half.
pub(crate) proof fn root_half_bounds<A: Amplitude>(rd: Reading<A>, e: real, d: real)
    requires
        rd.rounds(e, d),
    ensures
        (4 as real) * rd.root_half <= 3 as real,
{
    let r = rd.root_half;
    if (4 as real) * r > 3 as real {
        real_mono(3 as real / 4 as real, r, 3 as real / 4 as real, r);
    }
}

/// The sine and the cosine are between minus one and one.
pub(crate) proof fn unit_bounds(c: real, s: real)
    requires
        c * c + s * s == 1 as real,
    ensures
        size(c) <= 1 as real,
        size(s) <= 1 as real,
        1 as real - size(s) <= size(c),
        1 as real - size(c) <= size(s),
{
    let (p, q) = (size(c), size(s));
    size_times(c, c);
    size_times(s, s);
    real_neg(c, c);
    real_neg(s, s);
    real_square_above(p);
    real_square_above(q);
    // If both were too small, their squares would be too.
    real_scale(p, 1 as real, p);
    real_scale(q, 1 as real, q);
    real_units(p);
    real_units(q);
}

proof fn real_square_above(x: real)
    by (nonlinear_arith)
    requires
        x >= 0 as real,
    ensures
        x > 1 as real ==> x * x > 1 as real,
        x * x >= 0 as real,
{
}

/// Arithmetic that does not round is arithmetic that rounds by at most anything.
pub proof fn law_exact_rounds<A: Amplitude>(rd: Reading<A>, e: real, d: real)
    requires
        rd.exact(),
        0 as real <= e,
        (100 as real) * e <= 1 as real,
        0 as real <= d,
        (100 as real) * d <= 1 as real,
    ensures
        rd.rounds(e, d),
{
    reveal(mag);
    real_mono(e, e, rd.root_half, rd.root_half);
    assert forall|a: A::Real, b: A::Real, r: A::Real| #[trigger] real_sum(a, b, r) implies size(
        rd.val(r) - (rd.val(a) + rd.val(b)),
    ) <= e * size(rd.val(a) + rd.val(b)) by {
        let x = size(rd.val(a) + rd.val(b));
        real_mono(e, e, x, x);
    }
    assert forall|a: A::Real, r: A::Real| #[trigger]
        real_sqrt(a, r) && rd.val(a) >= 0 as real implies rd.root_of(e, rd.val(a), rd.val(r)) by {
        let x = rd.val(a);
        real_mono(x, x, 1 as real - e, 1 as real);
        real_mono(1 as real - e, 1 as real, (1 as real - e) * x, x);
        real_mono(x, x, 1 as real, 1 as real + e);
        real_mono(1 as real, 1 as real + e, x, (1 as real + e) * x);
        real_units(x);
    }
    assert forall|a: A, b: A, r: A| #[trigger] sum(a, b, r) implies gap(
        rd.num(r),
        rd.num(a).plus(rd.num(b)),
    ) <= e * mag(rd.num(a).plus(rd.num(b))) by {
        let x = mag(rd.num(a).plus(rd.num(b)));
        real_mono(e, e, x, x);
    }
    assert forall|a: A, b: A, r: A| #[trigger] difference(a, b, r) implies gap(
        rd.num(r),
        rd.num(a).plus(rd.num(b).negate()),
    ) <= e * mag(rd.num(a).plus(rd.num(b).negate())) by {
        let x = mag(rd.num(a).plus(rd.num(b).negate()));
        real_mono(e, e, x, x);
    }
    assert forall|a: A, b: A, r: A| #[trigger] product(a, b, r) implies gap(
        rd.num(r),
        rd.num(a).times(rd.num(b)),
    ) <= e * (mag(rd.num(a)) * mag(rd.num(b))) by {
        let (x, y) = (mag(rd.num(a)), mag(rd.num(b)));
        real_mono(x, x, y, y);
        real_mono(e, e, x * y, x * y);
    }
    assert forall|a: A, f: A::Real, r: A| #[trigger] scaled(a, f, r) implies gap(
        rd.num(r),
        rd.num(a).times(Cx::of(rd.val(f))),
    ) <= e * (mag(rd.num(a)) * size(rd.val(f))) by {
        let (x, y) = (mag(rd.num(a)), size(rd.val(f)));
        real_mono(x, x, y, y);
        real_mono(e, e, x * y, x * y);
    }
    assert forall|a: A, r: A::Real| #[trigger] norm_square(a, r) implies size(
        rd.val(r) - norm2(rd.num(a)),
    ) <= e * norm2(rd.num(a)) by {
        let z = rd.num(a);
        real_square_above(size(z.re));
        real_square_above(size(z.im));
        real_neg(z.re, z.re);
        real_neg(z.im, z.im);
        real_mono(e, e, norm2(z), norm2(z));
    }
}

} // verus!
