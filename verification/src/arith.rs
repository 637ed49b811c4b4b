//! The arithmetic that a simulation runs on.
//!
//! The simulator never looks inside a number: it only carries amplitudes and
//! angles around and combines them with the operations below. Nothing is
//! promised of these operations. Every contract that involves a number is
//! stated over what the operations returned, so it holds for floating point,
//! rounding included, as well as for any other arithmetic.
use vstd::prelude::*;

verus! {

/// Real numbers: rotation angles, probabilities and scaling factors.
pub trait Real: Copy {
    /// The number zero.
    fn zero() -> Self;

    /// One over the square root of two.
    fn frac_1_sqrt_2() -> Self;

    /// The opposite number.
    fn negate(self) -> Self;

    /// The sum of two numbers.
    fn plus(self, other: Self) -> Self;

    /// Half of the number.
    fn half(self) -> Self;

    /// The square root.
    fn sqrt(self) -> Self;

    /// One over the number.
    fn recip(self) -> Self;

    /// The sine of an angle in radians.
    fn sin(self) -> Self;

    /// The cosine of an angle in radians.
    fn cos(self) -> Self;

    /// Whether the number is below the other one.
    fn less_than(self, other: Self) -> bool;

    /// Whether the number is so close to zero that it counts as zero.
    fn is_nearly_zero(self) -> bool;

    /// The number as it is shown in a dump of the state.
    fn to_text(self) -> String;
}

/// Complex numbers: the amplitudes of the basis states.
pub trait Amplitude: Copy {
    /// The real numbers that go with these complex ones.
    type Real: Real;

    /// The number with the given real and imaginary part.
    fn new(re: Self::Real, im: Self::Real) -> Self;

    /// The real part.
    fn re(self) -> Self::Real;

    /// The imaginary part.
    fn im(self) -> Self::Real;

    /// The number one.
    fn one() -> Self;

    /// The imaginary unit.
    fn i() -> Self;

    /// The opposite number.
    fn negate(self) -> Self;

    /// The sum of two numbers.
    fn plus(self, other: Self) -> Self;

    /// The difference of two numbers.
    fn minus(self, other: Self) -> Self;

    /// The product of two numbers.
    fn times(self, other: Self) -> Self;

    /// The product with a real number.
    fn scale(self, factor: Self::Real) -> Self;

    /// The square of the absolute value.
    fn norm_sqr(self) -> Self::Real;

    /// The exponential.
    fn exp(self) -> Self;

    /// Whether the number is so close to zero that it counts as zero.
    fn is_nearly_zero(self) -> bool;
}

/// `r` is what `Real::zero` gave.
pub open spec fn real_zero<R: Real>(r: R) -> bool {
    call_ensures(R::zero, (), r)
}

/// `r` is what `Real::frac_1_sqrt_2` gave.
pub open spec fn real_frac_1_sqrt_2<R: Real>(r: R) -> bool {
    call_ensures(R::frac_1_sqrt_2, (), r)
}

/// `r` is what `Real::negate` gave for `a`.
pub open spec fn real_negated<R: Real>(a: R, r: R) -> bool {
    call_ensures(R::negate, (a,), r)
}

/// `r` is what `Real::plus` gave for `a` and `b`.
pub open spec fn real_sum<R: Real>(a: R, b: R, r: R) -> bool {
    call_ensures(R::plus, (a, b), r)
}

/// `r` is what `Real::half` gave for `a`.
pub open spec fn real_half<R: Real>(a: R, r: R) -> bool {
    call_ensures(R::half, (a,), r)
}

/// `r` is what `Real::sqrt` gave for `a`.
pub open spec fn real_sqrt<R: Real>(a: R, r: R) -> bool {
    call_ensures(R::sqrt, (a,), r)
}

/// `r` is what `Real::recip` gave for `a`.
pub open spec fn real_recip<R: Real>(a: R, r: R) -> bool {
    call_ensures(R::recip, (a,), r)
}

/// `r` is what `Real::sin` gave for `a`.
pub open spec fn real_sin<R: Real>(a: R, r: R) -> bool {
    call_ensures(R::sin, (a,), r)
}

/// `r` is what `Real::cos` gave for `a`.
pub open spec fn real_cos<R: Real>(a: R, r: R) -> bool {
    call_ensures(R::cos, (a,), r)
}

/// `r` is what `Real::less_than` gave for `a` and `b`.
pub open spec fn real_less<R: Real>(a: R, b: R, r: bool) -> bool {
    call_ensures(R::less_than, (a, b), r)
}

/// `r` is what `Real::is_nearly_zero` gave for `a`.
pub open spec fn real_nearly_zero<R: Real>(a: R, r: bool) -> bool {
    call_ensures(R::is_nearly_zero, (a,), r)
}

/// `r` is what `Real::to_text` gave for `a`.
pub open spec fn real_text<R: Real>(a: R, r: String) -> bool {
    call_ensures(R::to_text, (a,), r)
}

/// `r` is what `Amplitude::new` gave for `re` and `im`.
pub open spec fn complex<A: Amplitude>(re: A::Real, im: A::Real, r: A) -> bool {
    call_ensures(A::new, (re, im), r)
}

/// `r` is what `Amplitude::re` gave for `a`.
pub open spec fn re_part<A: Amplitude>(a: A, r: A::Real) -> bool {
    call_ensures(A::re, (a,), r)
}

/// `r` is what `Amplitude::im` gave for `a`.
pub open spec fn im_part<A: Amplitude>(a: A, r: A::Real) -> bool {
    call_ensures(A::im, (a,), r)
}

/// `r` is what `Amplitude::one` gave.
pub open spec fn one<A: Amplitude>(r: A) -> bool {
    call_ensures(A::one, (), r)
}

/// `r` is what `Amplitude::i` gave.
pub open spec fn imaginary_unit<A: Amplitude>(r: A) -> bool {
    call_ensures(A::i, (), r)
}

/// `r` is what `Amplitude::negate` gave for `a`.
pub open spec fn negated<A: Amplitude>(a: A, r: A) -> bool {
    call_ensures(A::negate, (a,), r)
}

/// `r` is what `Amplitude::plus` gave for `a` and `b`.
pub open spec fn sum<A: Amplitude>(a: A, b: A, r: A) -> bool {
    call_ensures(A::plus, (a, b), r)
}

/// `r` is what `Amplitude::minus` gave for `a` and `b`.
pub open spec fn difference<A: Amplitude>(a: A, b: A, r: A) -> bool {
    call_ensures(A::minus, (a, b), r)
}

/// `r` is what `Amplitude::times` gave for `a` and `b`.
pub open spec fn product<A: Amplitude>(a: A, b: A, r: A) -> bool {
    call_ensures(A::times, (a, b), r)
}

/// `r` is what `Amplitude::scale` gave for `a` and `factor`.
pub open spec fn scaled<A: Amplitude>(a: A, factor: A::Real, r: A) -> bool {
    call_ensures(A::scale, (a, factor), r)
}

/// `r` is what `Amplitude::norm_sqr` gave for `a`.
pub open spec fn norm_square<A: Amplitude>(a: A, r: A::Real) -> bool {
    call_ensures(A::norm_sqr, (a,), r)
}

/// `r` is what `Amplitude::exp` gave for `a`.
pub open spec fn exponential<A: Amplitude>(a: A, r: A) -> bool {
    call_ensures(A::exp, (a,), r)
}

/// `r` is what `Amplitude::is_nearly_zero` gave for `a`.
pub open spec fn nearly_zero<A: Amplitude>(a: A, r: bool) -> bool {
    call_ensures(A::is_nearly_zero, (a,), r)
}

} // verus!
