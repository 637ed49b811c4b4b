//! Squared absolute values, and the gates that keep their sum.
use crate::exact::{
    conj_times, real_comm, real_neg, real_units, times_assoc, times_comm, times_front, times_plus,
    times_real, times_units, Cx,
};
use crate::gates::{hadamard, identity, rot_x, rot_y};
use crate::matrix::{dot, Mat2};
use vstd::prelude::*;

verus! {

/// The square of the absolute value.
pub open spec fn norm2(z: Cx) -> real {
    z.re * z.re + z.im * z.im
}

/// Whether the matrix keeps the sum of the squared absolute values.
pub open spec fn unitary(m: Mat2) -> bool {
    &&& m.a.times(m.a.conj()).plus(m.c.times(m.c.conj())) == Cx::one()
    &&& m.b.times(m.b.conj()).plus(m.d.times(m.d.conj())) == Cx::one()
    &&& m.a.times(m.b.conj()).plus(m.c.times(m.d.conj())) == Cx::zero()
}

/// A number times its conjugate.
pub(crate) proof fn times_conj(z: Cx)
    ensures
        z.times(z.conj()) == Cx::of(norm2(z)),
{
    reveal(Cx::times);
    real_neg(z.im, z.im);
    real_neg(z.re, z.im);
    real_comm(z.re, z.im);
}

/// The squared absolute value of a product.
pub(crate) proof fn norm2_times(x: Cx, y: Cx)
    ensures
        norm2(x.times(y)) == norm2(x) * norm2(y),
{
    times_conj(x);
    times_conj(y);
    times_conj(x.times(y));
    lemma_pair(x, y, x, y);
    times_real(norm2(x), norm2(y));
}

/// The product of two products, one of them conjugated.
proof fn lemma_pair(a: Cx, x: Cx, b: Cx, y: Cx)
    ensures
        a.times(x).times(b.times(y).conj()) == a.times(b.conj()).times(x.times(y.conj())),
{
    conj_times(b, y);
    let (bc, yc) = (b.conj(), y.conj());
    times_assoc(a, x, bc.times(yc));
    times_front(x, bc, yc);
    times_assoc(a, bc, x.times(yc));
}

/// The squared absolute value of a sum.
proof fn lemma_square_of_sum(a: Cx, b: Cx)
    ensures
        Cx::of(norm2(a.plus(b))) == Cx::of(norm2(a)).plus(Cx::of(norm2(b))).plus(
            a.times(b.conj()).plus(a.times(b.conj()).conj()),
        ),
{
    times_conj(a);
    times_conj(b);
    times_conj(a.plus(b));
    let (ac, bc) = (a.conj(), b.conj());
    assert(a.plus(b).conj() == ac.plus(bc));
    times_plus(a.plus(b), ac, bc);
    times_plus(ac, a, b);
    times_plus(bc, a, b);
    conj_times(a, bc);
    assert(bc.conj() == b);
    times_comm(ac, b);
}

/// A unitary matrix keeps the sum of the squared absolute values.
pub(crate) proof fn unitary_keeps(m: Mat2, x: Cx, y: Cx)
    requires
        unitary(m),
    ensures
        norm2(dot(m.a, x, m.b, y)) + norm2(dot(m.c, x, m.d, y)) == norm2(x) + norm2(y),
{
    let (ax, by, cx, dy) = (m.a.times(x), m.b.times(y), m.c.times(x), m.d.times(y));
    lemma_square_of_sum(ax, by);
    lemma_square_of_sum(cx, dy);
    // The mixed terms cancel.
    let xy = x.times(y.conj());
    lemma_pair(m.a, x, m.b, y);
    lemma_pair(m.c, x, m.d, y);
    times_plus(xy, m.a.times(m.b.conj()), m.c.times(m.d.conj()));
    times_units(xy);
    assert(ax.times(by.conj()).plus(cx.times(dy.conj())) == Cx::zero());
    // The squares add up.
    let (xx, yy) = (x.times(x.conj()), y.times(y.conj()));
    lemma_pair(m.a, x, m.a, x);
    lemma_pair(m.c, x, m.c, x);
    times_plus(xx, m.a.times(m.a.conj()), m.c.times(m.c.conj()));
    times_units(xx);
    lemma_pair(m.b, y, m.b, y);
    lemma_pair(m.d, y, m.d, y);
    times_plus(yy, m.b.times(m.b.conj()), m.d.times(m.d.conj()));
    times_units(yy);
    times_conj(ax);
    times_conj(by);
    times_conj(cx);
    times_conj(dy);
    times_conj(x);
    times_conj(y);
}

/// The gates that can be queued are unitary.
pub(crate) proof fn queued_unitary(f: real, c: real, s: real)
    ensures
        unitary(identity()),
        (2 as real) * (f * f) == (1 as real) ==> unitary(hadamard(f)),
        c * c + s * s == 1 as real ==> unitary(rot_x(c, s)) && unitary(rot_y(c, s)),
{
    reveal(Cx::times);
    real_units(f);
    real_units(-f);
    real_units(c);
    real_units(s);
    real_units(-s);
    real_units(0 as real);
    real_units(-(0 as real));
    real_units(1 as real);
    real_neg(f, f);
    real_neg(s, s);
    real_neg(c, s);
    real_neg(f, 0 as real);
    real_neg(c, 0 as real);
    real_neg(s, 0 as real);
    real_neg(c, -s);
    real_neg(-s, -s);
    real_neg(-s, 0 as real);
    real_units(-(-s));
    real_comm(c, s);
    real_comm(c, -s);
}

} // verus!
