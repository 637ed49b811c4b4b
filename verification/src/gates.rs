//! The matrices of the gates, and how they pass each other.
use crate::exact::{
    i_squared, real_comm, real_neg, real_units, times_comm, times_negate, times_real, times_units,
    Cx,
};
use crate::matrix::Mat2;
use vstd::prelude::*;

verus! {

/// The matrix that changes nothing.
pub open spec fn identity() -> Mat2 {
    Mat2 { a: Cx::one(), b: Cx::zero(), c: Cx::zero(), d: Cx::one() }
}

/// The X gate.
pub open spec fn pauli_x() -> Mat2 {
    Mat2 { a: Cx::zero(), b: Cx::one(), c: Cx::one(), d: Cx::zero() }
}

/// The Y gate.
pub open spec fn pauli_y() -> Mat2 {
    Mat2 { a: Cx::zero(), b: Cx::i().negate(), c: Cx::i(), d: Cx::zero() }
}

/// A gate that multiplies the amplitudes of one by the given number.
pub open spec fn phase_matrix(p: Cx) -> Mat2 {
    Mat2 { a: Cx::one(), b: Cx::zero(), c: Cx::zero(), d: p }
}

/// The Z gate.
pub open spec fn pauli_z() -> Mat2 {
    phase_matrix(Cx::one().negate())
}

/// The H gate, where `f` is one over the square root of two.
pub open spec fn hadamard(f: real) -> Mat2 {
    Mat2 { a: Cx::of(f), b: Cx::of(f), c: Cx::of(f), d: Cx::of(-f) }
}

/// The rotation about X by the angle of whose half `c` is the cosine and `s`
/// the sine.
pub open spec fn rot_x(c: real, s: real) -> Mat2 {
    let n = Cx { re: 0 as real, im: -s };
    Mat2 { a: Cx::of(c), b: n, c: n, d: Cx::of(c) }
}

/// The rotation about Y by the angle of whose half `c` is the cosine and `s`
/// the sine.
pub open spec fn rot_y(c: real, s: real) -> Mat2 {
    Mat2 { a: Cx::of(c), b: Cx::of(-s), c: Cx::of(s), d: Cx::of(c) }
}

/// The rotation about Z by the angle of whose half `c` is the cosine and `s`
/// the sine.
pub open spec fn rot_z(c: real, s: real) -> Mat2 {
    Mat2 { a: Cx { re: c, im: -s }, b: Cx::zero(), c: Cx::zero(), d: Cx { re: c, im: s } }
}

/// The matrix that changes nothing can be left out.
pub proof fn after_identity(m: Mat2)
    ensures
        m.after(identity()) == m,
        identity().after(m) == m,
{
    times_units(m.a);
    times_units(m.b);
    times_units(m.c);
    times_units(m.d);
}

/// X passes rotations about Y, which turn the other way then, and about X.
pub proof fn x_past_rotations(c: real, s: real)
    ensures
        pauli_x().after(rot_y(c, s)) == rot_y(c, -s).after(pauli_x()),
        pauli_x().after(rot_x(c, s)) == rot_x(c, s).after(pauli_x()),
{
    times_units(Cx::of(c));
    times_units(Cx::of(s));
    times_units(Cx::of(-s));
    times_units(Cx { re: 0 as real, im: -s });
}

/// Z passes rotations, which turn the other way then.
pub proof fn z_past_rotations(c: real, s: real)
    ensures
        pauli_z().after(rot_y(c, s)) == rot_y(c, -s).after(pauli_z()),
        pauli_z().after(rot_x(c, s)) == rot_x(c, -s).after(pauli_z()),
{
    let n = Cx { re: 0 as real, im: -s };
    let o = Cx { re: 0 as real, im: s };
    times_units(Cx::of(c));
    times_units(Cx::of(s));
    times_units(Cx::of(-s));
    times_units(n);
    times_units(o);
    times_negate(Cx::one(), Cx::of(c));
    times_negate(Cx::of(c), Cx::one());
    times_negate(Cx::one(), Cx::of(s));
    times_negate(Cx::of(s), Cx::one());
    times_negate(Cx::of(-s), Cx::one());
    times_negate(Cx::one(), n);
    times_negate(o, Cx::one());
    times_negate(n, Cx::one());
    times_negate(Cx::of(c), Cx::zero());
    times_units(Cx::one().negate());
    assert(Cx::zero().negate() == Cx::zero());
}

/// Y passes rotations about Y, and about X, which turn the other way then.
pub proof fn y_past_rotations(c: real, s: real)
    ensures
        pauli_y().after(rot_y(c, s)) == rot_y(c, s).after(pauli_y()),
        pauli_y().after(rot_x(c, s)) == rot_x(c, -s).after(pauli_y()),
{
    let n = Cx { re: 0 as real, im: -s };
    let o = Cx { re: 0 as real, im: s };
    let i = Cx::i();
    times_units(Cx::of(c));
    times_units(Cx::of(s));
    times_units(Cx::of(-s));
    times_units(n);
    times_units(o);
    times_comm(i, Cx::of(c));
    times_comm(i, Cx::of(s));
    times_comm(i, n);
    times_negate(i, Cx::of(c));
    times_negate(Cx::of(c), i);
    times_negate(i, Cx::of(s));
    times_negate(Cx::of(s), i);
    times_negate(i, n);
    times_negate(n, i);
    times_negate(n.negate(), i);
    assert(o == n.negate());
    assert(Cx::of(-s) == Cx::of(s).negate());
    assert(Cx::zero().negate() == Cx::zero());
}

/// H turns X into Z and back, and changes the sign of Y.
pub proof fn past_hadamard(f: real)
    ensures
        pauli_x().after(hadamard(f)) == hadamard(f).after(pauli_z()),
        pauli_z().after(hadamard(f)) == hadamard(f).after(pauli_x()),
        pauli_y().after(hadamard(f)) == hadamard(f).after(pauli_y().scaled(Cx::one().negate())),
{
    let i = Cx::i();
    let m = Cx::one().negate();
    times_units(Cx::of(f));
    times_units(Cx::of(-f));
    times_units(i);
    times_units(Cx::zero());
    times_units(m);
    assert(Cx::of(-f) == Cx::of(f).negate());
    assert(Cx::zero().negate() == Cx::zero());
    assert(i.negate().negate() == i);
    times_negate(Cx::one(), Cx::of(f));
    times_negate(Cx::one(), Cx::of(-f));
    times_negate(Cx::one(), Cx::zero());
    times_negate(Cx::of(f), Cx::one());
    times_negate(Cx::of(-f), Cx::one());
    times_negate(Cx::one(), i);
    times_negate(Cx::one(), i.negate());
    times_comm(i, Cx::of(f));
    times_negate(i, Cx::of(f));
    times_negate(Cx::of(f), i);
    times_negate(Cx::of(f).negate(), i);
    times_negate(i.negate(), Cx::of(f));
}

/// H passes rotations about Y, which turn the other way then, and undoes itself.
pub proof fn hadamard_past_rotation(f: real, c: real, s: real)
    ensures
        hadamard(f).after(rot_y(c, s)) == rot_y(c, -s).after(hadamard(f)),
        (2 as real) * (f * f) == (1 as real) ==> hadamard(f).after(hadamard(f)) == identity(),
{
    assert(Cx::of(-f) == Cx::of(f).negate());
    assert(Cx::of(-s) == Cx::of(s).negate());
    assert(Cx::of(s).negate().negate() == Cx::of(s));
    times_comm(Cx::of(f), Cx::of(c));
    times_comm(Cx::of(f), Cx::of(s));
    times_negate(Cx::of(f), Cx::of(s));
    times_negate(Cx::of(s), Cx::of(f));
    times_negate(Cx::of(f), Cx::of(c));
    times_negate(Cx::of(c), Cx::of(f));
    times_negate(Cx::of(f).negate(), Cx::of(s));
    times_negate(Cx::of(f), Cx::of(f));
    times_negate(Cx::of(f).negate(), Cx::of(f));
    times_negate(Cx::of(s).negate(), Cx::of(f));
    times_real(f, f);
}

/// Rotations about the same axis add up.
pub proof fn rotations_add(c1: real, s1: real, c2: real, s2: real)
    ensures
        rot_x(c1, s1).after(rot_x(c2, s2)) == rot_x(c1 * c2 - s1 * s2, s1 * c2 + c1 * s2),
        rot_y(c1, s1).after(rot_y(c2, s2)) == rot_y(c1 * c2 - s1 * s2, s1 * c2 + c1 * s2),
        rot_z(c1, s1).after(rot_z(c2, s2)) == rot_z(c1 * c2 - s1 * s2, s1 * c2 + c1 * s2),
{
    reveal(Cx::times);
    real_units(c1);
    real_units(c2);
    real_units(s1);
    real_units(s2);
    real_units(-s1);
    real_units(-s2);
    real_units(0 as real);
    real_neg(s1, s2);
    real_neg(c1, s2);
    real_neg(s1, c2);
}

/// Rotations about the same axis commute.
pub proof fn rotations_commute(c1: real, s1: real, c2: real, s2: real)
    ensures
        rot_x(c1, s1).after(rot_x(c2, s2)) == rot_x(c2, s2).after(rot_x(c1, s1)),
        rot_y(c1, s1).after(rot_y(c2, s2)) == rot_y(c2, s2).after(rot_y(c1, s1)),
{
    rotations_add(c1, s1, c2, s2);
    rotations_add(c2, s2, c1, s1);
    real_comm(c1, c2);
    real_comm(s1, s2);
    real_comm(s1, c2);
    real_comm(c1, s2);
}

/// Half a turn is a Pauli gate, and a full turn is nothing, up to a phase.
pub proof fn special_turns(c: real, s: real)
    requires
        c * c + s * s == 1 as real,
    ensures
        c == 0 as real ==> {
            let z = Cx { re: 0 as real, im: -s };
            z.is_phase() && rot_x(c, s) == pauli_x().scaled(z) && rot_y(c, s) == pauli_y().scaled(z)
        },
        s == 0 as real ==> {
            let z = Cx::of(c);
            z.is_phase() && rot_x(c, s) == identity().scaled(z) && rot_y(c, s)
                == identity().scaled(z)
        },
{
    reveal(Cx::times);
    real_units(c);
    real_units(s);
    real_units(-s);
    real_units(0 as real);
    real_units(1 as real);
    real_neg(s, s);
    real_neg(c, 0 as real);
    real_neg(s, 1 as real);
    real_neg(s, 0 as real);
}

/// X, Y, Z and H undo themselves, and a phase is undone by its conjugate.
pub proof fn gates_undone(f: real, p: Cx)
    ensures
        pauli_x().after(pauli_x()) == identity(),
        pauli_y().after(pauli_y()) == identity(),
        pauli_z().after(pauli_z()) == identity(),
        (2 as real) * (f * f) == (1 as real) ==> hadamard(f).after(hadamard(f)) == identity(),
        p.is_phase() ==> phase_matrix(p.conj()).after(phase_matrix(p)) == identity(),
{
    times_units(Cx::one());
    times_units(Cx::zero());
    times_units(Cx::one().negate());
    times_units(Cx::i());
    times_units(Cx::i().negate());
    times_units(p);
    times_units(p.conj());
    i_squared();
    times_negate(Cx::i(), Cx::i());
    times_negate(Cx::one(), Cx::one().negate());
    times_comm(p, p.conj());
    hadamard_past_rotation(f, 0 as real, 0 as real);
}

/// A rotation is undone by the one that turns the other way.
pub proof fn rotations_undone(c: real, s: real)
    requires
        c * c + s * s == 1 as real,
    ensures
        rot_x(c, -s).after(rot_x(c, s)) == identity(),
        rot_y(c, -s).after(rot_y(c, s)) == identity(),
        rot_z(c, -s).after(rot_z(c, s)) == identity(),
{
    rotations_add(c, -s, c, s);
    real_neg(s, s);
    real_neg(s, c);
    real_comm(s, c);
}

/// Two phase gates are one, with the product of their numbers.
pub proof fn phases_combine(p: Cx, q: Cx)
    ensures
        phase_matrix(p).after(phase_matrix(q)) == phase_matrix(p.times(q)),
{
    times_units(Cx::one());
    times_units(Cx::zero());
    times_units(p);
    times_units(q);
}

} // verus!
