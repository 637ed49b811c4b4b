//! What a rotation about X or Y does to the state vector where the arithmetic
//! rounds.
use crate::amplitudes::lemma_multiplies;
use crate::applied::rotation;
use crate::arith::{
    complex, nearly_zero, product, real_cos, real_half, real_negated, real_sin, real_zero,
    Amplitude,
};
use crate::controls::phase_after;
use crate::errors::{
    entries_near, lemma_factors, lemma_gate_close, lemma_gate_off, lemma_phase_factor,
    lemma_rotation_off,
};
use crate::exact::{phase_examples, real_comm, real_dist, real_neg, real_units, times_units, Cx};
use crate::gates::{identity, pauli_x, pauli_y, phase_matrix, rot_x, rot_y};
use crate::logical::{act_identity, lemma_targets};
use crate::matrix::{act, act_scaled, times_vector, times_vector_one, Mat2, Vector};
use crate::model::{all_set, ids_apart, locations, Mix, SimModel, Transform};
use crate::reading::{half, Reading};
use crate::rounding::{
    around, close_to, gap, gap_plus, gap_times, gap_via, mag, mag_part, mag_plus, mag_times,
    real_mono, real_scale, real_times, size, unit_bounds,
};
use crate::sim::lemma_first_applicable;
use crate::steps::{
    controls_phase, half_turn_gate, half_turn_step, mix_step, no_controls, rotation_diagonal,
    rotation_lower, rotation_step, rotation_unit, rotation_upper, transform_step,
};
use vstd::prelude::*;

verus! {

/// The entries of the matrix of a rotation.
proof fn lemma_entries<A: Amplitude>(
    rd: Reading<A>,
    e: real,
    d: real,
    theta: A::Real,
    about_y: bool,
    m00: A,
    m01: A,
)
    requires
        rd.rounds(e, d),
        rotation_diagonal(theta, m00),
        rotation_upper(theta, about_y, m01),
    ensures
        gap(rd.num(m00), Cx::of(rd.cos_half(theta))) <= e,
        gap(rd.num(m01), rotation(rd, theta, about_y).b) <= (3 as real) * e,
        forall|m10: A| #[trigger]
            rotation_lower(about_y, m01, m10) ==> entries_near(
                rd,
                e,
                m00,
                m01,
                m10,
                rotation(rd, theta, about_y),
            ),
        rd.cos_half(theta) * rd.cos_half(theta) + rd.sin_half(theta) * rd.sin_half(theta)
            == 1 as real,
{
    let x = half(rd.val(theta));
    assert(rd.turns_back(x));
    assert(rd.cos(x) * rd.cos(x) + rd.sin(x) * rd.sin(x) == 1 as real);
    unit_bounds(rd.cos(x), rd.sin(x));
    let m = rotation(rd, theta, about_y);
    let (h, c, z) = choose|h: A::Real, c: A::Real, z: A::Real| #[trigger]
        real_half(theta, h) && #[trigger] real_cos(h, c)
            && real_zero(z) && #[trigger] complex(c, z, m00);
    mag_part(rd.val(c) - rd.cos(x));
    assert(rd.num(m00).plus(Cx::of(rd.cos(x)).negate()) == Cx::of(rd.val(c) - rd.cos(x)));
    let (h, n, s, z, base, unit) = choose|
        h: A::Real,
        n: A::Real,
        s: A::Real,
        z: A::Real,
        base: A,
        unit: A,
    | #[trigger]
        real_half(theta, h) && #[trigger] real_negated(h, n)
            && #[trigger] real_sin(n, s) && real_zero(z)
            && #[trigger] complex(z, s, base) && rotation_unit(about_y, unit)
            && #[trigger] product(base, unit, m01);
    let (b, u) = (rd.num(base), rd.num(unit));
    let w = Cx { re: 0 as real, im: rd.sin(-x) };
    let t = rd.sin(-x);
    assert(b.plus(w.negate()) == Cx { re: 0 as real, im: rd.val(s) - t });
    mag_part(rd.val(s) - t);
    mag_part(t);
    mag_part(1 as real);
    mag_part(-(1 as real));
    gap_via(b, w, w);
    assert(mag(b) <= 2 as real);
    assert(mag(u) == 1 as real) by {
        assert(Cx::i() == Cx { re: 0 as real, im: 1 as real });
        assert(Cx::i().negate() == Cx { re: 0 as real, im: -(1 as real) });
    }
    real_units(mag(b));
    real_scale(mag(b), 2 as real, e);
    gap_times(u, b, w);
    real_units(gap(b, w));
    times_units(w);
    assert(w.times(Cx::i().negate()) == Cx::of(t)) by {
        reveal(Cx::times);
        real_units(t);
        real_neg(t, 1 as real);
        real_neg(0 as real, 1 as real);
        real_units(0 as real);
        real_units(-(0 as real));
    }
    assert(w.times(u) == m.b);
    gap_via(rd.num(m01), b.times(u), m.b);
    mag_part(rd.cos(x));
    mag_part(rd.sin(x));
    mag_part(-rd.sin(x));
    assert forall|m10: A| #[trigger] rotation_lower(about_y, m01, m10) implies entries_near(
        rd,
        e,
        m00,
        m01,
        m10,
        m,
    ) by {
        if about_y {
            gap_plus(rd.num(m01), Cx::zero(), m.b, Cx::zero());
            assert(m.c == m.b.negate());
        }
    }
}

/// Gates whose matrices are a little apart.
proof fn lemma_matrix_off(
    m: Mat2,
    n: Mat2,
    ctls: Seq<usize>,
    t: nat,
    psi: Vector,
    b: real,
    k: Set<nat>,
)
    requires
        gap(m.a, n.a) <= b,
        gap(m.b, n.b) <= b,
        gap(m.c, n.c) <= b,
        gap(m.d, n.d) <= b,
        0 as real <= b,
    ensures
        gap(act(m, ctls, t, psi)(k), act(n, ctls, t, psi)(k)) <= b * around(psi, t, k),
        around(psi, t, k) >= 0 as real,
{
    let (v0, v1) = (psi(k.remove(t)), psi(k.insert(t)));
    mag_plus(v0, v1);
    let a = around(psi, t, k);
    real_mono(0 as real, b, 0 as real, a);
    real_units(0 as real);
    if all_set(k, ctls) {
        let (p, q, r, s) = if k.contains(t) {
            (m.c, m.d, n.c, n.d)
        } else {
            (m.a, m.b, n.a, n.b)
        };
        gap_times(v0, p, r);
        gap_times(v1, q, s);
        gap_plus(p.times(v0), q.times(v1), r.times(v0), s.times(v1));
        real_scale(gap(p, r), b, mag(v0));
        real_scale(gap(q, s), b, mag(v1));
        real_dist(b, mag(v0), mag(v1));
        real_comm(b, mag(v0));
        real_comm(b, mag(v1));
    } else {
        gap_via(psi(k), psi(k), psi(k));
    }
}

/// What a Pauli gate leaves is not larger than what was there.
proof fn lemma_pauli_size(about_y: bool, ctls: Seq<usize>, t: nat, psi: Vector, k: Set<nat>)
    ensures
        mag(act(if about_y { pauli_y() } else { pauli_x() }, ctls, t, psi)(k)) <= around(psi, t, k),
{
    let (v0, v1) = (psi(k.remove(t)), psi(k.insert(t)));
    mag_plus(v0, v1);
    times_units(v0);
    times_units(v1);
    mag_times(Cx::i(), v0);
    mag_times(Cx::i().negate(), v1);
    mag_plus(Cx::i(), Cx::i());
    mag_part(1 as real);
    real_units(mag(v0));
    real_units(mag(v1));
    assert(Cx::i() == Cx { re: 0 as real, im: 1 as real });
    if k.contains(t) {
        assert(k.insert(t) =~= k);
    } else {
        assert(k.remove(t) =~= k);
    }
    mag_plus(Cx::i().times(v0), Cx::zero());
    mag_plus(Cx::zero(), Cx::i().negate().times(v1));
    mag_plus(v0, Cx::zero());
    mag_plus(Cx::zero(), v1);
}

/// A phase on the controls of a gate that is a little off.
proof fn lemma_controls_off<A: Amplitude>(
    rd: Reading<A>,
    e: real,
    d: real,
    mid: SimModel<A>,
    ctls: Seq<usize>,
    q: usize,
    phase: A,
    psi: Vector,
    m: Mat2,
    post: SimModel<A>,
    g: real,
    k: Set<nat>,
)
    requires
        rd.rounds(e, d),
        ids_apart(mid.ids),
        mid.applicable(ctls, q),
        ctls.len() > 0,
        mag(rd.num(phase)) <= 2 as real,
        controls_phase(mid, ctls, phase, post),
        gap(
            rd.vector(mid.state)(k),
            act(m, locations(mid.ids, ctls), mid.ids[q] as nat, psi)(k),
        ) <= g,
        mag(act(m, locations(mid.ids, ctls), mid.ids[q] as nat, psi)(k)) <= around(
            psi,
            mid.ids[q] as nat,
            k,
        ),
    ensures
        gap(
            rd.vector(post.state)(k),
            act(m.scaled(rd.num(phase)), locations(mid.ids, ctls), mid.ids[q] as nat, psi)(k),
        ) <= ((3 as real) * e) * (around(psi, mid.ids[q] as nat, k) + g) + (3 as real) * g + d,
{
    let (locs, loc) = (locations(mid.ids, ctls), mid.ids[q] as nat);
    let (rest, first) = (locs.drop_first(), locs[0] as nat);
    let p = rd.num(phase);
    let pm = phase_matrix(p);
    lemma_targets(mid, ctls, q);
    lemma_first_applicable(mid, ctls, q);
    lemma_targets(mid, ctls.drop_first(), ctls[0]);
    assert(locations(mid.ids, ctls.drop_first()) =~= rest);
    assert(first == mid.ids[ctls[0]] as nat);
    let mv = rd.vector(mid.state);
    let x = act(m, locs, loc, psi);
    lemma_phase_factor(rd, e, d, phase);
    phase_after(p, m, locs, loc, psi);
    lemma_gate_off(
        rd,
        e,
        d,
        mid.state,
        rest,
        first,
        Transform::Phase(phase),
        post.state,
        pm,
        0 as real,
        1 as real + mag(p),
        k,
    );
    lemma_multiplies(pm, rest, first, mv);
    lemma_multiplies(pm, rest, first, x);
    times_units(mv(k));
    times_units(x(k));
    gap_times(p, mv(k), x(k));
    gap_via(mv(k), x(k), x(k));
    real_mono(mag(p), 2 as real, gap(mv(k), x(k)), g);
    let l = act(pm, rest, first, mv)(k);
    let r = act(pm, rest, first, x)(k);
    assert(gap(l, r) <= (2 as real) * g);
    gap_via(rd.vector(post.state)(k), l, r);
    let a = around(psi, loc, k);
    mag_plus(mv(k), mv(k));
    assert(mag(mv(k)) <= a + g);
    real_scale(1 as real + mag(p), 3 as real, e);
    real_mono(e * (1 as real + mag(p)), (3 as real) * e, mag(mv(k)), a + g);
}

/// Half a turn and the Pauli gate, and a full turn and nothing, up to a phase.
proof fn lemma_special_off(c: real, s: real, about_y: bool) -> (r: (Cx, Cx))
    requires
        c * c + s * s == 1 as real,
    ensures
        r.0.is_phase(),
        r.1.is_phase(),
        ({
            let m = if about_y {
                rot_y(c, s)
            } else {
                rot_x(c, s)
            };
            let pauli = if about_y {
                pauli_y()
            } else {
                pauli_x()
            };
            let turned = m.scaled(r.0);
            let still = m.scaled(r.1);
            &&& gap(pauli.a, turned.a) <= size(c)
            &&& gap(pauli.b, turned.b) <= size(c)
            &&& gap(pauli.c, turned.c) <= size(c)
            &&& gap(pauli.d, turned.d) <= size(c)
            &&& gap(identity().a, still.a) <= size(s)
            &&& gap(identity().b, still.b) <= size(s)
            &&& gap(identity().c, still.c) <= size(s)
            &&& gap(identity().d, still.d) <= size(s)
        }),
{
    reveal(Cx::times);
    reveal(mag);
    phase_examples();
    unit_bounds(c, s);
    real_units(c);
    real_units(s);
    real_units(-s);
    real_units(0 as real);
    real_units(1 as real);
    real_neg(c, 1 as real);
    real_neg(s, 1 as real);
    real_neg(0 as real, 1 as real);
    real_neg(1 as real, c);
    real_neg(1 as real, s);
    real_neg(1 as real, 0 as real);
    real_units(-(1 as real));
    let z = if s < 0 as real {
        Cx::i().negate()
    } else {
        Cx::i()
    };
    let w = if c < 0 as real {
        Cx::one().negate()
    } else {
        Cx::one()
    };
    (z, w)
}

/// A Pauli gate times a number that is almost that of half a turn.
proof fn lemma_half_off(c: real, s: real, about_y: bool, p: Cx, b: real)
    requires
        gap(p, Cx { re: 0 as real, im: -s }) <= b,
        size(c) <= b,
    ensures
        ({
            let m = if about_y {
                rot_y(c, s)
            } else {
                rot_x(c, s)
            };
            let turned = (if about_y {
                pauli_y()
            } else {
                pauli_x()
            }).scaled(p);
            &&& gap(turned.a, m.a) <= b
            &&& gap(turned.b, m.b) <= b
            &&& gap(turned.c, m.c) <= b
            &&& gap(turned.d, m.d) <= b
        }),
{
    reveal(Cx::times);
    reveal(mag);
    real_units(p.re);
    real_units(p.im);
    real_neg(p.re, 1 as real);
    real_neg(p.im, 1 as real);
    real_neg(p.re, 0 as real);
    real_neg(p.im, 0 as real);
}

/// A full turn as a number that is almost that of the turn.
proof fn lemma_full_off(c: real, s: real, about_y: bool, p: Cx, b: real)
    requires
        gap(p, Cx::of(c)) <= b,
        size(s) <= b,
    ensures
        ({
            let m = if about_y {
                rot_y(c, s)
            } else {
                rot_x(c, s)
            };
            let turned = identity().scaled(p);
            &&& gap(turned.a, m.a) <= b
            &&& gap(turned.b, m.b) <= b
            &&& gap(turned.c, m.c) <= b
            &&& gap(turned.d, m.d) <= b
        }),
{
    reveal(mag);
    times_units(p);
}

/// The error of a rotation relative to the amplitudes, where each operation has
/// an error of at most `e` and what is at most `d` is taken for zero.
pub open spec fn turn_error(e: real, d: real) -> real {
    (16 as real) * (e + d)
}

/// A rotation past whatever is queued does to the state vector what its matrix
/// says, but for errors, and up to a phase if there are no controls.
pub proof fn law_rotation_rounded<A: Amplitude>(
    rd: Reading<A>,
    e: real,
    d: real,
    pre: SimModel<A>,
    ctls: Seq<usize>,
    theta: A::Real,
    target: usize,
    about_y: bool,
    post: SimModel<A>,
) -> (z: Cx)
    requires
        rd.rounds(e, d),
        ids_apart(pre.ids),
        pre.applicable(ctls, target),
        rotation_step(pre, ctls, theta, target, about_y, post),
    ensures
        post == (SimModel { state: post.state, ..pre }),
        z.is_phase(),
        ctls.len() > 0 ==> z == Cx::one(),
        close_to(
            rd.vector(post.state),
            times_vector(
                z,
                act(
                    rotation(rd, theta, about_y),
                    locations(pre.ids, ctls),
                    pre.ids[target] as nat,
                    rd.vector(pre.state),
                ),
            ),
            rd.vector(pre.state),
            pre.ids[target] as nat,
            turn_error(e, d),
            (6 as real) * d,
        ),
{
    let (m00, m01) = choose|m00: A, m01: A| #[trigger]
        rotation_diagonal(theta, m00) && #[trigger] rotation_upper(theta, about_y, m01) && {
            ||| nearly_zero(m00, true) && half_turn_step(pre, ctls, theta, target, about_y, post)
            ||| nearly_zero(m00, false) && nearly_zero(m01, true) && controls_phase(
                pre,
                ctls,
                m00,
                post,
            )
            ||| nearly_zero(m00, false) && nearly_zero(m01, false) && exists|m10: A| #[trigger]
                rotation_lower(about_y, m01, m10) && mix_step(
                    pre,
                    ctls,
                    target,
                    Mix::Rotation { m00, m01, m10 },
                    post,
                )
        };
    let (locs, loc) = (locations(pre.ids, ctls), pre.ids[target] as nat);
    let psi = rd.vector(pre.state);
    let m = rotation(rd, theta, about_y);
    let (c, s) = (rd.cos_half(theta), rd.sin_half(theta));
    let turned = act(m, locs, loc, psi);
    lemma_targets(pre, ctls, target);
    lemma_entries(rd, e, d, theta, about_y, m00, m01);
    phase_examples();
    times_vector_one(turned);
    mag_part(c);
    mag_part(s);
    mag_part(-s);
    if nearly_zero(m00, true) && half_turn_step(pre, ctls, theta, target, about_y, post) {
        gap_via(rd.num(m00), Cx::of(c), Cx::of(c));
        assert(size(c) <= e + d);
        lemma_half_turn(rd, e, d, pre, ctls, theta, target, about_y, post, m00)
    } else if nearly_zero(m01, true) && controls_phase(pre, ctls, m00, post) {
        gap_via(rd.num(m01), m.b, m.b);
        assert(size(s) <= (3 as real) * e + d);
        lemma_full_turn(rd, e, d, pre, ctls, theta, target, about_y, post, m00)
    } else {
        let m10 = choose|m10: A| #[trigger]
            rotation_lower(about_y, m01, m10) && mix_step(
                pre,
                ctls,
                target,
                Mix::Rotation { m00, m01, m10 },
                post,
            );
        let l = rd.vector(post.state);
        assert forall|k: Set<nat>| #[trigger]
            gap(l(k), times_vector(Cx::one(), turned)(k)) <= turn_error(e, d) * around(psi, loc, k)
                + (6 as real) * d by {
            lemma_rotation_off(rd, e, d, pre.state, locs, loc, m00, m01, m10, m, post.state, k);
            mag_plus(psi(k.remove(loc)), psi(k.insert(loc)));
            real_scale((8 as real) * e, turn_error(e, d), around(psi, loc, k));
        }
        Cx::one()
    }
}

proof fn lemma_half_turn<A: Amplitude>(
    rd: Reading<A>,
    e: real,
    d: real,
    pre: SimModel<A>,
    ctls: Seq<usize>,
    theta: A::Real,
    target: usize,
    about_y: bool,
    post: SimModel<A>,
    m00: A,
) -> (z: Cx)
    requires
        rd.rounds(e, d),
        ids_apart(pre.ids),
        pre.applicable(ctls, target),
        rotation_diagonal(theta, m00),
        size(rd.cos_half(theta)) <= e + d,
        half_turn_step(pre, ctls, theta, target, about_y, post),
    ensures
        post == (SimModel { state: post.state, ..pre }),
        z.is_phase(),
        ctls.len() > 0 ==> z == Cx::one(),
        close_to(
            rd.vector(post.state),
            times_vector(
                z,
                act(
                    rotation(rd, theta, about_y),
                    locations(pre.ids, ctls),
                    pre.ids[target] as nat,
                    rd.vector(pre.state),
                ),
            ),
            rd.vector(pre.state),
            pre.ids[target] as nat,
            turn_error(e, d),
            (6 as real) * d,
        ),
{
    let (locs, loc) = (locations(pre.ids, ctls), pre.ids[target] as nat);
    let psi = rd.vector(pre.state);
    let m = rotation(rd, theta, about_y);
    let (c, s) = (rd.cos_half(theta), rd.sin_half(theta));
    let turned = act(m, locs, loc, psi);
    let gate = half_turn_gate::<A>(about_y);
    let pauli = if about_y {
        pauli_y()
    } else {
        pauli_x()
    };
    let (mid, phase) = choose|mid: SimModel<A>, phase: A| #[trigger]
        transform_step(pre, ctls, target, gate, mid) && #[trigger] rotation_upper(
            theta,
            false,
            phase,
        ) && controls_phase(mid, ctls, phase, post);
    lemma_targets(pre, ctls, target);
    lemma_entries(rd, e, d, theta, false, m00, phase);
    lemma_factors::<A>(rd, e, d);
    real_units(e);
    let l = rd.vector(post.state);
    let mv = rd.vector(mid.state);
    lemma_gate_close(
        rd,
        e,
        d,
        pre.state,
        locs,
        loc,
        gate,
        mid.state,
        pauli,
        0 as real,
        1 as real,
        e,
    );
    if ctls.len() == 0 {
        let (z, w) = lemma_special_off(c, s, about_y);
        assert(locs =~= no_controls());
        act_scaled(m, loc, z, psi);
        let r = times_vector(z, turned);
        assert forall|k: Set<nat>| #[trigger] gap(l(k), r(k)) <= turn_error(e, d) * around(
            psi,
            loc,
            k,
        ) + (6 as real) * d by {
            let a = around(psi, loc, k);
            let x = act(pauli, locs, loc, psi)(k);
            assert(gap(mv(k), x) <= e * a + d);
            lemma_matrix_off(pauli, m.scaled(z), locs, loc, psi, e + d, k);
            gap_via(l(k), x, r(k));
            real_scale(e, e + d, a);
            real_scale((2 as real) * (e + d), turn_error(e, d), a);
            real_times(2 as real, e + d, a);
        }
        z
    } else {
        let p = rd.num(phase);
        let n = Cx { re: 0 as real, im: -s };
        mag_part(-s);
        unit_bounds(c, s);
        gap_via(p, n, n);
        assert(mag(p) <= 2 as real);
        let b = (3 as real) * (e + d);
        lemma_half_off(c, s, about_y, p, b);
        times_vector_one(turned);
        phase_examples();
        assert forall|k: Set<nat>| #[trigger]
            gap(l(k), times_vector(Cx::one(), turned)(k)) <= turn_error(e, d) * around(psi, loc, k)
                + (6 as real) * d by {
            let a = around(psi, loc, k);
            let x = act(pauli, locs, loc, psi)(k);
            let g = e * a + d;
            assert(gap(mv(k), x) <= g);
            lemma_pauli_size(about_y, locs, loc, psi, k);
            lemma_controls_off(rd, e, d, mid, ctls, target, phase, psi, pauli, post, g, k);
            let y = act(pauli.scaled(p), locs, loc, psi)(k);
            lemma_matrix_off(pauli.scaled(p), m, locs, loc, psi, b, k);
            gap_via(l(k), y, turned(k));
            // The error is at most 3e(a + g) + 3g + d + ba.
            real_scale(e, 1 as real, a);
            real_units(a);
            assert(a + g <= (2 as real) * a + d);
            real_scale(a + g, (2 as real) * a + d, (3 as real) * e);
            real_times(3 as real, e, a);
            real_times(6 as real, e, a);
            real_dist((3 as real) * e, (2 as real) * a, d);
            real_times(2 as real, (3 as real) * e, a);
            real_scale((3 as real) * e, 1 as real, d);
            real_units(d);
            real_comm((3 as real) * e, d);
            assert(gap(l(k), turned(k)) <= (6 as real) * (e * a) + d + (3 as real) * (e * a)
                + (3 as real) * d + d + b * a);
            real_times(3 as real, e + d, a);
            real_times(16 as real, e + d, a);
            real_scale(e, e + d, a);
        }
        Cx::one()
    }
}

proof fn lemma_full_turn<A: Amplitude>(
    rd: Reading<A>,
    e: real,
    d: real,
    pre: SimModel<A>,
    ctls: Seq<usize>,
    theta: A::Real,
    target: usize,
    about_y: bool,
    post: SimModel<A>,
    m00: A,
) -> (z: Cx)
    requires
        rd.rounds(e, d),
        ids_apart(pre.ids),
        pre.applicable(ctls, target),
        gap(rd.num(m00), Cx::of(rd.cos_half(theta))) <= e,
        rd.cos_half(theta) * rd.cos_half(theta) + rd.sin_half(theta) * rd.sin_half(theta)
            == 1 as real,
        size(rd.sin_half(theta)) <= (3 as real) * e + d,
        controls_phase(pre, ctls, m00, post),
    ensures
        post == (SimModel { state: post.state, ..pre }),
        z.is_phase(),
        ctls.len() > 0 ==> z == Cx::one(),
        close_to(
            rd.vector(post.state),
            times_vector(
                z,
                act(
                    rotation(rd, theta, about_y),
                    locations(pre.ids, ctls),
                    pre.ids[target] as nat,
                    rd.vector(pre.state),
                ),
            ),
            rd.vector(pre.state),
            pre.ids[target] as nat,
            turn_error(e, d),
            (6 as real) * d,
        ),
{
    let (locs, loc) = (locations(pre.ids, ctls), pre.ids[target] as nat);
    let psi = rd.vector(pre.state);
    let m = rotation(rd, theta, about_y);
    let (c, s) = (rd.cos_half(theta), rd.sin_half(theta));
    let turned = act(m, locs, loc, psi);
    let l = rd.vector(post.state);
    let b = (3 as real) * (e + d);
    act_identity(locs, loc, psi);
    if ctls.len() == 0 {
        let (w, z) = lemma_special_off(c, s, about_y);
        assert(locs =~= no_controls());
        act_scaled(m, loc, z, psi);
        let r = times_vector(z, turned);
        assert forall|k: Set<nat>| #[trigger] gap(l(k), r(k)) <= turn_error(e, d) * around(
            psi,
            loc,
            k,
        ) + (6 as real) * d by {
            lemma_matrix_off(identity(), m.scaled(z), locs, loc, psi, b, k);
            real_scale(b, turn_error(e, d), around(psi, loc, k));
        }
        z
    } else {
        let p = rd.num(m00);
        mag_part(c);
        unit_bounds(c, s);
        gap_via(p, Cx::of(c), Cx::of(c));
        lemma_full_off(c, s, about_y, p, b);
        times_vector_one(turned);
        phase_examples();
        lemma_targets(pre, ctls, target);
        assert forall|k: Set<nat>| #[trigger]
            gap(l(k), times_vector(Cx::one(), turned)(k)) <= turn_error(e, d) * around(psi, loc, k)
                + (6 as real) * d by {
            let a = around(psi, loc, k);
            mag_plus(psi(k.remove(loc)), psi(k.insert(loc)));
            if k.contains(loc) {
                assert(k.insert(loc) =~= k);
            } else {
                assert(k.remove(loc) =~= k);
            }
            gap_via(psi(k), psi(k), psi(k));
            lemma_controls_off(rd, e, d, pre, ctls, target, m00, psi, identity(), post, 0 as real, k);
            let y = act(identity().scaled(p), locs, loc, psi)(k);
            lemma_matrix_off(identity().scaled(p), m, locs, loc, psi, b, k);
            gap_via(l(k), y, turned(k));
            real_times(3 as real, e, a);
            real_times(3 as real, e + d, a);
            real_times(16 as real, e + d, a);
            real_scale(e, e + d, a);
        }
        Cx::one()
    }
}

} // verus!
