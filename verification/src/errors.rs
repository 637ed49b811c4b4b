//! The laws of what gates do to the state vector where the arithmetic rounds and
//! nothing is queued on their qubits: what their matrices say, with errors of a
//! few times that of one operation.
use crate::arith::{negated, product, real_frac_1_sqrt_2, scaled, sum, Amplitude};
use crate::controlled_laws::phase_number;
use crate::exact::{
    real_comm, real_dist, real_units, times_comm, times_negate, times_plus, times_units, Cx,
};
use crate::gates::{hadamard, pauli_x, pauli_y, phase_matrix};
use crate::matrix::{act, lemma_controls_kept, no_control, Mat2};
use crate::model::{
    all_set, factor_of, gate_entry, gate_on_state, image, image_value, kept, kept_finished,
    lone_value, mix_entry, mix_on_state, pair_value, phase_of_angle, rz_factor, signed_half,
    weighted_sum, Mix, Transform,
};
use crate::reading::{half, Reading};
use crate::rounding::{
    around, close_to, gap, gap_plus, gap_times, gap_via, mag, mag_part, mag_plus, mag_times,
    product_off, real_mono, real_scale, real_times, root_half_bounds, size, unit_bounds,
};
use crate::steps::{named_phase, PhaseGate};
use vstd::prelude::*;

verus! {

// ---------------------------------------------------------------------------
// Gates that work entry by entry
// ---------------------------------------------------------------------------

/// The entry of the matrix by which a gate multiplies.
pub(crate) open spec fn factor_in<A: Amplitude>(gate: Transform<A>, bit: bool, m: Mat2) -> Cx {
    match gate {
        Transform::X | Transform::Y => if bit {
            m.b
        } else {
            m.c
        },
        _ => if bit {
            m.d
        } else {
            m.a
        },
    }
}

/// Whether a gate has zeros where it does not multiply, and multiplies by numbers
/// that are off by at most `b`, and at most `s` large.
pub(crate) open spec fn matrix_near<A: Amplitude>(
    rd: Reading<A>,
    gate: Transform<A>,
    m: Mat2,
    b: real,
    s: real,
) -> bool {
    &&& 0 as real <= b
    &&& 0 as real <= s
    &&& gate is X ==> m == pauli_x()
    &&& gate is Y ==> m.a == Cx::zero() && m.d == Cx::zero()
    &&& !(gate is X) && !(gate is Y) ==> m.b == Cx::zero() && m.c == Cx::zero()
    &&& forall|bit: bool, f: A| #[trigger]
        factor_of(gate, bit, f) ==> gap(rd.num(f), factor_in(gate, bit, m)) <= b
    &&& forall|bit: bool| mag(#[trigger] factor_in(gate, bit, m)) <= s
}

/// What a gate that works entry by entry leaves under a basis state.
pub(crate) proof fn lemma_gate_off<A: Amplitude>(
    rd: Reading<A>,
    e: real,
    d: real,
    pre: Map<Set<nat>, A>,
    ctls: Seq<usize>,
    t: nat,
    gate: Transform<A>,
    post: Map<Set<nat>, A>,
    m: Mat2,
    b: real,
    s: real,
    k: Set<nat>,
)
    requires
        rd.rounds(e, d),
        no_control(ctls, t),
        matrix_near(rd, gate, m, b, s),
        gate_on_state(pre, ctls, t, gate, post),
    ensures
        ({
            let psi = rd.vector(pre);
            let from = image(k, ctls, t, gate);
            gap(rd.vector(post)(k), act(m, ctls, t, psi)(k)) <= (e * (s + b) + b) * mag(psi(from))
                + d
        }),
        e * (s + b) + b >= 0 as real,
        image(k, ctls, t, gate) == k.remove(t) || image(k, ctls, t, gate) == k.insert(t),
{
    let psi = rd.vector(pre);
    let from = image(k, ctls, t, gate);
    let x = act(m, ctls, t, psi)(k);
    let rel = e * (s + b) + b;
    assert(gate_entry(pre, ctls, t, gate, post, k));
    lemma_controls_kept(k, ctls, t);
    real_mono(e, e, 0 as real, s + b);
    real_mono(0 as real, e, 0 as real, s + b);
    real_units(0 as real);
    mag_plus(psi(from), psi(from));
    gap_via(x, x, x);
    real_mono(rel, rel, mag(psi(from)), mag(psi(from)));
    if k.contains(t) {
        assert(k.insert(t) =~= k);
    } else {
        assert(k.remove(t) =~= k);
    }
    times_units(psi(k.remove(t)));
    times_units(psi(k.insert(t)));
    if pre.contains_key(from) {
        let v = choose|v: A| #[trigger] image_value(pre, from, ctls, t, gate, v) && kept(v, k, post);
        gap_via(rd.vector(post)(k), rd.num(v), x);
        gap_via(rd.num(v), x, x);
        assert(gap(rd.vector(post)(k), rd.num(v)) <= d);
        if all_set(k, ctls) && !(gate is X) {
            let bit = from.contains(t);
            let f = choose|f: A| #[trigger] factor_of(gate, bit, f) && product(pre[from], f, v);
            let g = factor_in(gate, bit, m);
            product_off(rd, e, d, pre[from], f, v, g, b, s);
            times_comm(psi(from), g);
            assert(x == g.times(psi(from)));
            assert(gap(rd.num(v), x) <= rel * mag(psi(from)));
        } else {
            assert(x == rd.num(v));
        }
    } else {
        times_units(m.a);
        times_units(m.b);
        times_units(m.c);
        times_units(m.d);
        assert(x == Cx::zero());
    }
}

/// See [`lemma_gate_off`], for all basis states.
pub(crate) proof fn lemma_gate_close<A: Amplitude>(
    rd: Reading<A>,
    e: real,
    d: real,
    pre: Map<Set<nat>, A>,
    ctls: Seq<usize>,
    t: nat,
    gate: Transform<A>,
    post: Map<Set<nat>, A>,
    m: Mat2,
    b: real,
    s: real,
    rel: real,
)
    requires
        rd.rounds(e, d),
        no_control(ctls, t),
        matrix_near(rd, gate, m, b, s),
        gate_on_state(pre, ctls, t, gate, post),
        e * (s + b) + b <= rel,
    ensures
        close_to(
            rd.vector(post),
            act(m, ctls, t, rd.vector(pre)),
            rd.vector(pre),
            t,
            rel,
            d,
        ),
{
    let psi = rd.vector(pre);
    let l = rd.vector(post);
    let r = act(m, ctls, t, psi);
    assert forall|k: Set<nat>| #[trigger] gap(l(k), r(k)) <= rel * around(psi, t, k) + d by {
        lemma_gate_off(rd, e, d, pre, ctls, t, gate, post, m, b, s, k);
        let from = image(k, ctls, t, gate);
        mag_plus(psi(k.remove(t)), psi(k.insert(t)));
        real_mono(e * (s + b) + b, rel, mag(psi(from)), around(psi, t, k));
    }
}

/// The numbers by which X and Y multiply.
pub(crate) proof fn lemma_factors<A: Amplitude>(rd: Reading<A>, e: real, d: real)
    requires
        rd.rounds(e, d),
    ensures
        matrix_near::<A>(rd, Transform::X, pauli_x(), 0 as real, 1 as real),
        matrix_near::<A>(rd, Transform::Y, pauli_y(), 0 as real, 1 as real),
{
    reveal(mag);
}

/// The numbers by which a rotation about Z multiplies.
pub(crate) proof fn lemma_angle_factor<A: Amplitude>(
    rd: Reading<A>,
    e: real,
    d: real,
    theta: A::Real,
)
    requires
        rd.rounds(e, d),
    ensures
        matrix_near(rd, Transform::Rz(theta), rd.rz(theta), e, 2 as real),
{
    let x = half(rd.val(theta));
    assert(rd.turns_back(x));
    reveal(mag);
    assert(rd.cos(x) * rd.cos(x) + rd.sin(x) * rd.sin(x) == 1 as real);
    unit_bounds(rd.cos(x), rd.sin(x));
    assert forall|bit: bool, f: A| #[trigger]
        factor_of(Transform::Rz(theta), bit, f) implies gap(
        rd.num(f),
        factor_in::<A>(Transform::Rz(theta), bit, rd.rz(theta)),
    ) <= e by {
        assert(rz_factor(theta, bit, f));
        let angle = choose|angle: A::Real| #[trigger]
            signed_half(theta, bit, angle) && phase_of_angle(angle, f);
    }
}

/// The number by which a phase gate multiplies.
pub(crate) proof fn lemma_phase_factor<A: Amplitude>(rd: Reading<A>, e: real, d: real, p: A)
    requires
        rd.rounds(e, d),
    ensures
        matrix_near(
            rd,
            Transform::Phase(p),
            phase_matrix(rd.num(p)),
            0 as real,
            1 as real + mag(rd.num(p)),
        ),
{
    reveal(mag);
}

/// The phases of the gates with a name.
pub(crate) proof fn lemma_named_factor<A: Amplitude>(
    rd: Reading<A>,
    e: real,
    d: real,
    gate: PhaseGate,
    p: A,
)
    requires
        rd.rounds(e, d),
        named_phase(gate, p),
    ensures
        matrix_near(
            rd,
            Transform::Phase(p),
            phase_matrix(phase_number(rd, gate)),
            (2 as real) * e,
            2 as real,
        ),
{
    root_half_bounds(rd, e, d);
    reveal(mag);
    let r = rd.root_half;
    real_scale(r, 1 as real, e);
    real_units(e);
    assert(gap(rd.num(p), phase_number(rd, gate)) <= (2 as real) * e);
}

// ---------------------------------------------------------------------------
// Gates that mix entries
// ---------------------------------------------------------------------------

/// Whether the arithmetic has the factor of the H gate.
spec fn factor_near<A: Amplitude>(rd: Reading<A>, e: real, f: A::Real) -> bool {
    &&& size(rd.val(f) - rd.root_half) <= e
    &&& size(rd.val(f)) <= 1 as real
}

proof fn lemma_factor_near<A: Amplitude>(rd: Reading<A>, e: real, d: real, f: A::Real)
    requires
        rd.rounds(e, d),
        real_frac_1_sqrt_2(f),
    ensures
        factor_near(rd, e, f),
        size(rd.root_half) <= 1 as real,
{
    root_half_bounds(rd, e, d);
    real_scale(rd.root_half, 1 as real, e);
    real_units(e);
}

/// A product with the factor of the H gate.
proof fn lemma_scaled_off<A: Amplitude>(
    rd: Reading<A>,
    e: real,
    d: real,
    v: A,
    f: A::Real,
    r: A,
)
    requires
        rd.rounds(e, d),
        factor_near(rd, e, f),
        scaled(v, f, r),
    ensures
        gap(rd.num(r), rd.num(v).times(Cx::of(rd.root_half))) <= (2 as real) * (e * mag(rd.num(v))),
        mag(rd.num(v)) >= 0 as real,
{
    let n = rd.num(v);
    let (g, x) = (Cx::of(rd.val(f)), Cx::of(rd.root_half));
    gap_times(n, g, x);
    gap_via(rd.num(r), n.times(g), n.times(x));
    mag_part(rd.val(f) - rd.root_half);
    mag_part(rd.val(f));
    assert(g.plus(x.negate()) == Cx::of(rd.val(f) - rd.root_half));
    assert(gap(g, x) <= e);
    real_mono(mag(n), mag(n), gap(g, x), e);
    real_mono(mag(n), mag(n), size(rd.val(f)), 1 as real);
    real_units(mag(n));
    real_mono(e, e, mag(n) * size(rd.val(f)), mag(n));
    real_comm(mag(n), e);
}

/// What the H gate leaves under a basis state.
pub(crate) proof fn lemma_hadamard_off<A: Amplitude>(
    rd: Reading<A>,
    e: real,
    d: real,
    pre: Map<Set<nat>, A>,
    ctls: Seq<usize>,
    t: nat,
    f: A::Real,
    post: Map<Set<nat>, A>,
    k: Set<nat>,
)
    requires
        rd.rounds(e, d),
        real_frac_1_sqrt_2(f),
        mix_on_state(pre, ctls, t, Mix::Hadamard(f), post),
    ensures
        gap(
            rd.vector(post)(k),
            act(hadamard(rd.root_half), ctls, t, rd.vector(pre))(k),
        ) <= ((8 as real) * e) * around(rd.vector(pre), t, k) + d,
{
    let psi = rd.vector(pre);
    let l = rd.vector(post)(k);
    let x = act(hadamard(rd.root_half), ctls, t, psi)(k);
    let (k0, k1) = (k.remove(t), k.insert(t));
    let (n0, n1) = (psi(k0), psi(k1));
    let a = around(psi, t, k);
    let r = Cx::of(rd.root_half);
    let mix = Mix::<A>::Hadamard(f);
    assert(mix_entry(pre, ctls, t, mix, post, k));
    lemma_factor_near(rd, e, d, f);
    mag_plus(n0, n1);
    mag_plus(n0, n1.negate());
    mag_part(rd.root_half);
    gap_via(l, x, x);
    gap_via(x, x, x);
    real_times(8 as real, e, a);
    real_times(2 as real, e, a);
    real_mono(e, e, 0 as real, a);
    real_mono(e, e, mag(n0), a);
    real_mono(e, e, mag(n1), a);
    times_units(r);
    times_units(r.negate());
    times_comm(r, n0);
    times_comm(r, n1);
    times_negate(r, n1);
    assert(Cx::of(-rd.root_half) == r.negate());
    if all_set(k, ctls) {
        if pre.contains_key(k0) && pre.contains_key(k1) {
            let v = choose|v: A| #[trigger]
                pair_value(mix, k.contains(t), pre[k0], pre[k1], v) && kept_finished(
                    mix,
                    v,
                    k,
                    post,
                );
            let w = if k.contains(t) {
                n0.plus(n1.negate())
            } else {
                n0.plus(n1)
            };
            times_plus(r, n0, n1);
            times_plus(r, n0, n1.negate());
            times_comm(r, w);
            times_negate(n1, r);
            times_comm(r, n1.negate());
            assert(x == w.times(r));
            assert(mag(w) <= a);
            gap_via(rd.num(v), w, w);
            gap_via(l, rd.num(v).times(r), x);
            mag_times(w, r);
            real_mono(e, e, mag(w), a);
            assert(gap(rd.num(v), w) <= e * a);
            real_mono(mag(w), mag(w), mag(r), 1 as real);
            real_units(mag(w));
            if post.contains_key(k) {
                lemma_scaled_off(rd, e, d, v, f, post[k]);
                gap_times(r, rd.num(v), w);
                real_mono(mag(r), 1 as real, gap(rd.num(v), w), e * a);
                real_units(e * a);
                real_scale(e, 1 as real, a);
                real_units(a);
                assert(mag(rd.num(v)) <= (2 as real) * a);
                real_mono(e, e, mag(rd.num(v)), (2 as real) * a);
                assert(gap(l, x) <= (8 as real) * (e * a));
            } else {
                assert(gap(l, x) == mag(x));
                assert(gap(l, x) <= e * a + d);
            }
        } else if pre.contains_key(k0) {
            lemma_scaled_lone(rd, e, d, f, false, k.contains(t), pre[k0], post[k]);
            assert(x == n0.times(r));
            assert(gap(l, x) <= (8 as real) * (e * a));
        } else if pre.contains_key(k1) {
            lemma_scaled_lone(rd, e, d, f, true, k.contains(t), pre[k1], post[k]);
            assert(x == if k.contains(t) {
                n1.times(r).negate()
            } else {
                n1.times(r)
            });
            assert(gap(l, x) <= (8 as real) * (e * a));
        }
    }
}

proof fn lemma_scaled_lone<A: Amplitude>(
    rd: Reading<A>,
    e: real,
    d: real,
    f: A::Real,
    from: bool,
    to: bool,
    v: A,
    r: A,
)
    requires
        rd.rounds(e, d),
        factor_near(rd, e, f),
        lone_value(Mix::Hadamard(f), from, to, v, r),
    ensures
        ({
            let x = rd.num(v).times(Cx::of(rd.root_half));
            gap(
                rd.num(r),
                if from && to {
                    x.negate()
                } else {
                    x
                },
            ) <= (2 as real) * (e * mag(rd.num(v)))
        }),
{
    if from && to {
        let u = choose|u: A| #[trigger] scaled(v, f, u) && negated(u, r);
        lemma_scaled_off(rd, e, d, v, f, u);
        gap_plus(rd.num(u), Cx::zero(), rd.num(v).times(Cx::of(rd.root_half)), Cx::zero());
    } else {
        lemma_scaled_off(rd, e, d, v, f, r);
    }
}

/// Whether the numbers are the entries of the matrix of a rotation, but for
/// errors.
pub(crate) open spec fn entries_near<A: Amplitude>(
    rd: Reading<A>,
    e: real,
    m00: A,
    m01: A,
    m10: A,
    m: Mat2,
) -> bool {
    &&& gap(rd.num(m00), m.a) <= (3 as real) * e
    &&& gap(rd.num(m00), m.d) <= (3 as real) * e
    &&& gap(rd.num(m01), m.b) <= (3 as real) * e
    &&& gap(rd.num(m10), m.c) <= (3 as real) * e
    &&& mag(m.a) <= 1 as real
    &&& mag(m.b) <= 1 as real
    &&& mag(m.c) <= 1 as real
    &&& mag(m.d) <= 1 as real
}

/// A product with an entry of such a matrix.
proof fn lemma_entry_product<A: Amplitude>(
    rd: Reading<A>,
    e: real,
    d: real,
    v: A,
    f: A,
    r: A,
    x: Cx,
)
    requires
        rd.rounds(e, d),
        product(v, f, r),
        gap(rd.num(f), x) <= (3 as real) * e,
        mag(x) <= 1 as real,
    ensures
        gap(rd.num(r), rd.num(v).times(x)) <= ((5 as real) * e) * mag(rd.num(v)),
        mag(rd.num(v)) >= 0 as real,
        mag(rd.num(v).times(x)) <= mag(rd.num(v)),
{
    let b = (3 as real) * e;
    let n = rd.num(v);
    product_off(rd, e, d, v, f, r, x, b, 1 as real);
    real_scale(1 as real + b, 2 as real, e);
    real_scale(e * (1 as real + b) + b, (5 as real) * e, mag(n));
    mag_times(n, x);
    real_scale(mag(x), 1 as real, mag(n));
    real_units(mag(n));
}

/// What a rotation leaves under a basis state.
pub(crate) proof fn lemma_rotation_off<A: Amplitude>(
    rd: Reading<A>,
    e: real,
    d: real,
    pre: Map<Set<nat>, A>,
    ctls: Seq<usize>,
    t: nat,
    m00: A,
    m01: A,
    m10: A,
    m: Mat2,
    post: Map<Set<nat>, A>,
    k: Set<nat>,
)
    requires
        rd.rounds(e, d),
        entries_near(rd, e, m00, m01, m10, m),
        mix_on_state(pre, ctls, t, Mix::Rotation { m00, m01, m10 }, post),
    ensures
        gap(rd.vector(post)(k), act(m, ctls, t, rd.vector(pre))(k)) <= ((8 as real) * e) * around(
            rd.vector(pre),
            t,
            k,
        ) + d,
{
    let psi = rd.vector(pre);
    let x = act(m, ctls, t, psi)(k);
    let (k0, k1) = (k.remove(t), k.insert(t));
    let (n0, n1) = (psi(k0), psi(k1));
    let a = around(psi, t, k);
    let mix = Mix::Rotation { m00, m01, m10 };
    assert(mix_entry(pre, ctls, t, mix, post, k));
    mag_plus(n0, n1);
    gap_via(x, x, x);
    real_times(8 as real, e, a);
    real_times(5 as real, e, a);
    real_times(2 as real, e, a);
    real_times(5 as real, e, mag(n0));
    real_times(5 as real, e, mag(n1));
    real_mono(e, e, 0 as real, a);
    real_mono(e, e, mag(n0), a);
    real_mono(e, e, mag(n1), a);
    let (p, q) = if k.contains(t) {
        (m.c, m.d)
    } else {
        (m.a, m.b)
    };
    times_units(p);
    times_units(q);
    times_comm(p, n0);
    times_comm(q, n1);
    if all_set(k, ctls) {
        if pre.contains_key(k0) && pre.contains_key(k1) {
            let v = choose|v: A| #[trigger]
                pair_value(mix, k.contains(t), pre[k0], pre[k1], v) && kept_finished(
                    mix,
                    v,
                    k,
                    post,
                );
            let (f, g) = if k.contains(t) {
                (m10, m00)
            } else {
                (m00, m01)
            };
            assert(weighted_sum(pre[k0], f, pre[k1], g, v));
            let (u, w) = choose|u: A, w: A| #[trigger]
                product(pre[k0], f, u) && #[trigger] product(pre[k1], g, w) && sum(
                    u,
                    w,
                    v,
                );
            lemma_entry_product(rd, e, d, pre[k0], f, u, p);
            lemma_entry_product(rd, e, d, pre[k1], g, w, q);
            let both = rd.num(u).plus(rd.num(w));
            assert(x == n0.times(p).plus(n1.times(q)));
            gap_plus(rd.num(u), rd.num(w), n0.times(p), n1.times(q));
            mag_plus(n0.times(p), n1.times(q));
            mag_plus(both, both);
            gap_via(both, x, x);
            gap_via(rd.num(v), both, x);
            gap_via(rd.vector(post)(k), rd.num(v), x);
            real_dist((5 as real) * e, mag(n0), mag(n1));
            assert(gap(both, x) <= ((5 as real) * e) * a);
            real_scale((5 as real) * e, 1 as real, a);
            real_units(a);
            assert(mag(both) <= (2 as real) * a);
            real_mono(e, e, mag(both), (2 as real) * a);
            assert(gap(rd.num(v), x) <= (7 as real) * (e * a));
            assert(gap(rd.vector(post)(k), x) <= (8 as real) * (e * a) + d);
        } else if pre.contains_key(k0) {
            lemma_entry_product(
                rd,
                e,
                d,
                pre[k0],
                if k.contains(t) {
                    m10
                } else {
                    m00
                },
                post[k],
                p,
            );
            assert(x == n0.times(p));
        } else if pre.contains_key(k1) {
            lemma_entry_product(
                rd,
                e,
                d,
                pre[k1],
                if k.contains(t) {
                    m00
                } else {
                    m01
                },
                post[k],
                q,
            );
            assert(x == n1.times(q));
        }
    }
}

} // verus!
