//! Two by two matrices, the gates they stand for, and how gates on a state
//! vector combine.
use crate::exact::{
    phase_conj, phase_examples, phase_times, times_assoc, times_front, times_plus, times_units, Cx,
};
use crate::model::all_set;
use crate::steps::no_controls;
use vstd::prelude::*;

verus! {

/// A state vector: an amplitude for each basis state.
pub type Vector = spec_fn(Set<nat>) -> Cx;

/// A two by two matrix.
#[verifier::ext_equal]
pub struct Mat2 {
    /// The upper left entry.
    pub a: Cx,
    /// The upper right entry.
    pub b: Cx,
    /// The lower left entry.
    pub c: Cx,
    /// The lower right entry.
    pub d: Cx,
}

impl Mat2 {
    /// The matrix product: `other` is applied first.
    pub open spec fn after(self, other: Mat2) -> Mat2 {
        Mat2 {
            a: dot(self.a, other.a, self.b, other.c),
            b: dot(self.a, other.b, self.b, other.d),
            c: dot(self.c, other.a, self.d, other.c),
            d: dot(self.c, other.b, self.d, other.d),
        }
    }

    /// The matrix times a number.
    pub open spec fn scaled(self, z: Cx) -> Mat2 {
        Mat2 {
            a: z.times(self.a),
            b: z.times(self.b),
            c: z.times(self.c),
            d: z.times(self.d),
        }
    }
}

/// The sum of two products.
pub open spec fn dot(p: Cx, x: Cx, q: Cx, y: Cx) -> Cx {
    p.times(x).plus(q.times(y))
}

/// What a gate makes of a state vector: the amplitudes of two basis states
/// that differ in the target bit only are mixed by the matrix where all the
/// control bits are one. Controls and target are locations.
pub open spec fn act(m: Mat2, ctls: Seq<usize>, target: nat, psi: Vector) -> Vector {
    |k: Set<nat>|
        if !all_set(k, ctls) {
            psi(k)
        } else if k.contains(target) {
            dot(m.c, psi(k.remove(target)), m.d, psi(k.insert(target)))
        } else {
            dot(m.a, psi(k.remove(target)), m.b, psi(k.insert(target)))
        }
}

/// The vector times a number.
pub open spec fn times_vector(z: Cx, psi: Vector) -> Vector {
    |k: Set<nat>| z.times(psi(k))
}

/// Whether two vectors differ by a number of absolute value one at most.
pub open spec fn same_up_to_phase(a: Vector, b: Vector) -> bool {
    exists|z: Cx| #[trigger] z.is_phase() && a == times_vector(z, b)
}

/// Whether the location is none of the controls.
pub open spec fn no_control(ctls: Seq<usize>, loc: nat) -> bool {
    forall|i: int| 0 <= i < ctls.len() ==> #[trigger] ctls[i] != loc
}

/// A change of a bit that is no control changes no control.
pub(crate) proof fn lemma_controls_kept(k: Set<nat>, ctls: Seq<usize>, loc: nat)
    requires
        no_control(ctls, loc),
    ensures
        all_set(k.insert(loc), ctls) == all_set(k, ctls),
        all_set(k.remove(loc), ctls) == all_set(k, ctls),
{
    assert forall|i: int| 0 <= i < ctls.len() implies k.insert(loc).contains(
        #[trigger] ctls[i] as nat,
    ) == k.contains(ctls[i] as nat) && k.remove(loc).contains(ctls[i] as nat) == k.contains(
        ctls[i] as nat,
    ) by {}
    if all_set(k.insert(loc), ctls) {
        assert forall|i: int| 0 <= i < ctls.len() implies k.contains(#[trigger] ctls[i] as nat) by {
            assert(k.insert(loc).contains(ctls[i] as nat));
        }
    }
    if all_set(k.remove(loc), ctls) {
        assert forall|i: int| 0 <= i < ctls.len() implies k.contains(#[trigger] ctls[i] as nat) by {
            assert(k.remove(loc).contains(ctls[i] as nat));
        }
    }
}

/// Setting a bit twice, or setting and clearing it.
proof fn lemma_same_bit(k: Set<nat>, t: nat)
    ensures
        k.insert(t).insert(t) == k.insert(t),
        k.insert(t).remove(t) == k.remove(t),
        k.remove(t).insert(t) == k.insert(t),
        k.remove(t).remove(t) == k.remove(t),
        k.contains(t) ==> k.insert(t) == k,
        !k.contains(t) ==> k.remove(t) == k,
{
    assert(k.insert(t).insert(t) =~= k.insert(t));
    assert(k.insert(t).remove(t) =~= k.remove(t));
    assert(k.remove(t).insert(t) =~= k.insert(t));
    assert(k.remove(t).remove(t) =~= k.remove(t));
    if k.contains(t) {
        assert(k.insert(t) =~= k);
    } else {
        assert(k.remove(t) =~= k);
    }
}

proof fn lemma_other_bit(k: Set<nat>, t: nat, u: nat)
    requires
        t != u,
    ensures
        k.insert(t).insert(u) == k.insert(u).insert(t),
        k.insert(t).remove(u) == k.remove(u).insert(t),
        k.remove(t).insert(u) == k.insert(u).remove(t),
        k.remove(t).remove(u) == k.remove(u).remove(t),
{
    assert(k.insert(t).insert(u) =~= k.insert(u).insert(t));
    assert(k.insert(t).remove(u) =~= k.remove(u).insert(t));
    assert(k.remove(t).insert(u) =~= k.insert(u).remove(t));
    assert(k.remove(t).remove(u) =~= k.remove(u).remove(t));
}

/// A row times a product of matrices.
proof fn dot_assoc(p: Cx, q: Cx, a: Cx, b: Cx, c: Cx, d: Cx, r: Cx, s: Cx)
    ensures
        dot(p, dot(a, r, b, s), q, dot(c, r, d, s)) == dot(dot(p, a, q, c), r, dot(p, b, q, d), s),
{
    times_plus(p, a.times(r), b.times(s));
    times_plus(q, c.times(r), d.times(s));
    times_plus(r, p.times(a), q.times(c));
    times_plus(s, p.times(b), q.times(d));
    times_assoc(p, a, r);
    times_assoc(p, b, s);
    times_assoc(q, c, r);
    times_assoc(q, d, s);
}

/// Sums over two indices, in either order.
proof fn dot_swap(p: Cx, q: Cx, r: Cx, s: Cx, a: Cx, b: Cx, c: Cx, d: Cx)
    ensures
        dot(p, dot(r, a, s, b), q, dot(r, c, s, d)) == dot(r, dot(p, a, q, c), s, dot(p, b, q, d)),
{
    times_plus(p, r.times(a), s.times(b));
    times_plus(q, r.times(c), s.times(d));
    times_plus(r, p.times(a), q.times(c));
    times_plus(s, p.times(b), q.times(d));
    times_front(p, r, a);
    times_front(p, s, b);
    times_front(q, r, c);
    times_front(q, s, d);
}

/// A number can be drawn out of a sum of products.
pub(crate) proof fn dot_scale(z: Cx, p: Cx, x: Cx, q: Cx, y: Cx)
    ensures
        z.times(dot(p, x, q, y)) == dot(z.times(p), x, z.times(q), y),
        z.times(dot(p, x, q, y)) == dot(p, z.times(x), q, z.times(y)),
{
    times_plus(z, p.times(x), q.times(y));
    times_assoc(z, p, x);
    times_assoc(z, q, y);
    times_front(z, p, x);
    times_front(z, q, y);
}

/// The matrix product is associative.
pub(crate) proof fn after_assoc(x: Mat2, y: Mat2, z: Mat2)
    ensures
        x.after(y.after(z)) == x.after(y).after(z),
{
    dot_assoc(x.a, x.b, y.a, y.b, y.c, y.d, z.a, z.c);
    dot_assoc(x.a, x.b, y.a, y.b, y.c, y.d, z.b, z.d);
    dot_assoc(x.c, x.d, y.a, y.b, y.c, y.d, z.a, z.c);
    dot_assoc(x.c, x.d, y.a, y.b, y.c, y.d, z.b, z.d);
}

/// Two gates on the same target under the same controls are one.
pub(crate) proof fn act_after(x: Mat2, y: Mat2, ctls: Seq<usize>, t: nat, psi: Vector)
    requires
        no_control(ctls, t),
    ensures
        act(x, ctls, t, act(y, ctls, t, psi)) == act(x.after(y), ctls, t, psi),
{
    let l = act(x, ctls, t, act(y, ctls, t, psi));
    let r = act(x.after(y), ctls, t, psi);
    assert forall|k: Set<nat>| #[trigger] l(k) == r(k) by {
        lemma_controls_kept(k, ctls, t);
        lemma_same_bit(k, t);
        let (v0, v1) = (psi(k.remove(t)), psi(k.insert(t)));
        dot_assoc(x.a, x.b, y.a, y.b, y.c, y.d, v0, v1);
        dot_assoc(x.c, x.d, y.a, y.b, y.c, y.d, v0, v1);
    }
    assert(l =~= r);
}

/// A gate under controls passes one without, if their matrices allow it.
pub(crate) proof fn act_past(m: Mat2, u: Mat2, v: Mat2, ctls: Seq<usize>, t: nat, psi: Vector)
    requires
        no_control(ctls, t),
        m.after(u) == v.after(m),
    ensures
        act(m, no_controls(), t, act(u, ctls, t, psi)) == act(
            v,
            ctls,
            t,
            act(m, no_controls(), t, psi),
        ),
{
    let l = act(m, no_controls(), t, act(u, ctls, t, psi));
    let r = act(v, ctls, t, act(m, no_controls(), t, psi));
    assert forall|k: Set<nat>| #[trigger] l(k) == r(k) by {
        lemma_controls_kept(k, ctls, t);
        lemma_same_bit(k, t);
        let (v0, v1) = (psi(k.remove(t)), psi(k.insert(t)));
        if all_set(k, ctls) {
            dot_assoc(m.a, m.b, u.a, u.b, u.c, u.d, v0, v1);
            dot_assoc(m.c, m.d, u.a, u.b, u.c, u.d, v0, v1);
            dot_assoc(v.a, v.b, m.a, m.b, m.c, m.d, v0, v1);
            dot_assoc(v.c, v.d, m.a, m.b, m.c, m.d, v0, v1);
        }
    }
    assert(l =~= r);
}

/// A gate commutes with one on a qubit that it does not touch.
pub(crate) proof fn act_elsewhere(m: Mat2, t: nat, u: Mat2, ctls: Seq<usize>, v: nat, psi: Vector)
    requires
        t != v,
        no_control(ctls, t),
    ensures
        act(m, no_controls(), t, act(u, ctls, v, psi)) == act(
            u,
            ctls,
            v,
            act(m, no_controls(), t, psi),
        ),
{
    let l = act(m, no_controls(), t, act(u, ctls, v, psi));
    let r = act(u, ctls, v, act(m, no_controls(), t, psi));
    assert forall|k: Set<nat>| #[trigger] l(k) == r(k) by {
        lemma_controls_kept(k, ctls, t);
        lemma_other_bit(k, t, v);
        let v00 = psi(k.remove(t).remove(v));
        let v01 = psi(k.remove(t).insert(v));
        let v10 = psi(k.insert(t).remove(v));
        let v11 = psi(k.insert(t).insert(v));
        let (p, q) = if k.contains(t) {
            (m.c, m.d)
        } else {
            (m.a, m.b)
        };
        let (x, y) = if k.contains(v) {
            (u.c, u.d)
        } else {
            (u.a, u.b)
        };
        dot_swap(p, q, x, y, v00, v01, v10, v11);
    }
    assert(l =~= r);
}

/// A number can be drawn out of what a gate is applied to.
pub(crate) proof fn act_times(m: Mat2, ctls: Seq<usize>, t: nat, z: Cx, psi: Vector)
    ensures
        act(m, ctls, t, times_vector(z, psi)) == times_vector(z, act(m, ctls, t, psi)),
{
    let l = act(m, ctls, t, times_vector(z, psi));
    let r = times_vector(z, act(m, ctls, t, psi));
    assert forall|k: Set<nat>| #[trigger] l(k) == r(k) by {
        let (v0, v1) = (psi(k.remove(t)), psi(k.insert(t)));
        dot_scale(z, m.a, v0, m.b, v1);
        dot_scale(z, m.c, v0, m.d, v1);
    }
    assert(l =~= r);
}

/// A number can be drawn out of the matrix of a gate without controls.
pub(crate) proof fn act_scaled(m: Mat2, t: nat, z: Cx, psi: Vector)
    ensures
        act(m.scaled(z), no_controls(), t, psi) == times_vector(z, act(m, no_controls(), t, psi)),
{
    let l = act(m.scaled(z), no_controls(), t, psi);
    let r = times_vector(z, act(m, no_controls(), t, psi));
    assert forall|k: Set<nat>| #[trigger] l(k) == r(k) by {
        let (v0, v1) = (psi(k.remove(t)), psi(k.insert(t)));
        dot_scale(z, m.a, v0, m.b, v1);
        dot_scale(z, m.c, v0, m.d, v1);
    }
    assert(l =~= r);
}

/// A number can be drawn out of a product of matrices.
pub(crate) proof fn scaled_after(x: Mat2, y: Mat2, z: Cx)
    ensures
        x.scaled(z).after(y) == x.after(y).scaled(z),
        x.after(y.scaled(z)) == x.after(y).scaled(z),
{
    dot_scale(z, x.a, y.a, x.b, y.c);
    dot_scale(z, x.a, y.b, x.b, y.d);
    dot_scale(z, x.c, y.a, x.d, y.c);
    dot_scale(z, x.c, y.b, x.d, y.d);
}

/// A matrix times two numbers.
pub(crate) proof fn scaled_twice(m: Mat2, y: Cx, z: Cx)
    ensures
        m.scaled(y).scaled(z) == m.scaled(z.times(y)),
        m.scaled(Cx::one()) == m,
{
    times_assoc(z, y, m.a);
    times_assoc(z, y, m.b);
    times_assoc(z, y, m.c);
    times_assoc(z, y, m.d);
    times_units(m.a);
    times_units(m.b);
    times_units(m.c);
    times_units(m.d);
}

/// A vector times two numbers.
proof fn times_vector_twice(y: Cx, z: Cx, psi: Vector)
    ensures
        times_vector(y, times_vector(z, psi)) == times_vector(y.times(z), psi),
{
    let l = times_vector(y, times_vector(z, psi));
    let r = times_vector(y.times(z), psi);
    assert forall|k: Set<nat>| #[trigger] l(k) == r(k) by {
        times_assoc(y, z, psi(k));
    }
    assert(l =~= r);
}

/// A vector times one.
pub(crate) proof fn times_vector_one(psi: Vector)
    ensures
        times_vector(Cx::one(), psi) == psi,
{
    let l = times_vector(Cx::one(), psi);
    assert forall|k: Set<nat>| #[trigger] l(k) == psi(k) by {
        times_units(psi(k));
    }
    assert(l =~= psi);
}

/// A vector differs from itself by no phase.
pub(crate) proof fn phase_reflexive(a: Vector)
    ensures
        same_up_to_phase(a, a),
{
    phase_examples();
    times_vector_one(a);
    assert(Cx::one().is_phase());
}

/// Phases add up.
pub(crate) proof fn phase_transitive(a: Vector, b: Vector, c: Vector)
    requires
        same_up_to_phase(a, b),
        same_up_to_phase(b, c),
    ensures
        same_up_to_phase(a, c),
{
    let y = choose|z: Cx| #[trigger] z.is_phase() && a == times_vector(z, b);
    let z = choose|z: Cx| #[trigger] z.is_phase() && b == times_vector(z, c);
    times_vector_twice(y, z, c);
    phase_times(y, z);
}

/// A phase can be taken back.
pub(crate) proof fn phase_symmetric(a: Vector, b: Vector)
    requires
        same_up_to_phase(a, b),
    ensures
        same_up_to_phase(b, a),
{
    let z = choose|z: Cx| #[trigger] z.is_phase() && a == times_vector(z, b);
    phase_conj(z);
    times_vector_twice(z.conj(), z, b);
    times_vector_one(b);
}

/// A gate keeps a difference by a phase.
pub(crate) proof fn phase_act(m: Mat2, ctls: Seq<usize>, t: nat, a: Vector, b: Vector)
    requires
        same_up_to_phase(a, b),
    ensures
        same_up_to_phase(act(m, ctls, t, a), act(m, ctls, t, b)),
{
    let z = choose|z: Cx| #[trigger] z.is_phase() && a == times_vector(z, b);
    act_times(m, ctls, t, z, b);
}

} // verus!
