//! Gates under controls on a state vector.
use crate::exact::{times_negate, times_units, Cx};
use crate::gates::{pauli_y, pauli_z, phase_matrix};
use crate::matrix::{act, dot_scale, lemma_controls_kept, no_control, Mat2, Vector};
use crate::model::all_set;
use vstd::prelude::*;

verus! {

/// The Z gate changes the sign where all the bits are one.
pub(crate) proof fn z_value(ctls: Seq<usize>, t: nat, psi: Vector, k: Set<nat>)
    ensures
        act(pauli_z(), ctls, t, psi)(k) == if all_set(k, ctls) && k.contains(t) {
            psi(k).negate()
        } else {
            psi(k)
        },
{
    if k.contains(t) {
        assert(k.insert(t) =~= k);
    } else {
        assert(k.remove(t) =~= k);
    }
    times_units(psi(k.remove(t)));
    times_units(psi(k.insert(t)));
    times_negate(Cx::one(), psi(k));
}

/// Any of the qubits of a Z gate can be the target.
pub(crate) proof fn z_symmetric(ctls: Seq<usize>, t: nat, others: Seq<usize>, u: nat, psi: Vector)
    requires
        forall|k: Set<nat>| #![trigger all_set(k, ctls)] #![trigger all_set(k, others)]
            (all_set(k, ctls) && k.contains(t)) == (all_set(k, others) && k.contains(u)),
    ensures
        act(pauli_z(), ctls, t, psi) == act(pauli_z(), others, u, psi),
{
    let l = act(pauli_z(), ctls, t, psi);
    let r = act(pauli_z(), others, u, psi);
    assert forall|k: Set<nat>| #[trigger] l(k) == r(k) by {
        z_value(ctls, t, psi, k);
        z_value(others, u, psi, k);
        assert((all_set(k, ctls) && k.contains(t)) == (all_set(k, others) && k.contains(u)));
    }
    assert(l =~= r);
}

/// A Z gate on the controls changes the sign of a gate under them.
pub(crate) proof fn y_after_z(ctls: Seq<usize>, t: nat, psi: Vector)
    requires
        ctls.len() > 0,
        no_control(ctls, t),
    ensures
        act(pauli_y(), ctls, t, act(pauli_z(), ctls.drop_first(), ctls[0] as nat, psi)) == act(
            pauli_y().scaled(Cx::one().negate()),
            ctls,
            t,
            psi,
        ),
{
    let rest = ctls.drop_first();
    let first = ctls[0] as nat;
    let inner = act(pauli_z(), rest, first, psi);
    let m = Cx::one().negate();
    let y = pauli_y();
    let l = act(y, ctls, t, inner);
    let r = act(y.scaled(m), ctls, t, psi);
    assert forall|k: Set<nat>| #[trigger] l(k) == r(k) by {
        let (k0, k1) = (k.remove(t), k.insert(t));
        lemma_controls_kept(k, ctls, t);
        lemma_first(k, ctls);
        lemma_first(k0, ctls);
        lemma_first(k1, ctls);
        z_value(rest, first, psi, k);
        z_value(rest, first, psi, k0);
        z_value(rest, first, psi, k1);
        lemma_opposite_factor(y.a, psi(k0));
        lemma_opposite_factor(y.b, psi(k1));
        lemma_opposite_factor(y.c, psi(k0));
        lemma_opposite_factor(y.d, psi(k1));
    }
    assert(l =~= r);
}

/// A phase on the controls of a gate is a factor of its matrix.
pub(crate) proof fn phase_after(p: Cx, m: Mat2, ctls: Seq<usize>, t: nat, psi: Vector)
    requires
        ctls.len() > 0,
        no_control(ctls, t),
    ensures
        act(phase_matrix(p), ctls.drop_first(), ctls[0] as nat, act(m, ctls, t, psi)) == act(
            m.scaled(p),
            ctls,
            t,
            psi,
        ),
{
    let rest = ctls.drop_first();
    let first = ctls[0] as nat;
    let inner = act(m, ctls, t, psi);
    let l = act(phase_matrix(p), rest, first, inner);
    let r = act(m.scaled(p), ctls, t, psi);
    assert forall|k: Set<nat>| #[trigger] l(k) == r(k) by {
        lemma_first(k, ctls);
        if k.contains(first) {
            assert(k.insert(first) =~= k);
        } else {
            assert(k.remove(first) =~= k);
        }
        times_units(inner(k.remove(first)));
        times_units(inner(k.insert(first)));
        let (v0, v1) = (psi(k.remove(t)), psi(k.insert(t)));
        dot_scale(p, m.a, v0, m.b, v1);
        dot_scale(p, m.c, v0, m.d, v1);
    }
    assert(l =~= r);
}

proof fn lemma_opposite_factor(p: Cx, v: Cx)
    ensures
        Cx::one().negate().times(p).times(v) == p.times(v.negate()),
{
    times_negate(Cx::one(), p);
    times_units(p);
    times_negate(p, v);
}

/// The first control and the others.
proof fn lemma_first(k: Set<nat>, ctls: Seq<usize>)
    requires
        ctls.len() > 0,
    ensures
        all_set(k, ctls) == (all_set(k, ctls.drop_first()) && k.contains(ctls[0] as nat)),
{
    let rest = ctls.drop_first();
    if all_set(k, ctls) {
        assert forall|i: int| 0 <= i < rest.len() implies k.contains(#[trigger] rest[i] as nat) by {
            assert(rest[i] == ctls[i + 1]);
        }
    }
    if all_set(k, rest) && k.contains(ctls[0] as nat) {
        assert forall|i: int| 0 <= i < ctls.len() implies k.contains(#[trigger] ctls[i] as nat) by {
            if i > 0 {
                assert(rest[i - 1] == ctls[i]);
            }
        }
    }
}

} // verus!
