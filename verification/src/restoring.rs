//! The laws of what gives back the state that was there before.
use crate::applied::{law_flush_changes_nothing, lemma_still, nothing_applied};
use crate::arith::{real_negated, Amplitude};
use crate::controlled_laws::{law_adjoints, law_mcz, lemma_same_bits};
use crate::controls::{z_symmetric, z_value};
use crate::exact::Cx;
use crate::flushing::{law_flush_empties_queues, same_queue};
use crate::fxmap::enumerates;
use crate::gates::{after_identity, gates_undone, identity, pauli_z, rot_x, rot_y, rotations_undone};
use crate::laws::{law_rx, law_ry};
use crate::logical::{act_identity, fold};
use crate::matrix::{
    act, act_after, after_assoc, phase_act, phase_symmetric, phase_transitive, same_up_to_phase,
    Mat2, Vector,
};
use crate::model::{all_set, ids_apart, locations, FlushLevel, SimModel};
use crate::reading::Reading;
use crate::readout::{law_gate_undone, law_qubits_can_be_listed};
use crate::sim::{lemma_applicable_alone, lemma_controls_without};
use crate::steps::{controls_without, flush_step, just, mcz_step, no_controls, rx_step, ry_step};
use vstd::prelude::*;

verus! {

/// What is queued on a qubit can be undone.
proof fn lemma_queued_inverse<A: Amplitude>(rd: Reading<A>, s: SimModel<A>, q: usize) -> (n: Mat2)
    requires
        rd.exact(),
    ensures
        n.after(rd.queued(s, q)) == identity(),
{
    let (y, x, h) = (rd.queued_ry(s, q), rd.queued_rx(s, q), rd.queued_h(s, q));
    let x1 = if s.rx.contains_key(q) {
        rot_x(rd.cos_half(s.rx[q]), -rd.sin_half(s.rx[q]))
    } else {
        identity()
    };
    let y1 = if s.ry.contains_key(q) {
        rot_y(rd.cos_half(s.ry[q]), -rd.sin_half(s.ry[q]))
    } else {
        identity()
    };
    after_identity(identity());
    rotations_undone(rd.cos_half(s.rx[q]), rd.sin_half(s.rx[q]));
    rotations_undone(rd.cos_half(s.ry[q]), rd.sin_half(s.ry[q]));
    gates_undone(rd.root_half, Cx::one());
    assert(y1.after(y) == identity() && x1.after(x) == identity() && h.after(h) == identity());
    let n = h.after(x1.after(y1));
    let m = y.after(x.after(h));
    after_assoc(h, x1.after(y1), m);
    after_assoc(x1, y1, m);
    after_assoc(y1, y, x.after(h));
    after_identity(x.after(h));
    after_assoc(x1, x, h);
    after_identity(h);
    n
}

/// Vectors that what is queued turns into the same are the same, up to a phase.
proof fn lemma_fold_back<A: Amplitude>(
    rd: Reading<A>,
    s: SimModel<A>,
    order: Seq<usize>,
    a: Vector,
    b: Vector,
)
    requires
        rd.exact(),
        same_up_to_phase(
            fold(|q: usize| rd.queued(s, q), s.ids, order, a),
            fold(|q: usize| rd.queued(s, q), s.ids, order, b),
        ),
    ensures
        same_up_to_phase(a, b),
    decreases order.len(),
{
    if order.len() > 0 {
        let q = order.last();
        let rest = order.drop_last();
        let gates = |q: usize| rd.queued(s, q);
        let loc = s.ids[q] as nat;
        let m = rd.queued(s, q);
        let n = lemma_queued_inverse(rd, s, q);
        let (x, y) = (fold(gates, s.ids, rest, a), fold(gates, s.ids, rest, b));
        phase_act(
            n,
            no_controls(),
            loc,
            act(m, no_controls(), loc, x),
            act(m, no_controls(), loc, y),
        );
        act_after(n, m, no_controls(), loc, x);
        act_after(n, m, no_controls(), loc, y);
        act_identity(no_controls(), loc, x);
        act_identity(no_controls(), loc, y);
        lemma_fold_back(rd, s, rest, a, b);
    }
}

/// If the qubits are in the state in which they were, and the same is queued on
/// them, then the state vector is what it was, up to a phase, in arithmetic that
/// does not round.
pub proof fn law_state_restored<A: Amplitude>(
    rd: Reading<A>,
    pre: SimModel<A>,
    post: SimModel<A>,
)
    requires
        rd.exact(),
        pre.wf(),
        nothing_applied(rd, pre, post),
        forall|q: usize| #[trigger]
            pre.ids.contains_key(q) ==> rd.queued(post, q) == rd.queued(pre, q),
    ensures
        same_up_to_phase(rd.vector(post.state), rd.vector(pre.state)),
{
    let order = law_qubits_can_be_listed(pre);
    let (a, b) = (rd.vector(post.state), rd.vector(pre.state));
    assert forall|i: int| 0 <= i < order.len() implies pre.ids.contains_key(#[trigger] order[i]) by {
        assert(order.to_set().contains(order[i]));
    }
    lemma_same_fold(rd, post, pre, order, a);
    lemma_fold_back(rd, pre, order, a, b);
}

proof fn lemma_same_fold<A: Amplitude>(
    rd: Reading<A>,
    a: SimModel<A>,
    b: SimModel<A>,
    order: Seq<usize>,
    psi: Vector,
)
    requires
        a.ids == b.ids,
        forall|i: int|
            0 <= i < order.len() ==> rd.queued(a, #[trigger] order[i]) == rd.queued(b, order[i]),
    ensures
        fold(|q: usize| rd.queued(a, q), a.ids, order, psi) == fold(
            |q: usize| rd.queued(b, q),
            b.ids,
            order,
            psi,
        ),
    decreases order.len(),
{
    if order.len() > 0 {
        let rest = order.drop_last();
        assert(order[order.len() - 1] == order.last());
        assert forall|i: int| 0 <= i < rest.len() implies rd.queued(a, #[trigger] rest[i])
            == rd.queued(b, rest[i]) by {
            assert(rest[i] == order[i]);
        }
        lemma_same_fold(rd, a, b, rest, psi);
    }
}

/// A rotation about X, the one by the opposite angle and a flush give back the
/// state vector, up to a phase, and everything queued, in arithmetic that does
/// not round, if nothing was queued on the qubit.
pub proof fn law_rx_undone<A: Amplitude>(
    rd: Reading<A>,
    pre: SimModel<A>,
    theta: A::Real,
    opposite: A::Real,
    target: usize,
    a: SimModel<A>,
    b: SimModel<A>,
    post: SimModel<A>,
)
    requires
        rd.exact(),
        pre.wf(),
        pre.ids.contains_key(target),
        pre.nothing_queued(target),
        real_negated(theta, opposite),
        rx_step(pre, theta, target, a),
        rx_step(a, opposite, target, b),
        flush_step(b, just(target), FlushLevel::HRxRy, post),
    ensures
        post.ids == pre.ids,
        forall|q: usize| #[trigger] same_queue(pre, post, q),
        same_up_to_phase(rd.vector(post.state), rd.vector(pre.state)),
{
    law_rx(rd, pre, theta, target, a);
    law_rx(rd, a, opposite, target, b);
    law_adjoints(rd, theta, opposite);
    lemma_applicable_alone(pre, target);
    law_gate_undone(rd, pre, no_controls(), target, rd.rx(theta), a, rd.rx(opposite), b);
    let pre_flushed = choose|mid: SimModel<A>| #[trigger]
        flush_step(pre, just(target), FlushLevel::HRxRy, mid) && a == (SimModel {
            rx: mid.rx.insert(target, theta),
            ..mid
        });
    let a_flushed = choose|mid: SimModel<A>| #[trigger]
        flush_step(a, just(target), FlushLevel::HRxRy, mid) && b == (SimModel {
            rx: mid.rx.insert(target, opposite),
            ..mid
        });
    law_flush_empties_queues(pre, just(target), pre_flushed);
    law_flush_empties_queues(a, just(target), a_flushed);
    assert forall|q: usize| q != target implies #[trigger] same_queue(pre, b, q) by {
        assert(!just(target).contains(q));
        assert(same_queue(pre, pre_flushed, q) && same_queue(a, a_flushed, q));
    }
    lemma_flushed_back(rd, pre, target, b, post);
}

/// A rotation about Y, the one by the opposite angle and a flush give back the
/// state vector, up to a phase, and everything queued, in arithmetic that does
/// not round, if nothing was queued on the qubit.
pub proof fn law_ry_undone<A: Amplitude>(
    rd: Reading<A>,
    pre: SimModel<A>,
    theta: A::Real,
    opposite: A::Real,
    target: usize,
    a: SimModel<A>,
    b: SimModel<A>,
    post: SimModel<A>,
)
    requires
        rd.exact(),
        pre.wf(),
        pre.ids.contains_key(target),
        pre.nothing_queued(target),
        real_negated(theta, opposite),
        ry_step(pre, theta, target, a),
        ry_step(a, opposite, target, b),
        flush_step(b, just(target), FlushLevel::HRxRy, post),
    ensures
        post.ids == pre.ids,
        forall|q: usize| #[trigger] same_queue(pre, post, q),
        same_up_to_phase(rd.vector(post.state), rd.vector(pre.state)),
{
    law_ry(rd, pre, theta, target, a);
    law_ry(rd, a, opposite, target, b);
    law_adjoints(rd, theta, opposite);
    lemma_applicable_alone(pre, target);
    law_gate_undone(rd, pre, no_controls(), target, rd.ry(theta), a, rd.ry(opposite), b);
    assert forall|q: usize| q != target implies #[trigger] same_queue(pre, b, q) by {}
    lemma_flushed_back(rd, pre, target, b, post);
}

/// A flush of the one qubit on which more is queued than before.
proof fn lemma_flushed_back<A: Amplitude>(
    rd: Reading<A>,
    pre: SimModel<A>,
    target: usize,
    mid: SimModel<A>,
    post: SimModel<A>,
)
    requires
        rd.exact(),
        pre.wf(),
        pre.ids.contains_key(target),
        pre.nothing_queued(target),
        nothing_applied(rd, pre, mid),
        forall|q: usize| q != target ==> #[trigger] same_queue(pre, mid, q),
        flush_step(mid, just(target), FlushLevel::HRxRy, post),
    ensures
        post.ids == pre.ids,
        forall|q: usize| #[trigger] same_queue(pre, post, q),
        same_up_to_phase(rd.vector(post.state), rd.vector(pre.state)),
{
    law_flush_changes_nothing(rd, mid, just(target), FlushLevel::HRxRy, post);
    law_flush_empties_queues(mid, just(target), post);
    lemma_still(rd, pre, mid, post);
    assert(just(target)[0] == target);
    assert forall|q: usize| #[trigger] same_queue(pre, post, q) by {
        if q != target {
            assert(!just(target).contains(q));
            assert(same_queue(pre, mid, q) && same_queue(mid, post, q));
        }
    }
    assert forall|q: usize| #[trigger] pre.ids.contains_key(q) implies rd.queued(post, q)
        == rd.queued(pre, q) by {
        assert(same_queue(pre, post, q));
    }
    law_state_restored(rd, pre, post);
}

/// The vector with the sign changed where the bits at all the given locations
/// are one.
pub open spec fn sign_changed(psi: Vector, locs: Seq<usize>, loc: nat) -> Vector {
    |k: Set<nat>|
        if all_set(k, locs) && k.contains(loc) {
            psi(k).negate()
        } else {
            psi(k)
        }
}

/// The Z gate under controls changes the sign of the amplitudes of the basis
/// states in which all its qubits are one, and of no others, up to a phase, in
/// arithmetic that does not round.
pub proof fn law_mcz_sign<A: Amplitude>(
    rd: Reading<A>,
    pre: SimModel<A>,
    ctls: Seq<usize>,
    target: usize,
    post: SimModel<A>,
    order: Seq<usize>,
)
    requires
        rd.exact(),
        ids_apart(pre.ids),
        pre.applicable(ctls, target),
        mcz_step(pre, ctls, target, post),
        enumerates(order, pre.ids.dom()),
    ensures
        same_up_to_phase(
            rd.logical(post, order),
            sign_changed(
                rd.logical(pre, order),
                locations(pre.ids, ctls),
                pre.ids[target] as nat,
            ),
        ),
{
    law_mcz(rd, pre, ctls, target, post);
    let (locs, loc) = (locations(pre.ids, ctls), pre.ids[target] as nat);
    let psi = rd.logical(pre, order);
    let l = act(pauli_z(), locs, loc, psi);
    let r = sign_changed(psi, locs, loc);
    assert forall|k: Set<nat>| #[trigger] l(k) == r(k) by {
        z_value(locs, loc, psi, k);
    }
    assert(l =~= r);
}

/// The Z gate under controls is the same whichever of its qubits is the target,
/// up to a phase, in arithmetic that does not round.
pub proof fn law_mcz_symmetric<A: Amplitude>(
    rd: Reading<A>,
    pre: SimModel<A>,
    ctls: Seq<usize>,
    target: usize,
    i: int,
    a: SimModel<A>,
    b: SimModel<A>,
    order: Seq<usize>,
)
    requires
        rd.exact(),
        ids_apart(pre.ids),
        pre.applicable(ctls, target),
        0 <= i < ctls.len(),
        mcz_step(pre, ctls, target, a),
        mcz_step(pre, ctls.update(i, target), ctls[i], b),
        enumerates(order, pre.ids.dom()),
    ensures
        same_up_to_phase(rd.logical(a, order), rd.logical(b, order)),
{
    let others = ctls.update(i, target);
    lemma_controls_without(pre, ctls, target, i);
    assert(others == controls_without(ctls, target, i));
    assert(ctls.push(target)[i] == ctls[i]);
    law_mcz(rd, pre, ctls, target, a);
    law_mcz(rd, pre, others, ctls[i], b);
    let psi = rd.logical(pre, order);
    let (locs, other_locs) = (locations(pre.ids, ctls), locations(pre.ids, others));
    let (loc, other_loc) = (pre.ids[target] as nat, pre.ids[ctls[i]] as nat);
    assert forall|k: Set<nat>| #![trigger all_set(k, other_locs)] #![trigger all_set(k, locs)]
        (all_set(k, other_locs) && k.contains(other_loc)) == (all_set(k, locs) && k.contains(
            loc,
        )) by {
        lemma_same_bits(pre.ids, ctls, target, i, k);
    }
    z_symmetric(other_locs, other_loc, locs, loc, psi);
    phase_symmetric(rd.logical(b, order), act(pauli_z(), locs, loc, psi));
    phase_transitive(
        rd.logical(a, order),
        act(pauli_z(), locs, loc, psi),
        rd.logical(b, order),
    );
}

/// Two Z gates under the same controls leave the qubits in the state in which
/// they were, in arithmetic that does not round.
pub proof fn law_mcz_twice<A: Amplitude>(
    rd: Reading<A>,
    pre: SimModel<A>,
    ctls: Seq<usize>,
    target: usize,
    mid: SimModel<A>,
    post: SimModel<A>,
)
    requires
        rd.exact(),
        ids_apart(pre.ids),
        pre.applicable(ctls, target),
        mcz_step(pre, ctls, target, mid),
        mcz_step(mid, ctls, target, post),
    ensures
        nothing_applied(rd, pre, post),
{
    law_mcz(rd, pre, ctls, target, mid);
    law_mcz(rd, mid, ctls, target, post);
    gates_undone(0 as real, Cx::one());
    law_gate_undone(rd, pre, ctls, target, pauli_z(), mid, pauli_z(), post);
}

} // verus!
