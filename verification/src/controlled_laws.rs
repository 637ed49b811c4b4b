//! The laws of the gates under controls: in arithmetic that does not round,
//! each gate does to the qubits what its matrix says, whatever is queued on
//! them.
use crate::applied::{
    gate_applied, law_flush_changes_nothing, lemma_alone, lemma_flush_one_applied,
    lemma_hadamard_vector, lemma_nothing, lemma_opposite, lemma_rotation_vector, lemma_still,
    lemma_then, lemma_transform_vector, lemma_unscaled, nothing_applied, rotation,
};
use crate::arith::{real_negated, Amplitude};
use crate::controls::{y_after_z, z_symmetric};
use crate::exact::{i_squared, phase_examples, real_neg, times_negate, Cx};
use crate::flushing::{law_flush_empties_queues, lemma_flush_one_keeps, same_queue};
use crate::fxmap::enumerates;
use crate::gates::{
    after_identity, gates_undone, identity, past_hadamard, pauli_x, pauli_y, pauli_z, phase_matrix,
    phases_combine, rotations_commute, rotations_undone, x_past_rotations, y_past_rotations,
};
use crate::laws::{law_x, law_y, law_z, lemma_flush_single, lemma_z_vector};
use crate::logical::{lemma_controlled, lemma_reversed, lemma_targets};
use crate::matrix::{act, after_assoc, phase_reflexive, same_up_to_phase, scaled_after, Mat2};
use crate::model::{all_set, ids_apart, locations, FlushLevel, SimModel, Transform};
use crate::norms::times_conj;
use crate::reading::Reading;
use crate::sim::{lemma_controls_without, lemma_first_applicable};
use crate::steps::{
    controls_without, flush_all, flush_if, flush_step, flush_target, flushed_phase_step,
    flushed_transform_step, hadamard_step, just, mch_step, mcrx_step, mcry_step, mcx_step, mcy_step,
    mcz_step, named_phase, no_controls, only_h_at, phase_step, rotation_step, transform_step,
    x_flushes_controls, x_past_h, y_sign, PhaseGate,
};
use vstd::prelude::*;

verus! {

/// See [`lemma_controlled`].
proof fn lemma_under_controls<A: Amplitude>(
    rd: Reading<A>,
    pre: SimModel<A>,
    ctls: Seq<usize>,
    q: usize,
    w: Mat2,
    u: Mat2,
    post: SimModel<A>,
)
    requires
        ids_apart(pre.ids),
        pre.applicable(ctls, q),
        post == (SimModel { state: post.state, ..pre }),
        forall|i: int| 0 <= i < ctls.len() ==> pre.nothing_queued(#[trigger] ctls[i]),
        rd.vector(post.state) == act(
            w,
            locations(pre.ids, ctls),
            pre.ids[q] as nat,
            rd.vector(pre.state),
        ),
        rd.queued(pre, q).after(w) == u.after(rd.queued(pre, q)),
    ensures
        gate_applied(rd, pre, ctls, q, u, post),
{
    assert forall|i: int| 0 <= i < ctls.len() implies rd.queued(pre, #[trigger] ctls[i])
        == identity() by {
        assert(pre.nothing_queued(ctls[i]));
        after_identity(identity());
    }
    assert forall|order: Seq<usize>| #[trigger]
        enumerates(order, pre.ids.dom()) implies same_up_to_phase(
        rd.logical(post, order),
        act(u, locations(pre.ids, ctls), pre.ids[q] as nat, rd.logical(pre, order)),
    ) by {
        lemma_controlled(rd, pre, ctls, q, w, u, post, order);
        phase_reflexive(rd.logical(post, order));
    }
}

/// Flushing the controls leaves nothing queued on them, and the target as it
/// was.
proof fn lemma_controls_flushed<A: Amplitude>(
    rd: Reading<A>,
    pre: SimModel<A>,
    ctls: Seq<usize>,
    target: usize,
    post: SimModel<A>,
)
    requires
        rd.exact(),
        ids_apart(pre.ids),
        pre.applicable(ctls, target),
        flush_step(pre, ctls, FlushLevel::HRxRy, post),
    ensures
        nothing_applied(rd, pre, post),
        post.ids == pre.ids,
        forall|i: int| 0 <= i < ctls.len() ==> post.nothing_queued(#[trigger] ctls[i]),
        same_queue(pre, post, target),
{
    let all = ctls.push(target);
    assert forall|i: int| 0 <= i < ctls.len() implies pre.ids.contains_key(#[trigger] ctls[i]) by {
        assert(all[i] == ctls[i]);
    }
    law_flush_changes_nothing(rd, pre, ctls, FlushLevel::HRxRy, post);
    law_flush_empties_queues(pre, ctls, post);
    if ctls.contains(target) {
        let i = choose|i: int| 0 <= i < ctls.len() && ctls[i] == target;
        assert(all[i] == all[ctls.len() as int]);
    }
}

/// Flushing the target leaves what is queued on the controls.
proof fn lemma_target_flushed<A: Amplitude>(
    rd: Reading<A>,
    pre: SimModel<A>,
    ctls: Seq<usize>,
    target: usize,
    level: FlushLevel,
    post: SimModel<A>,
)
    requires
        rd.exact(),
        ids_apart(pre.ids),
        pre.applicable(ctls, target),
        flush_step(pre, just(target), level, post),
    ensures
        nothing_applied(rd, pre, post),
        post.ids == pre.ids,
        !post.h.contains(target as nat),
        level != FlushLevel::H ==> !post.rx.contains_key(target),
        level == FlushLevel::HRxRy ==> !post.ry.contains_key(target),
        level == FlushLevel::H ==> post.rx == pre.rx && post.ry == pre.ry,
        forall|i: int| 0 <= i < ctls.len() ==> same_queue(pre, post, #[trigger] ctls[i]),
{
    let all = ctls.push(target);
    assert(all[ctls.len() as int] == target);
    lemma_flush_single(pre, target, level, post);
    lemma_flush_one_keeps(pre, target, level, post);
    lemma_flush_one_applied(rd, pre, target, level, post);
    assert forall|i: int| 0 <= i < ctls.len() implies same_queue(
        pre,
        post,
        #[trigger] ctls[i],
    ) by {
        assert(all[i] == ctls[i]);
        assert(ctls[i] != target);
    }
}

/// Flushing controls and target leaves nothing queued on any of them.
proof fn lemma_all_flushed<A: Amplitude>(
    rd: Reading<A>,
    pre: SimModel<A>,
    ctls: Seq<usize>,
    target: usize,
    post: SimModel<A>,
)
    requires
        rd.exact(),
        ids_apart(pre.ids),
        pre.applicable(ctls, target),
        flush_all(pre, ctls, target, post),
    ensures
        nothing_applied(rd, pre, post),
        post.ids == pre.ids,
        forall|i: int| 0 <= i < ctls.len() ==> post.nothing_queued(#[trigger] ctls[i]),
        post.nothing_queued(target),
{
    let mid = choose|mid: SimModel<A>| #[trigger]
        flush_step(pre, ctls, FlushLevel::HRxRy, mid) && flush_step(
            mid,
            just(target),
            FlushLevel::HRxRy,
            post,
        );
    lemma_controls_flushed(rd, pre, ctls, target, mid);
    lemma_target_flushed(rd, mid, ctls, target, FlushLevel::HRxRy, post);
    lemma_still(rd, pre, mid, post);
    assert forall|i: int| 0 <= i < ctls.len() implies post.nothing_queued(#[trigger] ctls[i]) by {
        assert(mid.nothing_queued(ctls[i]));
        assert(same_queue(mid, post, ctls[i]));
    }
}

/// A gate that nothing queued can be carried past does to the qubits what its
/// matrix says, in arithmetic that does not round.
pub proof fn law_flushed_gate<A: Amplitude>(
    rd: Reading<A>,
    pre: SimModel<A>,
    ctls: Seq<usize>,
    target: usize,
    gate: Transform<A>,
    post: SimModel<A>,
)
    requires
        rd.exact(),
        ids_apart(pre.ids),
        pre.applicable(ctls, target),
        flushed_transform_step(pre, ctls, target, gate, post),
    ensures
        gate_applied(rd, pre, ctls, target, rd.transform_matrix(gate), post),
{
    let mid = choose|mid: SimModel<A>| #[trigger]
        flush_all(pre, ctls, target, mid) && transform_step(mid, ctls, target, gate, post);
    let m = rd.transform_matrix(gate);
    lemma_all_flushed(rd, pre, ctls, target, mid);
    lemma_targets(mid, ctls, target);
    lemma_transform_vector(rd, mid, ctls, target, gate, post);
    after_identity(identity());
    after_identity(m);
    lemma_under_controls(rd, mid, ctls, target, m, m, post);
    lemma_then(rd, pre, mid, ctls, target, m, post);
}

/// The number by which a named phase gate multiplies.
pub open spec fn phase_number<A: Amplitude>(rd: Reading<A>, gate: PhaseGate) -> Cx {
    let f = rd.root_half;
    match gate {
        PhaseGate::Z => Cx::one().negate(),
        PhaseGate::S => Cx::i(),
        PhaseGate::SAdj => Cx::i().negate(),
        PhaseGate::T => Cx { re: f, im: f },
        PhaseGate::TAdj => Cx { re: f, im: -f },
    }
}

/// A named phase gate does to the qubits what its matrix says, in arithmetic
/// that does not round.
pub proof fn law_phase_gate<A: Amplitude>(
    rd: Reading<A>,
    pre: SimModel<A>,
    ctls: Seq<usize>,
    target: usize,
    gate: PhaseGate,
    post: SimModel<A>,
)
    requires
        rd.exact(),
        ids_apart(pre.ids),
        pre.applicable(ctls, target),
        flushed_phase_step(pre, ctls, target, gate, post),
    ensures
        gate_applied(rd, pre, ctls, target, phase_matrix(phase_number(rd, gate)), post),
{
    let mid = choose|mid: SimModel<A>| #[trigger]
        flush_all(pre, ctls, target, mid) && phase_step(mid, ctls, target, gate, post);
    let p = choose|p: A| #[trigger]
        named_phase(gate, p) && transform_step(mid, ctls, target, Transform::Phase(p), post);
    assert(rd.num(p) == phase_number(rd, gate));
    assert(flushed_transform_step(pre, ctls, target, Transform::Phase(p), post));
    law_flushed_gate(rd, pre, ctls, target, Transform::Phase(p), post);
}

/// Each gate has another one that undoes it: X, Y, Z and H themselves, S and T
/// their adjoints, and rotations those by the opposite angle.
pub proof fn law_adjoints<A: Amplitude>(rd: Reading<A>, theta: A::Real, opposite: A::Real)
    requires
        rd.exact(),
        real_negated(theta, opposite),
    ensures
        pauli_x().after(pauli_x()) == identity(),
        pauli_y().after(pauli_y()) == identity(),
        pauli_z().after(pauli_z()) == identity(),
        rd.h().after(rd.h()) == identity(),
        ({
            let matrix = |gate: PhaseGate| phase_matrix(phase_number(rd, gate));
            &&& matrix(PhaseGate::SAdj).after(matrix(PhaseGate::S)) == identity()
            &&& matrix(PhaseGate::S).after(matrix(PhaseGate::SAdj)) == identity()
            &&& matrix(PhaseGate::TAdj).after(matrix(PhaseGate::T)) == identity()
            &&& matrix(PhaseGate::T).after(matrix(PhaseGate::TAdj)) == identity()
        }),
        rd.rx(opposite).after(rd.rx(theta)) == identity(),
        rd.ry(opposite).after(rd.ry(theta)) == identity(),
        rd.rz(opposite).after(rd.rz(theta)) == identity(),
{
    let f = rd.root_half;
    let (s, sadj) = (phase_number(rd, PhaseGate::S), phase_number(rd, PhaseGate::SAdj));
    let (t, tadj) = (phase_number(rd, PhaseGate::T), phase_number(rd, PhaseGate::TAdj));
    phase_examples();
    times_conj(t);
    times_conj(tadj);
    real_neg(f, f);
    assert(s.conj() == sadj && sadj.conj() == s);
    assert(t.conj() == tadj && tadj.conj() == t);
    gates_undone(f, s);
    gates_undone(f, sadj);
    gates_undone(f, t);
    gates_undone(f, tadj);
    lemma_opposite(rd, theta, opposite);
    rotations_undone(rd.cos_half(theta), rd.sin_half(theta));
}

/// S twice is Z, and T twice is S.
pub proof fn law_roots<A: Amplitude>(rd: Reading<A>)
    requires
        rd.exact(),
    ensures
        ({
            let matrix = |gate: PhaseGate| phase_matrix(phase_number(rd, gate));
            &&& matrix(PhaseGate::S).after(matrix(PhaseGate::S)) == pauli_z()
            &&& matrix(PhaseGate::T).after(matrix(PhaseGate::T)) == matrix(PhaseGate::S)
            &&& matrix(PhaseGate::SAdj).after(matrix(PhaseGate::SAdj)) == pauli_z()
            &&& matrix(PhaseGate::TAdj).after(matrix(PhaseGate::TAdj)) == matrix(PhaseGate::SAdj)
        }),
{
    let f = rd.root_half;
    let i = Cx::i();
    let (t, tadj) = (phase_number(rd, PhaseGate::T), phase_number(rd, PhaseGate::TAdj));
    i_squared();
    times_negate(i, i);
    times_negate(i.negate(), i);
    phases_combine(i, i);
    phases_combine(i.negate(), i.negate());
    phases_combine(t, t);
    phases_combine(tadj, tadj);
    assert(t.times(t) == i && tadj.times(tadj) == i.negate()) by {
        reveal(Cx::times);
        real_neg(f, f);
    }
}

/// The H gate under controls does to the qubits what its matrix says, whatever
/// is queued, in arithmetic that does not round.
pub proof fn law_mch<A: Amplitude>(
    rd: Reading<A>,
    pre: SimModel<A>,
    ctls: Seq<usize>,
    target: usize,
    post: SimModel<A>,
)
    requires
        rd.exact(),
        ids_apart(pre.ids),
        pre.applicable(ctls, target),
        mch_step(pre, ctls, target, post),
    ensures
        gate_applied(rd, pre, ctls, target, rd.h(), post),
{
    let (a, b) = choose|a: SimModel<A>, b: SimModel<A>| #[trigger]
        flush_step(pre, ctls, FlushLevel::HRxRy, a) && #[trigger] flush_if(
            a.rotation_queued(target),
            a,
            just(target),
            FlushLevel::HRxRy,
            b,
        ) && hadamard_step(b, ctls, target, post);
    lemma_controls_flushed(rd, pre, ctls, target, a);
    lemma_flushed_if(rd, pre, a, a.rotation_queued(target), ctls, target, FlushLevel::HRxRy, b);
    let h = rd.h();
    lemma_hadamard_vector(rd, b, ctls, target, post);
    after_identity(identity());
    after_identity(h);
    lemma_under_controls(rd, b, ctls, target, h, h, post);
    lemma_then(rd, pre, b, ctls, target, h, post);
}

/// A flush of the target that is made only if it is needed.
proof fn lemma_flushed_if<A: Amplitude>(
    rd: Reading<A>,
    pre: SimModel<A>,
    mid: SimModel<A>,
    needed: bool,
    ctls: Seq<usize>,
    target: usize,
    level: FlushLevel,
    post: SimModel<A>,
)
    requires
        rd.exact(),
        ids_apart(pre.ids),
        nothing_applied(rd, pre, mid),
        pre.applicable(ctls, target),
        flush_if(needed, mid, just(target), level, post),
    ensures
        nothing_applied(rd, pre, post),
        !needed ==> post == mid,
        needed ==> {
            &&& !post.h.contains(target as nat)
            &&& level != FlushLevel::H ==> !post.rx.contains_key(target)
            &&& level == FlushLevel::HRxRy ==> !post.ry.contains_key(target)
            &&& level == FlushLevel::H ==> post.rx == mid.rx && post.ry == mid.ry
        },
        forall|i: int| 0 <= i < ctls.len() ==> same_queue(mid, post, #[trigger] ctls[i]),
        forall|i: int|
            0 <= i < ctls.len() && mid.nothing_queued(ctls[i]) ==> post.nothing_queued(
                #[trigger] ctls[i],
            ),
{
    if needed {
        lemma_target_flushed(rd, mid, ctls, target, level, post);
        lemma_still(rd, pre, mid, post);
    }
    assert forall|i: int|
        0 <= i < ctls.len() && mid.nothing_queued(ctls[i]) implies post.nothing_queued(
        #[trigger] ctls[i],
    ) by {
        assert(same_queue(mid, post, ctls[i]));
    }
}

/// The Y gate under controls does to the qubits what its matrix says, whatever
/// is queued, in arithmetic that does not round.
pub proof fn law_mcy<A: Amplitude>(
    rd: Reading<A>,
    pre: SimModel<A>,
    ctls: Seq<usize>,
    target: usize,
    post: SimModel<A>,
)
    requires
        rd.exact(),
        ids_apart(pre.ids),
        pre.applicable(ctls, target),
        mcy_step(pre, ctls, target, post),
    ensures
        gate_applied(rd, pre, ctls, target, pauli_y(), post),
{
    let y = pauli_y();
    lemma_targets(pre, ctls, target);
    if ctls.len() == 0 {
        assert(ctls =~= no_controls());
        law_y(rd, pre, target, post);
    } else {
        let (a, b, c) = choose|a: SimModel<A>, b: SimModel<A>, c: SimModel<A>| #[trigger]
            flush_step(pre, ctls, FlushLevel::HRxRy, a) && #[trigger] flush_if(
                a.rx.contains_key(target),
                a,
                just(target),
                FlushLevel::HRx,
                b,
            ) && #[trigger] y_sign(b, ctls, target, c) && transform_step(
                c,
                ctls,
                target,
                Transform::Y,
                post,
            );
        lemma_controls_flushed(rd, pre, ctls, target, a);
        let rx = a.rx.contains_key(target);
        lemma_flushed_if(rd, pre, a, rx, ctls, target, FlushLevel::HRx, b);
        lemma_transform_vector(rd, c, ctls, target, Transform::Y, post);
        let locs = locations(b.ids, ctls);
        let loc = b.ids[target] as nat;
        let r = rd.queued_ry(b, target);
        let h = rd.queued_h(b, target);
        let w = if b.h.contains(target as nat) {
            y.scaled(Cx::one().negate())
        } else {
            y
        };
        if b.h.contains(target as nat) {
            lemma_first_applicable(b, ctls, target);
            lemma_targets(b, ctls.drop_first(), ctls[0]);
            lemma_z_vector(rd, b, ctls.drop_first(), ctls[0], c);
            assert(locations(b.ids, ctls.drop_first()) =~= locs.drop_first());
            y_after_z(locs, loc, rd.vector(b.state));
        }
        after_identity(identity());
        after_identity(h);
        after_identity(y);
        past_hadamard(rd.root_half);
        if b.ry.contains_key(target) {
            y_past_rotations(rd.cos_half(b.ry[target]), rd.sin_half(b.ry[target]));
        }
        after_assoc(r, h, w);
        after_assoc(r, y, h);
        after_assoc(y, r, h);
        lemma_under_controls(rd, b, ctls, target, w, y, post);
        lemma_then(rd, pre, b, ctls, target, y, post);
    }
}

/// The Z gate under controls does to the qubits what its matrix says, whatever
/// is queued, in arithmetic that does not round.
pub proof fn law_mcz<A: Amplitude>(
    rd: Reading<A>,
    pre: SimModel<A>,
    ctls: Seq<usize>,
    target: usize,
    post: SimModel<A>,
)
    requires
        rd.exact(),
        ids_apart(pre.ids),
        pre.applicable(ctls, target),
        mcz_step(pre, ctls, target, post),
    ensures
        gate_applied(rd, pre, ctls, target, pauli_z(), post),
{
    let z = pauli_z();
    let qubits = ctls.push(target);
    lemma_targets(pre, ctls, target);
    if ctls.len() == 0 {
        assert(ctls =~= no_controls());
        law_z(rd, pre, target, post);
    } else if exists|i: int| #[trigger] only_h_at(pre, qubits, i) {
        let i = choose|i: int| #[trigger]
            only_h_at(pre, qubits, i) && transform_step(
                pre,
                controls_without(ctls, target, i),
                qubits[i],
                Transform::X,
                post,
            );
        let others = controls_without(ctls, target, i);
        let q = qubits[i];
        lemma_controls_without(pre, ctls, target, i);
        lemma_targets(pre, others, q);
        lemma_transform_vector(rd, pre, others, q, Transform::X, post);
        assert forall|j: int| 0 <= j < others.len() implies pre.nothing_queued(
            #[trigger] others[j],
        ) by {
            let n = if j == i {
                ctls.len() as int
            } else {
                j
            };
            assert(qubits[n] == others[j]);
            assert(!pre.rotation_queued(qubits[n]));
        }
        assert(!pre.rotation_queued(qubits[i]));
        after_identity(identity());
        after_identity(rd.h());
        past_hadamard(rd.root_half);
        lemma_under_controls(rd, pre, others, q, pauli_x(), z, post);
        let (locs, other_locs) = (locations(pre.ids, ctls), locations(pre.ids, others));
        let (loc, other_loc) = (pre.ids[target] as nat, pre.ids[q] as nat);
        assert forall|k: Set<nat>| #![trigger all_set(k, other_locs)] #![trigger all_set(k, locs)]
            (all_set(k, other_locs) && k.contains(other_loc)) == (all_set(k, locs) && k.contains(
                loc,
            )) by {
            lemma_same_bits(pre.ids, ctls, target, i, k);
        }
        assert forall|order: Seq<usize>| #[trigger]
            enumerates(order, pre.ids.dom()) implies same_up_to_phase(
            rd.logical(post, order),
            act(z, locs, loc, rd.logical(pre, order)),
        ) by {
            z_symmetric(other_locs, other_loc, locs, loc, rd.logical(pre, order));
        }
    } else {
        let mid = choose|mid: SimModel<A>| #[trigger]
            flush_all(pre, ctls, target, mid) && phase_step(mid, ctls, target, PhaseGate::Z, post);
        assert(flushed_phase_step(pre, ctls, target, PhaseGate::Z, post));
        law_phase_gate(rd, pre, ctls, target, PhaseGate::Z, post);
    }
}

/// The bits of controls and target are the same, whichever is the target.
pub(crate) proof fn lemma_same_bits(
    ids: Map<usize, usize>,
    ctls: Seq<usize>,
    target: usize,
    i: int,
    k: Set<nat>,
)
    requires
        0 <= i <= ctls.len(),
    ensures
        ({
            let locs = locations(ids, ctls);
            let others = locations(ids, controls_without(ctls, target, i));
            let q = ctls.push(target)[i];
            (all_set(k, others) && k.contains(ids[q] as nat)) == (all_set(k, locs) && k.contains(
                ids[target] as nat,
            ))
        }),
{
    let locs = locations(ids, ctls);
    let others = locations(ids, controls_without(ctls, target, i));
    let q = ctls.push(target)[i];
    if all_set(k, others) && k.contains(ids[q] as nat) {
        assert forall|j: int| 0 <= j < locs.len() implies k.contains(#[trigger] locs[j] as nat) by {
            if j != i {
                assert(others[j] == locs[j]);
            }
        }
        if i < ctls.len() {
            assert(others[i] == ids[target]);
        }
    }
    if all_set(k, locs) && k.contains(ids[target] as nat) {
        assert forall|j: int| 0 <= j < others.len() implies k.contains(
            #[trigger] others[j] as nat,
        ) by {
            if j != i {
                assert(others[j] == locs[j]);
            }
        }
        if i < ctls.len() {
            assert(locs[i] == ids[q]);
        }
    }
}

/// The X gate under controls does to the qubits what its matrix says, whatever
/// is queued, in arithmetic that does not round.
pub proof fn law_mcx<A: Amplitude>(
    rd: Reading<A>,
    pre: SimModel<A>,
    ctls: Seq<usize>,
    target: usize,
    post: SimModel<A>,
)
    requires
        rd.exact(),
        ids_apart(pre.ids),
        pre.applicable(ctls, target),
        mcx_step(pre, ctls, target, post),
    ensures
        gate_applied(rd, pre, ctls, target, pauli_x(), post),
{
    let x = pauli_x();
    lemma_targets(pre, ctls, target);
    if ctls.len() == 0 {
        assert(ctls =~= no_controls());
        law_x(rd, pre, target, post);
    } else {
        let flushes = x_flushes_controls(pre, ctls, target);
        let (a, b) = choose|a: SimModel<A>, b: SimModel<A>| #[trigger]
            flush_if(flushes, pre, ctls, FlushLevel::HRxRy, a) && #[trigger] flush_if(
                a.ry.contains_key(target),
                a,
                just(target),
                FlushLevel::HRxRy,
                b,
            ) && x_past_h(b, ctls, target, post);
        if flushes {
            lemma_controls_flushed(rd, pre, ctls, target, a);
        } else {
            lemma_nothing(rd, pre);
        }
        let ry = a.ry.contains_key(target);
        lemma_flushed_if(rd, pre, a, ry, ctls, target, FlushLevel::HRxRy, b);
        let r = rd.queued_rx(b, target);
        let h = rd.queued_h(b, target);
        assert(same_queue(a, b, ctls[0]));
        after_identity(identity());
        after_identity(x);
        after_identity(r.after(h));
        past_hadamard(rd.root_half);
        if b.rx.contains_key(target) {
            x_past_rotations(rd.cos_half(b.rx[target]), rd.sin_half(b.rx[target]));
        }
        let w = if b.h.contains(target as nat) {
            pauli_z()
        } else {
            x
        };
        after_assoc(r, h, w);
        after_assoc(r, x, h);
        after_assoc(x, r, h);
        if b.h.contains(target as nat) && ctls.len() == 1 && b.h.contains(ctls[0] as nat) {
            lemma_reversed_applied(rd, b, ctls, target, post);
        } else {
            assert forall|i: int| 0 <= i < ctls.len() implies b.nothing_queued(
                #[trigger] ctls[i],
            ) by {
                if !flushes {
                    assert(i == 0);
                }
            }
            if b.h.contains(target as nat) {
                lemma_z_vector(rd, b, ctls, target, post);
            } else {
                lemma_transform_vector(rd, b, ctls, target, Transform::X, post);
            }
            lemma_under_controls(rd, b, ctls, target, w, x, post);
        }
        lemma_then(rd, pre, b, ctls, target, x, post);
    }
}

/// See [`lemma_reversed`].
proof fn lemma_reversed_applied<A: Amplitude>(
    rd: Reading<A>,
    pre: SimModel<A>,
    ctls: Seq<usize>,
    target: usize,
    post: SimModel<A>,
)
    requires
        rd.exact(),
        ids_apart(pre.ids),
        pre.applicable(ctls, target),
        ctls.len() == 1,
        pre.h.contains(ctls[0] as nat),
        !pre.rotation_queued(ctls[0]),
        rd.queued(pre, target).after(pauli_z()) == pauli_x().after(rd.queued(pre, target)),
        transform_step(pre, just(target), ctls[0], Transform::X, post),
    ensures
        gate_applied(rd, pre, ctls, target, pauli_x(), post),
{
    let c = ctls[0];
    let all = ctls.push(target);
    assert(all[0] == c && all[1] == target);
    assert(pre.ids.contains_key(all[0]) && pre.ids.contains_key(all[1]));
    assert(locations(pre.ids, just(target)) =~= just(pre.ids[target]));
    assert(locations(pre.ids, ctls) =~= just(pre.ids[c]));
    lemma_transform_vector(rd, pre, just(target), c, Transform::X, post);
    after_identity(identity());
    after_identity(rd.h());
    assert forall|order: Seq<usize>| #[trigger]
        enumerates(order, pre.ids.dom()) implies same_up_to_phase(
        rd.logical(post, order),
        act(
            pauli_x(),
            locations(pre.ids, ctls),
            pre.ids[target] as nat,
            rd.logical(pre, order),
        ),
    ) by {
        lemma_reversed(rd, pre, c, target, post, order);
        phase_reflexive(rd.logical(post, order));
    }
}

/// A rotation under controls on which nothing is queued.
proof fn lemma_rotation_applied<A: Amplitude>(
    rd: Reading<A>,
    pre: SimModel<A>,
    ctls: Seq<usize>,
    theta: A::Real,
    target: usize,
    about_y: bool,
    post: SimModel<A>,
)
    requires
        rd.exact(),
        ids_apart(pre.ids),
        pre.applicable(ctls, target),
        forall|i: int| 0 <= i < ctls.len() ==> pre.nothing_queued(#[trigger] ctls[i]),
        !pre.h.contains(target as nat),
        about_y ==> !pre.rx.contains_key(target),
        !about_y ==> !pre.ry.contains_key(target),
        rotation_step(pre, ctls, theta, target, about_y, post),
    ensures
        gate_applied(rd, pre, ctls, target, rotation(rd, theta, about_y), post),
{
    let m = rotation(rd, theta, about_y);
    let (c, s) = (rd.cos_half(theta), rd.sin_half(theta));
    lemma_targets(pre, ctls, target);
    let (w, z) = lemma_rotation_vector(rd, pre, ctls, theta, target, about_y, post);
    let (x, y) = (rd.queued_rx(pre, target), rd.queued_ry(pre, target));
    let queued = rd.queued(pre, target);
    after_identity(identity());
    after_identity(x);
    after_identity(y);
    after_identity(m);
    if pre.rx.contains_key(target) {
        rotations_commute(c, s, rd.cos_half(pre.rx[target]), rd.sin_half(pre.rx[target]));
    }
    if pre.ry.contains_key(target) {
        rotations_commute(c, s, rd.cos_half(pre.ry[target]), rd.sin_half(pre.ry[target]));
    }
    assert(queued.after(m) == m.after(queued));
    if ctls.len() == 0 {
        assert(ctls =~= no_controls());
        assert(locations(pre.ids, ctls) =~= no_controls());
        scaled_after(queued, w, z);
        lemma_unscaled(queued.after(w), z);
        assert forall|r: usize| r != target implies #[trigger] same_queue(pre, post, r) by {}
        lemma_alone(rd, pre, target, w, m, z.conj(), post);
    } else {
        lemma_under_controls(rd, pre, ctls, target, m, m, post);
    }
}

/// The rotation about X under controls does to the qubits what its matrix says,
/// whatever is queued, in arithmetic that does not round.
pub proof fn law_mcrx<A: Amplitude>(
    rd: Reading<A>,
    pre: SimModel<A>,
    ctls: Seq<usize>,
    theta: A::Real,
    target: usize,
    post: SimModel<A>,
)
    requires
        rd.exact(),
        ids_apart(pre.ids),
        pre.applicable(ctls, target),
        mcrx_step(pre, ctls, theta, target, post),
    ensures
        gate_applied(rd, pre, ctls, target, rd.rx(theta), post),
{
    let (a, b) = choose|a: SimModel<A>, b: SimModel<A>| #[trigger]
        flush_step(pre, ctls, FlushLevel::HRxRy, a) && #[trigger] flush_target(
            a.ry.contains_key(target),
            FlushLevel::HRxRy,
            a,
            target,
            b,
        ) && rotation_step(b, ctls, theta, target, false, post);
    lemma_controls_flushed(rd, pre, ctls, target, a);
    if a.ry.contains_key(target) {
        lemma_flushed_if(rd, pre, a, true, ctls, target, FlushLevel::HRxRy, b);
    } else {
        let h = a.h.contains(target as nat);
        lemma_flushed_if(rd, pre, a, h, ctls, target, FlushLevel::H, b);
    }
    lemma_rotation_applied(rd, b, ctls, theta, target, false, post);
    lemma_then(rd, pre, b, ctls, target, rd.rx(theta), post);
}

/// The rotation about Y under controls does to the qubits what its matrix says,
/// whatever is queued, in arithmetic that does not round.
pub proof fn law_mcry<A: Amplitude>(
    rd: Reading<A>,
    pre: SimModel<A>,
    ctls: Seq<usize>,
    theta: A::Real,
    target: usize,
    post: SimModel<A>,
)
    requires
        rd.exact(),
        ids_apart(pre.ids),
        pre.applicable(ctls, target),
        mcry_step(pre, ctls, theta, target, post),
    ensures
        gate_applied(rd, pre, ctls, target, rd.ry(theta), post),
{
    let (a, b) = choose|a: SimModel<A>, b: SimModel<A>| #[trigger]
        flush_step(pre, ctls, FlushLevel::HRxRy, a) && #[trigger] flush_target(
            a.rx.contains_key(target),
            FlushLevel::HRx,
            a,
            target,
            b,
        ) && rotation_step(b, ctls, theta, target, true, post);
    lemma_controls_flushed(rd, pre, ctls, target, a);
    if a.rx.contains_key(target) {
        lemma_flushed_if(rd, pre, a, true, ctls, target, FlushLevel::HRx, b);
    } else {
        let h = a.h.contains(target as nat);
        lemma_flushed_if(rd, pre, a, h, ctls, target, FlushLevel::H, b);
    }
    lemma_rotation_applied(rd, b, ctls, theta, target, true, post);
    lemma_then(rd, pre, b, ctls, target, rd.ry(theta), post);
}

} // verus!
