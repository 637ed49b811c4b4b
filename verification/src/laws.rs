//! The laws of the gates: in arithmetic that does not round, each gate does to
//! the qubits what its matrix says, whatever is queued on them.
use crate::applied::{
    gate_applied, law_flush_changes_nothing, lemma_alone, lemma_flush_h_vector,
    lemma_flush_rx_vector, lemma_opposite, lemma_then, lemma_transform_vector, lemma_unscaled,
};
use crate::arith::{real_nearly_zero, real_sum, Amplitude};
use crate::bits::with_bit;
use crate::exact::{phase_examples, Cx};
use crate::flushing::{law_flush_empties_queues, same_queue};
use crate::gates::{
    after_identity, gates_undone, hadamard_past_rotation, identity, past_hadamard, pauli_x, pauli_y,
    pauli_z, rot_x, rot_y, rotations_add, x_past_rotations, y_past_rotations, z_past_rotations,
};
use crate::logical::act_identity;
use crate::matrix::{act, act_after, after_assoc, no_control, scaled_after, scaled_twice, Mat2};
use crate::model::{ids_apart, locations, FlushLevel, SimModel, Transform};
use crate::reading::{half, Reading};
use crate::steps::{
    angle_negated, flush_h_step, flush_if, flush_one, flush_rx_step, flush_step, h_step, just,
    named_phase, no_controls, phase_step, rx_step, ry_step, transform_step, x_queue, x_step,
    y_queue, y_step, z_queue, z_step, PhaseGate,
};
use vstd::prelude::*;

verus! {

/// A gate is carried past everything queued on a qubit.
proof fn lemma_carried(
    u: Mat2,
    v: Mat2,
    w: Mat2,
    x: Mat2,
    y0: Mat2,
    y1: Mat2,
    x0: Mat2,
    x1: Mat2,
    h0: Mat2,
    h1: Mat2,
)
    requires
        u.after(y0) == y1.after(v),
        v.after(x0) == x1.after(w),
        w.after(h0) == h1.after(x),
    ensures
        u.after(y0.after(x0.after(h0))) == y1.after(x1.after(h1)).after(x),
{
    let q0 = x0.after(h0);
    after_assoc(u, y0, q0);
    after_assoc(y1, v, q0);
    after_assoc(v, x0, h0);
    after_assoc(x1, w, h0);
    after_assoc(x1, h1, x);
    after_assoc(y1, x1.after(h1), x);
}

/// The queued rotations of a qubit, turned the other way.
spec fn back_x<A: Amplitude>(rd: Reading<A>, s: SimModel<A>, q: usize) -> Mat2 {
    if s.rx.contains_key(q) {
        rot_x(rd.cos_half(s.rx[q]), -rd.sin_half(s.rx[q]))
    } else {
        identity()
    }
}

/// See [`back_x`].
spec fn back_y<A: Amplitude>(rd: Reading<A>, s: SimModel<A>, q: usize) -> Mat2 {
    if s.ry.contains_key(q) {
        rot_y(rd.cos_half(s.ry[q]), -rd.sin_half(s.ry[q]))
    } else {
        identity()
    }
}

proof fn lemma_back_x<A: Amplitude>(rd: Reading<A>, pre: SimModel<A>, q: usize, post: SimModel<A>)
    requires
        rd.exact(),
        angle_negated(pre.rx, q, post.rx),
    ensures
        rd.queued_rx(post, q) == back_x(rd, pre, q),
        post.rx.dom() == pre.rx.dom(),
        forall|r: usize| r != q && pre.rx.contains_key(r) ==> #[trigger] post.rx[r] == pre.rx[r],
{
    assert(post.rx.dom() =~= pre.rx.dom());
    if pre.rx.contains_key(q) {
        lemma_opposite(rd, pre.rx[q], post.rx[q]);
    }
}

proof fn lemma_back_y<A: Amplitude>(rd: Reading<A>, pre: SimModel<A>, q: usize, post: SimModel<A>)
    requires
        rd.exact(),
        angle_negated(pre.ry, q, post.ry),
    ensures
        rd.queued_ry(post, q) == back_y(rd, pre, q),
        post.ry.dom() == pre.ry.dom(),
        forall|r: usize| r != q && pre.ry.contains_key(r) ==> #[trigger] post.ry[r] == pre.ry[r],
{
    assert(post.ry.dom() =~= pre.ry.dom());
    if pre.ry.contains_key(q) {
        lemma_opposite(rd, pre.ry[q], post.ry[q]);
    }
}

/// A named phase gate past whatever is queued acts by its matrix on the state
/// vector.
pub(crate) proof fn lemma_z_vector<A: Amplitude>(
    rd: Reading<A>,
    pre: SimModel<A>,
    ctls: Seq<usize>,
    q: usize,
    post: SimModel<A>,
)
    requires
        rd.exact(),
        no_control(locations(pre.ids, ctls), pre.ids[q] as nat),
        phase_step(pre, ctls, q, PhaseGate::Z, post),
    ensures
        post == (SimModel { state: post.state, ..pre }),
        rd.vector(post.state) == act(
            pauli_z(),
            locations(pre.ids, ctls),
            pre.ids[q] as nat,
            rd.vector(pre.state),
        ),
{
    let p = choose|p: A| #[trigger]
        named_phase(PhaseGate::Z, p) && transform_step(pre, ctls, q, Transform::Phase(p), post);
    lemma_transform_vector(rd, pre, ctls, q, Transform::Phase(p), post);
}

/// The X gate does to the qubits what its matrix says, whatever is queued, in
/// arithmetic that does not round.
pub proof fn law_x<A: Amplitude>(
    rd: Reading<A>,
    pre: SimModel<A>,
    target: usize,
    post: SimModel<A>,
)
    requires
        rd.exact(),
        ids_apart(pre.ids),
        pre.ids.contains_key(target),
        x_step(pre, target, post),
    ensures
        gate_applied(rd, pre, no_controls(), target, pauli_x(), post),
{
    let x = pauli_x();
    let w = lemma_x_vector(rd, pre, target, post);
    lemma_back_y(rd, pre, target, post);
    let (y0, y1) = (rd.queued_ry(pre, target), back_y(rd, pre, target));
    let (x0, h0) = (rd.queued_rx(pre, target), rd.queued_h(pre, target));
    after_identity(x);
    if pre.ry.contains_key(target) {
        x_past_rotations(rd.cos_half(pre.ry[target]), rd.sin_half(pre.ry[target]));
    }
    if pre.rx.contains_key(target) {
        x_past_rotations(rd.cos_half(pre.rx[target]), rd.sin_half(pre.rx[target]));
    }
    past_hadamard(rd.root_half);
    lemma_carried(x, x, x, w, y0, y1, x0, x0, h0, h0);
    scaled_twice(x.after(rd.queued(pre, target)), Cx::one(), Cx::one());
    phase_examples();
    lemma_alone(rd, pre, target, w, x, Cx::one(), post);
}

/// Two X gates give back the state vector and everything queued, with each angle
/// as a number, in arithmetic that does not round.
pub proof fn law_x_twice<A: Amplitude>(
    rd: Reading<A>,
    pre: SimModel<A>,
    target: usize,
    mid: SimModel<A>,
    post: SimModel<A>,
)
    requires
        rd.exact(),
        ids_apart(pre.ids),
        pre.ids.contains_key(target),
        x_step(pre, target, mid),
        x_step(mid, target, post),
    ensures
        post.ids == pre.ids,
        post.h == pre.h,
        post.rx == pre.rx,
        post.ry.dom() == pre.ry.dom(),
        forall|q: usize| #[trigger]
            pre.ry.contains_key(q) ==> rd.val(post.ry[q]) == rd.val(pre.ry[q]),
        rd.vector(post.state) == rd.vector(pre.state),
{
    let loc = pre.ids[target] as nat;
    let w = lemma_x_vector(rd, pre, target, mid);
    let v = lemma_x_vector(rd, mid, target, post);
    gates_undone(0 as real, Cx::one());
    act_after(v, w, no_controls(), loc, rd.vector(pre.state));
    act_identity(no_controls(), loc, rd.vector(pre.state));
    assert(post.ry.dom() =~= pre.ry.dom());
}

/// What the X gate does to the state vector and the queues.
proof fn lemma_x_vector<A: Amplitude>(
    rd: Reading<A>,
    pre: SimModel<A>,
    target: usize,
    post: SimModel<A>,
) -> (w: Mat2)
    requires
        rd.exact(),
        x_step(pre, target, post),
    ensures
        post == (SimModel { state: post.state, ry: post.ry, ..pre }),
        angle_negated(pre.ry, target, post.ry),
        w == if pre.h.contains(target as nat) {
            pauli_z()
        } else {
            pauli_x()
        },
        rd.vector(post.state) == act(
            w,
            no_controls(),
            pre.ids[target] as nat,
            rd.vector(pre.state),
        ),
{
    let h = pre.h.contains(target as nat);
    let mid = choose|mid: SimModel<A>| #[trigger]
        x_queue(pre, target, mid) && if h {
            phase_step(mid, no_controls(), target, PhaseGate::Z, post)
        } else {
            transform_step(mid, no_controls(), target, Transform::X, post)
        };
    assert(locations(pre.ids, no_controls()) =~= no_controls());
    if h {
        lemma_z_vector(rd, mid, no_controls(), target, post);
        pauli_z()
    } else {
        lemma_transform_vector(rd, mid, no_controls(), target, Transform::X, post);
        pauli_x()
    }
}

/// The Y gate does to the qubits what its matrix says, whatever is queued, in
/// arithmetic that does not round.
pub proof fn law_y<A: Amplitude>(
    rd: Reading<A>,
    pre: SimModel<A>,
    target: usize,
    post: SimModel<A>,
)
    requires
        rd.exact(),
        ids_apart(pre.ids),
        pre.ids.contains_key(target),
        y_step(pre, target, post),
    ensures
        gate_applied(rd, pre, no_controls(), target, pauli_y(), post),
{
    let h = pre.h.contains(target as nat);
    let mid = choose|mid: SimModel<A>| #[trigger]
        y_queue(pre, target, mid) && transform_step(
            mid,
            no_controls(),
            target,
            Transform::Y,
            post,
        );
    assert(locations(pre.ids, no_controls()) =~= no_controls());
    let y = pauli_y();
    let z = if h {
        Cx::one().negate()
    } else {
        Cx::one()
    };
    let w = y.scaled(z);
    lemma_transform_vector(rd, mid, no_controls(), target, Transform::Y, post);
    lemma_back_x(rd, pre, target, mid);
    let (x0, x1) = (rd.queued_rx(pre, target), back_x(rd, pre, target));
    let (y0, h0) = (rd.queued_ry(pre, target), rd.queued_h(pre, target));
    after_identity(y);
    scaled_twice(y, z, z);
    if pre.ry.contains_key(target) {
        y_past_rotations(rd.cos_half(pre.ry[target]), rd.sin_half(pre.ry[target]));
    }
    if pre.rx.contains_key(target) {
        y_past_rotations(rd.cos_half(pre.rx[target]), rd.sin_half(pre.rx[target]));
    }
    past_hadamard(rd.root_half);
    lemma_carried(y, y, y, w, y0, y0, x0, x1, h0, h0);
    phase_examples();
    scaled_after(rd.queued(post, target), y, z);
    lemma_unscaled(rd.queued(post, target).after(y), z);
    lemma_alone(rd, pre, target, y, y, z.conj(), post);
}

/// The Z gate does to the qubits what its matrix says, whatever is queued, in
/// arithmetic that does not round.
pub proof fn law_z<A: Amplitude>(
    rd: Reading<A>,
    pre: SimModel<A>,
    target: usize,
    post: SimModel<A>,
)
    requires
        rd.exact(),
        ids_apart(pre.ids),
        pre.ids.contains_key(target),
        z_step(pre, target, post),
    ensures
        gate_applied(rd, pre, no_controls(), target, pauli_z(), post),
{
    let h = pre.h.contains(target as nat);
    let mid = choose|mid: SimModel<A>| #[trigger]
        z_queue(pre, target, mid) && if h {
            transform_step(mid, no_controls(), target, Transform::X, post)
        } else {
            phase_step(mid, no_controls(), target, PhaseGate::Z, post)
        };
    assert(locations(pre.ids, no_controls()) =~= no_controls());
    let z = pauli_z();
    let w = if h {
        pauli_x()
    } else {
        z
    };
    if h {
        lemma_transform_vector(rd, mid, no_controls(), target, Transform::X, post);
    } else {
        lemma_z_vector(rd, mid, no_controls(), target, post);
    }
    lemma_back_x(rd, pre, target, mid);
    lemma_back_y(rd, pre, target, mid);
    let (x0, x1) = (rd.queued_rx(pre, target), back_x(rd, pre, target));
    let (y0, y1) = (rd.queued_ry(pre, target), back_y(rd, pre, target));
    let h0 = rd.queued_h(pre, target);
    after_identity(z);
    if pre.ry.contains_key(target) {
        z_past_rotations(rd.cos_half(pre.ry[target]), rd.sin_half(pre.ry[target]));
    }
    if pre.rx.contains_key(target) {
        z_past_rotations(rd.cos_half(pre.rx[target]), rd.sin_half(pre.rx[target]));
    }
    past_hadamard(rd.root_half);
    lemma_carried(z, z, z, w, y0, y1, x0, x1, h0, h0);
    scaled_twice(z.after(rd.queued(pre, target)), Cx::one(), Cx::one());
    phase_examples();
    lemma_alone(rd, pre, target, w, z, Cx::one(), post);
}

/// A flush of one qubit.
pub(crate) proof fn lemma_flush_single<A: Amplitude>(
    pre: SimModel<A>,
    q: usize,
    level: FlushLevel,
    post: SimModel<A>,
)
    requires
        flush_step(pre, just(q), level, post),
    ensures
        flush_one(pre, q, level, post),
{
    assert(just(q).drop_last() =~= Seq::<usize>::empty());
    let mid = choose|mid: SimModel<A>|
        flush_step(pre, just(q).drop_last(), level, mid) && #[trigger] flush_one(
            mid,
            just(q).last(),
            level,
            post,
        );
    assert(flush_step(pre, Seq::<usize>::empty(), level, mid));
    assert(mid == pre);
}

/// The H gate does to the qubits what its matrix says, whatever is queued, in
/// arithmetic that does not round.
pub proof fn law_h<A: Amplitude>(
    rd: Reading<A>,
    pre: SimModel<A>,
    target: usize,
    post: SimModel<A>,
)
    requires
        rd.exact(),
        ids_apart(pre.ids),
        pre.ids.contains_key(target),
        h_step(pre, target, post),
    ensures
        gate_applied(rd, pre, no_controls(), target, rd.h(), post),
{
    let (a, b) = choose|a: SimModel<A>, b: SimModel<A>| #[trigger]
        x_queue(pre, target, a) && #[trigger] flush_if(
            a.rx.contains_key(target),
            a,
            just(target),
            FlushLevel::HRx,
            b,
        ) && post == (SimModel {
            h: with_bit(b.h, target as nat, !b.h.contains(target as nat)),
            ..b
        });
    lemma_back_y(rd, pre, target, a);
    let h = rd.h();
    let (y0, y1) = (rd.queued_ry(pre, target), back_y(rd, pre, target));
    let (x0, h0) = (rd.queued_rx(pre, target), rd.queued_h(pre, target));
    let loc = pre.ids[target] as nat;
    let psi = rd.vector(pre.state);
    after_identity(h);
    after_identity(identity());
    if pre.ry.contains_key(target) {
        hadamard_past_rotation(
            rd.root_half,
            rd.cos_half(pre.ry[target]),
            rd.sin_half(pre.ry[target]),
        );
    } else {
        hadamard_past_rotation(rd.root_half, 0 as real, 0 as real);
    }
    if pre.rx.contains_key(target) {
        lemma_flush_single(a, target, FlushLevel::HRx, b);
        let m = choose|m: SimModel<A>| #[trigger]
            flush_h_step(a, target, m) && flush_rx_step(m, target, b);
        lemma_flush_h_vector(rd, a, target, m);
        let (w, z) = lemma_flush_rx_vector(rd, m, target, b);
        let v = w.after(h0);
        act_after(w, h0, no_controls(), loc, psi);
        // Moving the H in front of what was flushed.
        let moved = y1.after(h).after(v);
        after_assoc(h, y0, x0.after(h0));
        after_assoc(y1, h, x0.after(h0));
        scaled_after(w, h0, z);
        scaled_after(h, v, z);
        scaled_after(y1, h.after(v), z);
        after_assoc(y1, h, v);
        lemma_unscaled(moved, z);
        assert forall|r: usize| r != target implies #[trigger] same_queue(pre, post, r) by {}
        lemma_alone(rd, pre, target, v, h, z.conj(), post);
    } else {
        after_assoc(h, y0, h0);
        after_assoc(y1, h, h0);
        after_identity(h0);
        after_identity(y1.after(h.after(h0)));
        scaled_twice(y1.after(h.after(h0)), Cx::one(), Cx::one());
        phase_examples();
        act_identity(no_controls(), loc, psi);
        assert forall|r: usize| r != target implies #[trigger] same_queue(pre, post, r) by {}
        lemma_alone(rd, pre, target, identity(), h, Cx::one(), post);
    }
}

/// The rotation about Y does to the qubits what its matrix says, whatever is
/// queued, in arithmetic that does not round.
pub proof fn law_ry<A: Amplitude>(
    rd: Reading<A>,
    pre: SimModel<A>,
    theta: A::Real,
    target: usize,
    post: SimModel<A>,
)
    requires
        rd.exact(),
        ids_apart(pre.ids),
        pre.ids.contains_key(target),
        ry_step(pre, theta, target, post),
    ensures
        gate_applied(rd, pre, no_controls(), target, rd.ry(theta), post),
{
    let m = rd.ry(theta);
    let (y0, y1) = (rd.queued_ry(pre, target), rd.queued_ry(post, target));
    let rest = rd.queued_rx(pre, target).after(rd.queued_h(pre, target));
    after_identity(m);
    if pre.ry.contains_key(target) {
        let a = pre.ry[target];
        let angle = choose|angle: A::Real| #[trigger]
            real_sum(a, theta, angle) && {
                ||| real_nearly_zero(angle, true) && post.ry == pre.ry.remove(target)
                ||| real_nearly_zero(angle, false) && post.ry == pre.ry.insert(
                    target,
                    angle,
                )
            };
        let (t, u) = (half(rd.val(theta)), half(rd.val(a)));
        assert(rd.angles_add(t, u));
        assert(half(rd.val(angle)) == t + u);
        rotations_add(rd.cos(t), rd.sin(t), rd.cos(u), rd.sin(u));
        assert(m.after(y0) == rd.ry(angle));
        assert(rot_y(1 as real, 0 as real) == identity());
    }
    assert(y1 == m.after(y0));
    after_assoc(m, y0, rest);
    after_identity(rd.queued(post, target));
    scaled_twice(rd.queued(post, target), Cx::one(), Cx::one());
    phase_examples();
    act_identity(no_controls(), pre.ids[target] as nat, rd.vector(pre.state));
    assert forall|r: usize| r != target implies #[trigger] same_queue(pre, post, r) by {}
    lemma_alone(rd, pre, target, identity(), m, Cx::one(), post);
}

/// The rotation about X does to the qubits what its matrix says, whatever is
/// queued, in arithmetic that does not round.
pub proof fn law_rx<A: Amplitude>(
    rd: Reading<A>,
    pre: SimModel<A>,
    theta: A::Real,
    target: usize,
    post: SimModel<A>,
)
    requires
        rd.exact(),
        ids_apart(pre.ids),
        pre.ids.contains_key(target),
        rx_step(pre, theta, target, post),
    ensures
        gate_applied(rd, pre, no_controls(), target, rd.rx(theta), post),
{
    let mid = choose|mid: SimModel<A>| #[trigger]
        flush_step(pre, just(target), FlushLevel::HRxRy, mid) && post == (SimModel {
            rx: mid.rx.insert(target, theta),
            ..mid
        });
    law_flush_changes_nothing(rd, pre, just(target), FlushLevel::HRxRy, mid);
    law_flush_empties_queues(pre, just(target), mid);
    assert(just(target)[0] == target);
    let m = rd.rx(theta);
    after_identity(m);
    after_identity(identity());
    scaled_twice(m, Cx::one(), Cx::one());
    phase_examples();
    act_identity(no_controls(), pre.ids[target] as nat, rd.vector(mid.state));
    assert forall|r: usize| r != target implies #[trigger] same_queue(mid, post, r) by {}
    lemma_alone(rd, mid, target, identity(), m, Cx::one(), post);
    lemma_then(rd, pre, mid, no_controls(), target, m, post);
}

} // verus!
