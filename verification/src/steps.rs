//! What each operation of the simulator does to the model of a simulation.
//!
//! A gate that acts on a qubit with queued gates is either carried past them,
//! by the rules of commutation, or applied after they have been flushed.
use crate::arith::{
    complex, nearly_zero, negated, norm_square, one, product, real_cos, real_frac_1_sqrt_2,
    real_half, real_less, real_nearly_zero, real_negated, real_recip, real_sin, real_sqrt, real_sum,
    real_zero, scaled, Amplitude, Real,
};
use crate::bits::{odd_parity, positions, with_bit};
use crate::fxmap::{enumerates, lists};
use crate::model::{
    gate_on_state, in_use, kept, locations, mix_on_state, signed_unit, FlushLevel, Mix, SimModel,
    Transform,
};
use vstd::prelude::*;

verus! {

/// No qubits.
pub open spec fn no_controls() -> Seq<usize> {
    Seq::empty()
}

/// One qubit.
pub open spec fn just(q: usize) -> Seq<usize> {
    seq![q]
}

/// Two qubits.
pub open spec fn both(a: usize, b: usize) -> Seq<usize> {
    seq![a, b]
}

/// No qubits are allocated, nothing is queued, and the only basis state, in
/// which no bit is one, has the amplitude one.
pub open spec fn started<A: Amplitude>(s: SimModel<A>) -> bool {
    &&& s.ids == Map::<usize, usize>::empty()
    &&& s.h == Set::<nat>::empty()
    &&& s.rx == Map::<usize, A::Real>::empty()
    &&& s.ry == Map::<usize, A::Real>::empty()
    &&& exists|v: A| #[trigger]
        one(v) && s.state == Map::<Set<nat>, A>::empty().insert(Set::empty(), v)
}

/// A gate that works entry by entry is applied, past whatever is queued.
pub open spec fn transform_step<A: Amplitude>(
    pre: SimModel<A>,
    ctls: Seq<usize>,
    target: usize,
    gate: Transform<A>,
    post: SimModel<A>,
) -> bool {
    &&& post == SimModel { state: post.state, ..pre }
    &&& gate_on_state(
        pre.state,
        locations(pre.ids, ctls),
        pre.ids[target] as nat,
        gate,
        post.state,
    )
}

/// A mixing gate is applied, past whatever is queued.
pub open spec fn mix_step<A: Amplitude>(
    pre: SimModel<A>,
    ctls: Seq<usize>,
    target: usize,
    mix: Mix<A>,
    post: SimModel<A>,
) -> bool {
    &&& post == SimModel { state: post.state, ..pre }
    &&& mix_on_state(
        pre.state,
        locations(pre.ids, ctls),
        pre.ids[target] as nat,
        mix,
        post.state,
    )
}

/// A controlled H gate is applied, past whatever is queued.
pub open spec fn hadamard_step<A: Amplitude>(
    pre: SimModel<A>,
    ctls: Seq<usize>,
    target: usize,
    post: SimModel<A>,
) -> bool {
    exists|f: A::Real| #[trigger]
        real_frac_1_sqrt_2(f) && mix_step(pre, ctls, target, Mix::Hadamard(f), post)
}

// ---------------------------------------------------------------------------
// The phases of the named gates
// ---------------------------------------------------------------------------

/// The phase gates with a name.
#[derive(Debug, Copy, Clone, PartialEq, Eq, Structural)]
pub enum PhaseGate {
    /// Half a turn.
    Z,
    /// A quarter of a turn.
    S,
    /// A quarter of a turn backwards.
    SAdj,
    /// An eighth of a turn.
    T,
    /// An eighth of a turn backwards.
    TAdj,
}

/// `r` is the number by which the named phase gate multiplies.
pub open spec fn named_phase<A: Amplitude>(gate: PhaseGate, r: A) -> bool {
    match gate {
        PhaseGate::Z => exists|u: A| #[trigger] one(u) && negated(u, r),
        PhaseGate::S => signed_unit(false, r),
        PhaseGate::SAdj => signed_unit(true, r),
        PhaseGate::T => exists|f: A::Real| #[trigger] real_frac_1_sqrt_2(f) && complex(f, f, r),
        PhaseGate::TAdj => exists|f: A::Real, g: A::Real| #[trigger]
            real_frac_1_sqrt_2(f) && #[trigger] real_negated(f, g) && complex(f, g, r),
    }
}

/// A named phase gate is applied, past whatever is queued.
pub open spec fn phase_step<A: Amplitude>(
    pre: SimModel<A>,
    ctls: Seq<usize>,
    target: usize,
    gate: PhaseGate,
    post: SimModel<A>,
) -> bool {
    exists|p: A| #[trigger]
        named_phase(gate, p) && transform_step(pre, ctls, target, Transform::Phase(p), post)
}

// ---------------------------------------------------------------------------
// The gates on one qubit that are carried past what is queued
// ---------------------------------------------------------------------------

/// A queue with the angle of the qubit, if it has one, turned into its opposite.
pub open spec fn angle_negated<R: Real>(
    pre: Map<usize, R>,
    q: usize,
    post: Map<usize, R>,
) -> bool {
    if pre.contains_key(q) {
        exists|a: R| #[trigger] real_negated(pre[q], a) && post == pre.insert(q, a)
    } else {
        post == pre
    }
}

/// The X gate: the sign of a queued rotation about Y changes, and a queued H
/// turns it into Z.
pub open spec fn x_step<A: Amplitude>(pre: SimModel<A>, target: usize, post: SimModel<A>) -> bool {
    exists|mid: SimModel<A>| #[trigger]
        x_queue(pre, target, mid) && if pre.h.contains(target as nat) {
            phase_step(mid, no_controls(), target, PhaseGate::Z, post)
        } else {
            transform_step(mid, no_controls(), target, Transform::X, post)
        }
}

/// What the X gate does to the queues.
pub open spec fn x_queue<A: Amplitude>(pre: SimModel<A>, target: usize, post: SimModel<A>) -> bool {
    &&& post == SimModel { ry: post.ry, ..pre }
    &&& angle_negated(pre.ry, target, post.ry)
}

/// The Y gate: the sign of a queued rotation about X changes.
pub open spec fn y_step<A: Amplitude>(pre: SimModel<A>, target: usize, post: SimModel<A>) -> bool {
    exists|mid: SimModel<A>| #[trigger]
        y_queue(pre, target, mid) && transform_step(mid, no_controls(), target, Transform::Y, post)
}

/// What the Y gate does to the queues.
pub open spec fn y_queue<A: Amplitude>(pre: SimModel<A>, target: usize, post: SimModel<A>) -> bool {
    &&& post == SimModel { rx: post.rx, ..pre }
    &&& angle_negated(pre.rx, target, post.rx)
}

/// The Z gate: the signs of queued rotations change, and a queued H turns it
/// into X.
pub open spec fn z_step<A: Amplitude>(pre: SimModel<A>, target: usize, post: SimModel<A>) -> bool {
    exists|mid: SimModel<A>| #[trigger]
        z_queue(pre, target, mid) && if pre.h.contains(target as nat) {
            transform_step(mid, no_controls(), target, Transform::X, post)
        } else {
            phase_step(mid, no_controls(), target, PhaseGate::Z, post)
        }
}

/// What the Z gate does to the queues.
pub open spec fn z_queue<A: Amplitude>(pre: SimModel<A>, target: usize, post: SimModel<A>) -> bool {
    &&& post == SimModel { rx: post.rx, ry: post.ry, ..pre }
    &&& angle_negated(pre.rx, target, post.rx)
    &&& angle_negated(pre.ry, target, post.ry)
}

// ---------------------------------------------------------------------------
// Rotations about X and Y
// ---------------------------------------------------------------------------

/// `m00` is the diagonal entry of a rotation by `theta`.
pub open spec fn rotation_diagonal<A: Amplitude>(theta: A::Real, m00: A) -> bool {
    exists|h: A::Real, c: A::Real, z: A::Real| #[trigger]
        real_half(theta, h) && #[trigger] real_cos(h, c) && real_zero(z) && #[trigger] complex(
            c,
            z,
            m00,
        )
}

/// `m01` is the upper right entry of a rotation by `theta`, about Y if
/// `about_y` and about X otherwise.
pub open spec fn rotation_upper<A: Amplitude>(theta: A::Real, about_y: bool, m01: A) -> bool {
    exists|h: A::Real, n: A::Real, s: A::Real, z: A::Real, base: A, unit: A| #[trigger]
        real_half(theta, h) && #[trigger] real_negated(h, n) && #[trigger] real_sin(n, s)
            && real_zero(z) && #[trigger] complex(z, s, base) && rotation_unit(about_y, unit)
            && #[trigger] product(base, unit, m01)
}

/// `r` is the unit of the entries off the diagonal.
pub open spec fn rotation_unit<A: Amplitude>(about_y: bool, r: A) -> bool {
    if about_y {
        signed_unit(true, r)
    } else {
        one(r)
    }
}

/// `m10` is the lower left entry that goes with the upper right entry `m01`.
pub open spec fn rotation_lower<A: Amplitude>(about_y: bool, m01: A, m10: A) -> bool {
    if about_y {
        negated(m01, m10)
    } else {
        m10 == m01
    }
}

/// The Pauli gate that half a turn is, up to a phase.
pub open spec fn half_turn_gate<A: Amplitude>(about_y: bool) -> Transform<A> {
    if about_y {
        Transform::Y
    } else {
        Transform::X
    }
}

/// A phase on all the controls: that gate on the first of them under the
/// others. Without controls the phase is that of the whole state, and left out.
pub open spec fn controls_phase<A: Amplitude>(
    pre: SimModel<A>,
    ctls: Seq<usize>,
    phase: A,
    post: SimModel<A>,
) -> bool {
    if ctls.len() == 0 {
        post == pre
    } else {
        transform_step(pre, ctls.drop_first(), ctls[0], Transform::Phase(phase), post)
    }
}

/// Half a turn: a Pauli gate, and the phase by which half a turn differs from
/// it on the controls.
pub open spec fn half_turn_step<A: Amplitude>(
    pre: SimModel<A>,
    ctls: Seq<usize>,
    theta: A::Real,
    target: usize,
    about_y: bool,
    post: SimModel<A>,
) -> bool {
    exists|mid: SimModel<A>, phase: A| #[trigger]
        transform_step(pre, ctls, target, half_turn_gate(about_y), mid) && #[trigger]
        rotation_upper(theta, false, phase) && controls_phase(mid, ctls, phase, post)
}

/// A rotation by `theta` under controls, past whatever is queued: half a turn is
/// a Pauli gate and a full turn changes nothing, up to a phase, and any other
/// angle mixes.
pub open spec fn rotation_step<A: Amplitude>(
    pre: SimModel<A>,
    ctls: Seq<usize>,
    theta: A::Real,
    target: usize,
    about_y: bool,
    post: SimModel<A>,
) -> bool {
    exists|m00: A, m01: A| #[trigger]
        rotation_diagonal(theta, m00) && #[trigger] rotation_upper(theta, about_y, m01) && {
            ||| nearly_zero(m00, true) && half_turn_step(pre, ctls, theta, target, about_y, post)
            ||| nearly_zero(m00, false) && nearly_zero(m01, true) && controls_phase(
                pre,
                ctls,
                m00,
                post,
            )
            ||| nearly_zero(m00, false) && nearly_zero(m01, false) && exists|m10: A| #[trigger]
                rotation_lower(about_y, m01, m10) && mix_step(
                    pre,
                    ctls,
                    target,
                    Mix::Rotation { m00, m01, m10 },
                    post,
                )
        }
}

// ---------------------------------------------------------------------------
// Flushing
// ---------------------------------------------------------------------------

/// A queued H on the qubit is applied and taken out of the queue.
pub open spec fn flush_h_step<A: Amplitude>(
    pre: SimModel<A>,
    q: usize,
    post: SimModel<A>,
) -> bool {
    if pre.h.contains(q as nat) {
        exists|mid: SimModel<A>| #[trigger]
            hadamard_step(pre, no_controls(), q, mid) && post == (SimModel {
                h: mid.h.remove(q as nat),
                ..mid
            })
    } else {
        post == pre
    }
}

/// A queued rotation about X on the qubit is applied and taken out of the queue.
pub open spec fn flush_rx_step<A: Amplitude>(
    pre: SimModel<A>,
    q: usize,
    post: SimModel<A>,
) -> bool {
    if pre.rx.contains_key(q) {
        exists|mid: SimModel<A>| #[trigger]
            rotation_step(pre, no_controls(), pre.rx[q], q, false, mid) && post == (SimModel {
                rx: mid.rx.remove(q),
                ..mid
            })
    } else {
        post == pre
    }
}

/// A queued rotation about Y on the qubit is applied and taken out of the queue.
pub open spec fn flush_ry_step<A: Amplitude>(
    pre: SimModel<A>,
    q: usize,
    post: SimModel<A>,
) -> bool {
    if pre.ry.contains_key(q) {
        exists|mid: SimModel<A>| #[trigger]
            rotation_step(pre, no_controls(), pre.ry[q], q, true, mid) && post == (SimModel {
                ry: mid.ry.remove(q),
                ..mid
            })
    } else {
        post == pre
    }
}

/// What is queued on one qubit is applied, up to the given level.
pub open spec fn flush_one<A: Amplitude>(
    pre: SimModel<A>,
    q: usize,
    level: FlushLevel,
    post: SimModel<A>,
) -> bool {
    match level {
        FlushLevel::H => flush_h_step(pre, q, post),
        FlushLevel::HRx => exists|a: SimModel<A>| #[trigger]
            flush_h_step(pre, q, a) && flush_rx_step(a, q, post),
        FlushLevel::HRxRy => exists|a: SimModel<A>, b: SimModel<A>| #[trigger]
            flush_h_step(pre, q, a) && #[trigger] flush_rx_step(a, q, b) && flush_ry_step(
                b,
                q,
                post,
            ),
    }
}

/// What is queued on the qubits is applied, qubit by qubit, up to the given
/// level.
pub open spec fn flush_step<A: Amplitude>(
    pre: SimModel<A>,
    qubits: Seq<usize>,
    level: FlushLevel,
    post: SimModel<A>,
) -> bool
    decreases qubits.len(),
{
    if qubits.len() == 0 {
        post == pre
    } else {
        exists|mid: SimModel<A>|
            flush_step(pre, qubits.drop_last(), level, mid) && #[trigger] flush_one(
                mid,
                qubits.last(),
                level,
                post,
            )
    }
}

/// What is queued on the qubits is applied if `needed`.
pub open spec fn flush_if<A: Amplitude>(
    needed: bool,
    pre: SimModel<A>,
    qubits: Seq<usize>,
    level: FlushLevel,
    post: SimModel<A>,
) -> bool {
    if needed {
        flush_step(pre, qubits, level, post)
    } else {
        post == pre
    }
}

/// Everything queued on the controls and then on the target is applied.
pub open spec fn flush_all<A: Amplitude>(
    pre: SimModel<A>,
    ctls: Seq<usize>,
    target: usize,
    post: SimModel<A>,
) -> bool {
    exists|mid: SimModel<A>| #[trigger]
        flush_step(pre, ctls, FlushLevel::HRxRy, mid) && flush_step(
            mid,
            just(target),
            FlushLevel::HRxRy,
            post,
        )
}

// ---------------------------------------------------------------------------
// The gates with controls
// ---------------------------------------------------------------------------

/// Whether the controls of an X gate have to be flushed first.
pub open spec fn x_flushes_controls<A: Amplitude>(
    s: SimModel<A>,
    ctls: Seq<usize>,
    target: usize,
) -> bool {
    ||| ctls.len() > 1
    ||| s.rotation_queued(ctls[0])
    ||| s.h.contains(ctls[0] as nat) && (!s.h.contains(target as nat) || s.ry.contains_key(target))
}

/// The X gate on the state: a queued H on the target turns it into Z, and one
/// on the only control too swaps control and target.
pub open spec fn x_past_h<A: Amplitude>(
    pre: SimModel<A>,
    ctls: Seq<usize>,
    target: usize,
    post: SimModel<A>,
) -> bool {
    if !pre.h.contains(target as nat) {
        transform_step(pre, ctls, target, Transform::X, post)
    } else if ctls.len() == 1 && pre.h.contains(ctls[0] as nat) {
        transform_step(pre, just(target), ctls[0], Transform::X, post)
    } else {
        phase_step(pre, ctls, target, PhaseGate::Z, post)
    }
}

/// The X gate under controls.
pub open spec fn mcx_step<A: Amplitude>(
    pre: SimModel<A>,
    ctls: Seq<usize>,
    target: usize,
    post: SimModel<A>,
) -> bool {
    if ctls.len() == 0 {
        x_step(pre, target, post)
    } else {
        exists|a: SimModel<A>, b: SimModel<A>| #[trigger]
            flush_if(x_flushes_controls(pre, ctls, target), pre, ctls, FlushLevel::HRxRy, a)
                && #[trigger] flush_if(
                a.ry.contains_key(target),
                a,
                just(target),
                FlushLevel::HRxRy,
                b,
            ) && x_past_h(b, ctls, target, post)
    }
}

/// The sign that the Y gate picks up from a queued H on the target: a Z gate on
/// the first control under the others.
pub open spec fn y_sign<A: Amplitude>(
    pre: SimModel<A>,
    ctls: Seq<usize>,
    target: usize,
    post: SimModel<A>,
) -> bool {
    if pre.h.contains(target as nat) {
        phase_step(pre, ctls.drop_first(), ctls[0], PhaseGate::Z, post)
    } else {
        post == pre
    }
}

/// The Y gate under controls.
pub open spec fn mcy_step<A: Amplitude>(
    pre: SimModel<A>,
    ctls: Seq<usize>,
    target: usize,
    post: SimModel<A>,
) -> bool {
    if ctls.len() == 0 {
        y_step(pre, target, post)
    } else {
        exists|a: SimModel<A>, b: SimModel<A>, c: SimModel<A>| #[trigger]
            flush_step(pre, ctls, FlushLevel::HRxRy, a) && #[trigger] flush_if(
                a.rx.contains_key(target),
                a,
                just(target),
                FlushLevel::HRx,
                b,
            ) && #[trigger] y_sign(b, ctls, target, c) && transform_step(
                c,
                ctls,
                target,
                Transform::Y,
                post,
            )
    }
}

/// Whether the only gate queued on the qubits is one H, on the `i`-th of them.
pub open spec fn only_h_at<A: Amplitude>(s: SimModel<A>, qubits: Seq<usize>, i: int) -> bool {
    &&& 0 <= i < qubits.len()
    &&& s.h.contains(qubits[i] as nat)
    &&& forall|j: int| 0 <= j < qubits.len() ==> !s.rotation_queued(#[trigger] qubits[j])
    &&& forall|j: int|
        0 <= j < qubits.len() && j != i ==> !s.h.contains(#[trigger] qubits[j] as nat)
}

/// The controls that are left when the `i`-th qubit, counted over the controls
/// and the target after them, becomes the target.
pub open spec fn controls_without(ctls: Seq<usize>, target: usize, i: int) -> Seq<usize> {
    if i < ctls.len() {
        ctls.update(i, target)
    } else {
        ctls
    }
}

/// The Z gate under controls: with one H queued and nothing else it is an X
/// gate on the qubit with the H.
pub open spec fn mcz_step<A: Amplitude>(
    pre: SimModel<A>,
    ctls: Seq<usize>,
    target: usize,
    post: SimModel<A>,
) -> bool {
    let qubits = ctls.push(target);
    if ctls.len() == 0 {
        z_step(pre, target, post)
    } else if exists|i: int| #[trigger] only_h_at(pre, qubits, i) {
        exists|i: int| #[trigger]
            only_h_at(pre, qubits, i) && transform_step(
                pre,
                controls_without(ctls, target, i),
                qubits[i],
                Transform::X,
                post,
            )
    } else {
        exists|mid: SimModel<A>| #[trigger]
            flush_all(pre, ctls, target, mid) && phase_step(mid, ctls, target, PhaseGate::Z, post)
    }
}

/// A gate that nothing queued can be carried past.
pub open spec fn flushed_transform_step<A: Amplitude>(
    pre: SimModel<A>,
    ctls: Seq<usize>,
    target: usize,
    gate: Transform<A>,
    post: SimModel<A>,
) -> bool {
    exists|mid: SimModel<A>| #[trigger]
        flush_all(pre, ctls, target, mid) && transform_step(mid, ctls, target, gate, post)
}

/// A named phase gate that nothing queued can be carried past.
pub open spec fn flushed_phase_step<A: Amplitude>(
    pre: SimModel<A>,
    ctls: Seq<usize>,
    target: usize,
    gate: PhaseGate,
    post: SimModel<A>,
) -> bool {
    exists|mid: SimModel<A>| #[trigger]
        flush_all(pre, ctls, target, mid) && phase_step(mid, ctls, target, gate, post)
}

/// The H gate: it is queued or cancels a queued one. The sign of a queued
/// rotation about Y changes, and one about X is flushed.
pub open spec fn h_step<A: Amplitude>(pre: SimModel<A>, target: usize, post: SimModel<A>) -> bool {
    exists|a: SimModel<A>, b: SimModel<A>| #[trigger]
        x_queue(pre, target, a) && #[trigger] flush_if(
            a.rx.contains_key(target),
            a,
            just(target),
            FlushLevel::HRx,
            b,
        ) && post == (SimModel {
            h: with_bit(b.h, target as nat, !b.h.contains(target as nat)),
            ..b
        })
}

/// The H gate under controls.
pub open spec fn mch_step<A: Amplitude>(
    pre: SimModel<A>,
    ctls: Seq<usize>,
    target: usize,
    post: SimModel<A>,
) -> bool {
    exists|a: SimModel<A>, b: SimModel<A>| #[trigger]
        flush_step(pre, ctls, FlushLevel::HRxRy, a) && #[trigger] flush_if(
            a.rotation_queued(target),
            a,
            just(target),
            FlushLevel::HRxRy,
            b,
        ) && hadamard_step(b, ctls, target, post)
}

/// The rotation about X: everything queued is flushed, and then it is queued.
pub open spec fn rx_step<A: Amplitude>(
    pre: SimModel<A>,
    theta: A::Real,
    target: usize,
    post: SimModel<A>,
) -> bool {
    exists|mid: SimModel<A>| #[trigger]
        flush_step(pre, just(target), FlushLevel::HRxRy, mid) && post == (SimModel {
            rx: mid.rx.insert(target, theta),
            ..mid
        })
}

/// The rotation about X under controls.
pub open spec fn mcrx_step<A: Amplitude>(
    pre: SimModel<A>,
    ctls: Seq<usize>,
    theta: A::Real,
    target: usize,
    post: SimModel<A>,
) -> bool {
    exists|a: SimModel<A>, b: SimModel<A>| #[trigger]
        flush_step(pre, ctls, FlushLevel::HRxRy, a) && #[trigger] flush_target(
            a.ry.contains_key(target),
            FlushLevel::HRxRy,
            a,
            target,
            b,
        ) && rotation_step(b, ctls, theta, target, false, post)
}

/// The target is flushed up to `level` if `rotation`, and else only up to a
/// queued H.
pub open spec fn flush_target<A: Amplitude>(
    rotation: bool,
    level: FlushLevel,
    pre: SimModel<A>,
    target: usize,
    post: SimModel<A>,
) -> bool {
    if rotation {
        flush_step(pre, just(target), level, post)
    } else {
        flush_if(pre.h.contains(target as nat), pre, just(target), FlushLevel::H, post)
    }
}

/// The rotation about Y: the angle is added to the queued one. A sum that
/// counts as zero is taken out of the queue.
pub open spec fn ry_step<A: Amplitude>(
    pre: SimModel<A>,
    theta: A::Real,
    target: usize,
    post: SimModel<A>,
) -> bool {
    &&& post == SimModel { ry: post.ry, ..pre }
    &&& if pre.ry.contains_key(target) {
        exists|angle: A::Real| #[trigger]
            real_sum(pre.ry[target], theta, angle) && {
                ||| real_nearly_zero(angle, true) && post.ry == pre.ry.remove(target)
                ||| real_nearly_zero(angle, false) && post.ry == pre.ry.insert(
                    target,
                    angle,
                )
            }
    } else {
        post.ry == pre.ry.insert(target, theta)
    }
}

/// The rotation about Y under controls.
pub open spec fn mcry_step<A: Amplitude>(
    pre: SimModel<A>,
    ctls: Seq<usize>,
    theta: A::Real,
    target: usize,
    post: SimModel<A>,
) -> bool {
    exists|a: SimModel<A>, b: SimModel<A>| #[trigger]
        flush_step(pre, ctls, FlushLevel::HRxRy, a) && #[trigger] flush_target(
            a.rx.contains_key(target),
            FlushLevel::HRx,
            a,
            target,
            b,
        ) && rotation_step(b, ctls, theta, target, true, post)
}

// ---------------------------------------------------------------------------
// Allocation
// ---------------------------------------------------------------------------

/// Whether `n` is the lowest number that is not in the set.
pub open spec fn lowest_free(used: Set<usize>, n: usize) -> bool {
    &&& !used.contains(n)
    &&& forall|i: usize| i < n ==> #[trigger] used.contains(i)
}

/// The locations that qubits use.
pub open spec fn used_locations(ids: Map<usize, usize>) -> Set<usize> {
    Set::new(|loc: usize| exists|id: usize| #[trigger] ids.contains_key(id) && ids[id] == loc)
}

/// A qubit is allocated: the lowest free identifier at the lowest free location.
pub open spec fn allocate_step<A: Amplitude>(
    pre: SimModel<A>,
    id: usize,
    post: SimModel<A>,
) -> bool {
    &&& post == SimModel { ids: post.ids, ..pre }
    &&& lowest_free(pre.ids.dom(), id)
    &&& exists|loc: usize| #[trigger]
        lowest_free(used_locations(pre.ids), loc) && post.ids == pre.ids.insert(id, loc)
}

// ---------------------------------------------------------------------------
// Measurement
// ---------------------------------------------------------------------------

/// `total` is the sum of `t` and the squared norm of `v`.
pub open spec fn norm_added<A: Amplitude>(t: A::Real, v: A, total: A::Real) -> bool {
    exists|n: A::Real| #[trigger] norm_square(v, n) && real_sum(t, n, total)
}

/// `total` is what the squared norms of the entries in the list whose parity is
/// `odd` add up to, in the order of the list.
pub open spec fn tally<A: Amplitude>(
    list: Seq<(Set<nat>, A)>,
    mask: Set<nat>,
    odd: bool,
    total: A::Real,
) -> bool
    decreases list.len(),
{
    if list.len() == 0 {
        real_zero(total)
    } else if odd_parity(list.last().0, mask) == odd {
        exists|t: A::Real|
            tally(list.drop_last(), mask, odd, t) && #[trigger] norm_added(t, list.last().1, total)
    } else {
        tally(list.drop_last(), mask, odd, total)
    }
}

/// `p` is the probability that the parity of the bits at the given locations is
/// odd: the sum over all such entries, in some order.
pub open spec fn probability<A: Amplitude>(
    state: Map<Set<nat>, A>,
    locs: Seq<usize>,
    p: A::Real,
) -> bool {
    exists|list: Seq<(Set<nat>, A)>| #[trigger]
        lists(list, state) && tally(list, positions(locs), true, p)
}

/// What is left under `k` when the entries whose parity is `odd` are kept and
/// scaled.
pub open spec fn collapsed_entry<A: Amplitude>(
    pre: Map<Set<nat>, A>,
    mask: Set<nat>,
    odd: bool,
    factor: A::Real,
    post: Map<Set<nat>, A>,
    k: Set<nat>,
) -> bool {
    if pre.contains_key(k) && odd_parity(k, mask) == odd {
        exists|v: A| #[trigger] scaled(pre[k], factor, v) && kept(v, k, post)
    } else {
        !post.contains_key(k)
    }
}

/// `factor` is one over the square root of `total`.
pub open spec fn normalizer<R: Real>(total: R, factor: R) -> bool {
    exists|root: R| #[trigger] real_sqrt(total, root) && real_recip(root, factor)
}

/// The state after the parity of the bits at the given locations turned out to
/// be `odd`: the other entries are gone, and these are normalized.
pub open spec fn collapsed<A: Amplitude>(
    pre: Map<Set<nat>, A>,
    locs: Seq<usize>,
    odd: bool,
    post: Map<Set<nat>, A>,
) -> bool {
    exists|list: Seq<(Set<nat>, A)>, total: A::Real, factor: A::Real| #[trigger]
        lists(list, pre) && #[trigger] tally(list, positions(locs), odd, total)
            && #[trigger] normalizer(total, factor) && forall|k: Set<nat>| #[trigger]
            collapsed_entry(pre, positions(locs), odd, factor, post, k)
}

/// The parity of the bits at the given locations is measured: it is odd if the
/// sample is below the probability of that, and the state collapses.
pub open spec fn measured<A: Amplitude>(
    pre: Map<Set<nat>, A>,
    locs: Seq<usize>,
    sample: A::Real,
    odd: bool,
    post: Map<Set<nat>, A>,
) -> bool {
    &&& exists|p: A::Real| #[trigger] probability(pre, locs, p) && real_less(sample, p, odd)
    &&& collapsed(pre, locs, odd, post)
}

/// What is queued on the qubits is flushed, and their parity is measured.
pub open spec fn measure_step<A: Amplitude>(
    pre: SimModel<A>,
    ids: Seq<usize>,
    sample: A::Real,
    odd: bool,
    post: SimModel<A>,
) -> bool {
    exists|mid: SimModel<A>| #[trigger]
        flush_step(pre, ids, FlushLevel::HRxRy, mid) && post == (SimModel {
            state: post.state,
            ..mid
        }) && measured(mid.state, locations(mid.ids, ids), sample, odd, post.state)
}

/// The state with the bit at the location cleared in every entry.
pub open spec fn cleared<A: Amplitude>(
    state: Map<Set<nat>, A>,
    loc: nat,
) -> Map<Set<nat>, A> {
    Map::new(
        |k: Set<nat>| !k.contains(loc) && state.contains_key(k.insert(loc)),
        |k: Set<nat>| state[k.insert(loc)],
    )
}

/// A qubit is released: it is measured, reset to zero if it was one, and its
/// identifier and location become free.
pub open spec fn release_step<A: Amplitude>(
    pre: SimModel<A>,
    id: usize,
    sample: A::Real,
    post: SimModel<A>,
) -> bool {
    exists|odd: bool, mid: SimModel<A>| #[trigger]
        measure_step(pre, just(id), sample, odd, mid) && post == (SimModel {
            state: if odd {
                cleared(mid.state, mid.ids[id] as nat)
            } else {
                mid.state
            },
            ids: mid.ids.remove(id),
            ..mid
        })
}

// ---------------------------------------------------------------------------
// Swapping
// ---------------------------------------------------------------------------

/// `bits` with the bits at two positions exchanged.
pub open spec fn exchanged(bits: Set<nat>, a: nat, b: nat) -> Set<nat> {
    with_bit(with_bit(bits, a, bits.contains(b)), b, bits.contains(a))
}

/// A queue with what is under two identifiers exchanged.
pub open spec fn queue_exchanged<R>(queue: Map<usize, R>, a: usize, b: usize) -> Map<usize, R> {
    Map::new(
        |q: usize| queue.contains_key(other_of(q, a, b)),
        |q: usize| queue[other_of(q, a, b)],
    )
}

/// The one of `a` and `b` that `q` is not, and `q` itself if it is neither.
pub open spec fn other_of(q: usize, a: usize, b: usize) -> usize {
    if q == a {
        b
    } else if q == b {
        a
    } else {
        q
    }
}

/// Two qubits exchange their locations and what is queued on them.
pub open spec fn swap_ids_step<A: Amplitude>(
    pre: SimModel<A>,
    a: usize,
    b: usize,
    post: SimModel<A>,
) -> bool {
    post == (SimModel {
        state: pre.state,
        ids: queue_exchanged(pre.ids, a, b),
        h: exchanged(pre.h, a as nat, b as nat),
        rx: queue_exchanged(pre.rx, a, b),
        ry: queue_exchanged(pre.ry, a, b),
    })
}

/// The state with the bits at two locations exchanged in every entry.
pub open spec fn state_exchanged<A: Amplitude>(
    state: Map<Set<nat>, A>,
    a: nat,
    b: nat,
) -> Map<Set<nat>, A> {
    Map::new(
        |k: Set<nat>| state.contains_key(exchanged(k, a, b)),
        |k: Set<nat>| state[exchanged(k, a, b)],
    )
}

/// The states at two locations are exchanged, after what is queued under the
/// same two numbers has been flushed.
pub open spec fn swap_state_step<A: Amplitude>(
    pre: SimModel<A>,
    a: usize,
    b: usize,
    post: SimModel<A>,
) -> bool {
    if a == b {
        post == pre
    } else {
        exists|mid: SimModel<A>| #[trigger]
            flush_step(pre, both(a, b), FlushLevel::HRxRy, mid) && post == (SimModel {
                state: state_exchanged(mid.state, a as nat, b as nat),
                ..mid
            })
    }
}

// ---------------------------------------------------------------------------
// Dumping
// ---------------------------------------------------------------------------

/// The qubits that are one in the basis state.
pub open spec fn ones(k: Set<nat>, ids: Map<usize, usize>) -> Set<usize> {
    Set::new(|id: usize| ids.contains_key(id) && k.contains(ids[id] as nat))
}

/// Whether the basis state in which exactly the given qubits are one has an
/// entry, `v`.
pub open spec fn has_amplitude<A: Amplitude>(s: SimModel<A>, qubits: Set<usize>, v: A) -> bool {
    exists|k: Set<nat>| #[trigger]
        s.state.contains_key(k) && ones(k, s.ids) == qubits && s.state[k] == v
}

/// Whether both have the same qubits in the same state, wherever these are.
pub open spec fn same_for_qubits<A: Amplitude>(a: SimModel<A>, b: SimModel<A>) -> bool {
    &&& a.ids.dom() == b.ids.dom()
    &&& forall|qubits: Set<usize>, v: A| #[trigger]
        has_amplitude(a, qubits, v) <==> has_amplitude(b, qubits, v)
}

/// Whether the locations in use are those below some number.
pub open spec fn packed(ids: Map<usize, usize>) -> bool {
    forall|a: nat, b: nat| a < b && #[trigger] in_use(ids, b) ==> #[trigger] in_use(ids, a)
}

/// Whether qubits with higher identifiers are at higher locations.
pub open spec fn ordered(ids: Map<usize, usize>) -> bool {
    forall|a: usize, b: usize| #[trigger]
        ids.contains_key(a) && #[trigger] ids.contains_key(b) && a < b ==> ids[a] < ids[b]
}

/// Everything queued is flushed, qubit by qubit, and then the qubits are put in
/// the order of their identifiers.
pub open spec fn dump_step<A: Amplitude>(pre: SimModel<A>, post: SimModel<A>) -> bool {
    exists|qubits: Seq<usize>, mid: SimModel<A>| #[trigger]
        enumerates(qubits, pre.ids.dom()) && #[trigger] flush_step(
            pre,
            qubits,
            FlushLevel::HRxRy,
            mid,
        ) && same_for_qubits(mid, post) && post == (SimModel {
            state: post.state,
            ids: post.ids,
            ..mid
        }) && packed(post.ids) && ordered(post.ids)
}

} // verus!
