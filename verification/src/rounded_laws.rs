//! The laws of what the gates do to the state vector where the arithmetic rounds
//! and nothing is queued on their qubits: what their matrices say, with errors
//! of a few times that of one operation, for any number of controls.
use crate::amplitudes::{idle, lemma_idle};
use crate::arith::{real_frac_1_sqrt_2, Amplitude};
use crate::controlled_laws::phase_number;
use crate::errors::{
    lemma_angle_factor, lemma_factors, lemma_gate_close, lemma_hadamard_off, lemma_named_factor,
    lemma_phase_factor, matrix_near,
};
use crate::exact::{real_units, Cx};
use crate::flushing::lemma_flush_nothing;
use crate::gates::{hadamard, pauli_x, pauli_y, phase_matrix};
use crate::logical::lemma_targets;
use crate::matrix::{act, times_vector, Mat2};
use crate::model::{ids_apart, locations, FlushLevel, Mix, SimModel, Transform};
use crate::reading::Reading;
use crate::rounding::{around, close_to, gap, mag, real_scale};
use crate::steps::{
    flush_all, flush_if, flush_step, flush_target, flushed_phase_step, flushed_transform_step,
    hadamard_step, just, mch_step, mcrx_step, mcry_step, mcx_step, mcy_step, mcz_step, mix_step,
    named_phase, no_controls, only_h_at, phase_step, rotation_step, transform_step,
    x_flushes_controls, x_past_h, y_sign, PhaseGate,
};
use crate::turns::law_rotation_rounded;
use vstd::prelude::*;

verus! {

/// Nothing is queued on any of the qubits of a gate.
proof fn lemma_idle_each<A: Amplitude>(s: SimModel<A>, ctls: Seq<usize>, target: usize)
    requires
        idle(s, ctls, target),
    ensures
        forall|i: int| 0 <= i < ctls.len() ==> s.nothing_queued(#[trigger] ctls[i]),
        s.nothing_queued(target),
{
    assert forall|i: int| 0 <= i < ctls.len() implies s.nothing_queued(#[trigger] ctls[i]) by {
        assert(ctls.push(target)[i] == ctls[i]);
    }
    assert(ctls.push(target)[ctls.len() as int] == target);
}

/// A gate that works entry by entry, with its matrix.
proof fn lemma_transform_close<A: Amplitude>(
    rd: Reading<A>,
    e: real,
    d: real,
    pre: SimModel<A>,
    ctls: Seq<usize>,
    target: usize,
    gate: Transform<A>,
    post: SimModel<A>,
    m: Mat2,
    b: real,
    s: real,
    rel: real,
)
    requires
        rd.rounds(e, d),
        ids_apart(pre.ids),
        pre.applicable(ctls, target),
        transform_step(pre, ctls, target, gate, post),
        matrix_near(rd, gate, m, b, s),
        e * (s + b) + b <= rel,
    ensures
        close_to(
            rd.vector(post.state),
            act(m, locations(pre.ids, ctls), pre.ids[target] as nat, rd.vector(pre.state)),
            rd.vector(pre.state),
            pre.ids[target] as nat,
            rel,
            d,
        ),
{
    lemma_targets(pre, ctls, target);
    lemma_gate_close(
        rd,
        e,
        d,
        pre.state,
        locations(pre.ids, ctls),
        pre.ids[target] as nat,
        gate,
        post.state,
        m,
        b,
        s,
        rel,
    );
}

/// The X gate without anything queued on its qubits.
pub(crate) proof fn lemma_idle_x<A: Amplitude>(
    pre: SimModel<A>,
    ctls: Seq<usize>,
    target: usize,
    post: SimModel<A>,
)
    requires
        idle(pre, ctls, target),
        mcx_step(pre, ctls, target, post),
    ensures
        transform_step(pre, ctls, target, Transform::X, post),
{
    lemma_idle_each(pre, ctls, target);
    if ctls.len() == 0 {
        assert(ctls =~= no_controls());
    } else {
        let (a, b) = choose|a: SimModel<A>, b: SimModel<A>| #[trigger]
            flush_if(x_flushes_controls(pre, ctls, target), pre, ctls, FlushLevel::HRxRy, a)
                && #[trigger] flush_if(
                a.ry.contains_key(target),
                a,
                just(target),
                FlushLevel::HRxRy,
                b,
            ) && x_past_h(b, ctls, target, post);
        if x_flushes_controls(pre, ctls, target) {
            lemma_flush_nothing(pre, ctls, FlushLevel::HRxRy, a);
        }
    }
}

/// The Y gate without anything queued on its qubits.
pub(crate) proof fn lemma_idle_y<A: Amplitude>(
    pre: SimModel<A>,
    ctls: Seq<usize>,
    target: usize,
    post: SimModel<A>,
)
    requires
        idle(pre, ctls, target),
        mcy_step(pre, ctls, target, post),
    ensures
        transform_step(pre, ctls, target, Transform::Y, post),
{
    lemma_idle_each(pre, ctls, target);
    if ctls.len() == 0 {
        assert(ctls =~= no_controls());
    } else {
        let (a, b, c) = choose|a: SimModel<A>, b: SimModel<A>, c: SimModel<A>| #[trigger]
            flush_step(pre, ctls, FlushLevel::HRxRy, a) && #[trigger] flush_if(
                a.rx.contains_key(target),
                a,
                just(target),
                FlushLevel::HRx,
                b,
            ) && #[trigger] y_sign(b, ctls, target, c) && transform_step(
                c,
                ctls,
                target,
                Transform::Y,
                post,
            );
        lemma_flush_nothing(pre, ctls, FlushLevel::HRxRy, a);
    }
}

/// The Z gate without anything queued on its qubits.
pub(crate) proof fn lemma_idle_z<A: Amplitude>(
    pre: SimModel<A>,
    ctls: Seq<usize>,
    target: usize,
    post: SimModel<A>,
)
    requires
        idle(pre, ctls, target),
        mcz_step(pre, ctls, target, post),
    ensures
        phase_step(pre, ctls, target, PhaseGate::Z, post),
{
    let qubits = ctls.push(target);
    lemma_idle_each(pre, ctls, target);
    if ctls.len() == 0 {
        assert(ctls =~= no_controls());
    } else {
        assert(!(exists|i: int| #[trigger] only_h_at(pre, qubits, i))) by {
            if exists|i: int| #[trigger] only_h_at(pre, qubits, i) {
                let i = choose|i: int| #[trigger] only_h_at(pre, qubits, i);
                assert(pre.nothing_queued(qubits[i]));
            }
        }
        let mid = choose|mid: SimModel<A>| #[trigger]
            flush_all(pre, ctls, target, mid) && phase_step(mid, ctls, target, PhaseGate::Z, post);
        lemma_idle(pre, ctls, target, mid);
    }
}

/// The H gate without anything queued on its qubits.
pub(crate) proof fn lemma_idle_h<A: Amplitude>(
    pre: SimModel<A>,
    ctls: Seq<usize>,
    target: usize,
    post: SimModel<A>,
)
    requires
        idle(pre, ctls, target),
        mch_step(pre, ctls, target, post),
    ensures
        hadamard_step(pre, ctls, target, post),
{
    lemma_idle_each(pre, ctls, target);
    let (a, b) = choose|a: SimModel<A>, b: SimModel<A>| #[trigger]
        flush_step(pre, ctls, FlushLevel::HRxRy, a) && #[trigger] flush_if(
            a.rotation_queued(target),
            a,
            just(target),
            FlushLevel::HRxRy,
            b,
        ) && hadamard_step(b, ctls, target, post);
    lemma_flush_nothing(pre, ctls, FlushLevel::HRxRy, a);
}

/// The rotations without anything queued on their qubits.
pub(crate) proof fn lemma_idle_turn<A: Amplitude>(
    pre: SimModel<A>,
    ctls: Seq<usize>,
    theta: A::Real,
    target: usize,
    about_y: bool,
    post: SimModel<A>,
)
    requires
        idle(pre, ctls, target),
        about_y ==> mcry_step(pre, ctls, theta, target, post),
        !about_y ==> mcrx_step(pre, ctls, theta, target, post),
    ensures
        rotation_step(pre, ctls, theta, target, about_y, post),
{
    lemma_idle_each(pre, ctls, target);
    if about_y {
        let (a, b) = choose|a: SimModel<A>, b: SimModel<A>| #[trigger]
            flush_step(pre, ctls, FlushLevel::HRxRy, a) && #[trigger] flush_target(
                a.rx.contains_key(target),
                FlushLevel::HRx,
                a,
                target,
                b,
            ) && rotation_step(b, ctls, theta, target, true, post);
        lemma_flush_nothing(pre, ctls, FlushLevel::HRxRy, a);
    } else {
        let (a, b) = choose|a: SimModel<A>, b: SimModel<A>| #[trigger]
            flush_step(pre, ctls, FlushLevel::HRxRy, a) && #[trigger] flush_target(
                a.ry.contains_key(target),
                FlushLevel::HRxRy,
                a,
                target,
                b,
            ) && rotation_step(b, ctls, theta, target, false, post);
        lemma_flush_nothing(pre, ctls, FlushLevel::HRxRy, a);
    }
}

/// The X gate under any number of controls flips the target, and leaves
/// everything else, but for what counts as zero.
pub proof fn law_x_rounded<A: Amplitude>(
    rd: Reading<A>,
    e: real,
    d: real,
    pre: SimModel<A>,
    ctls: Seq<usize>,
    target: usize,
    post: SimModel<A>,
)
    requires
        rd.rounds(e, d),
        ids_apart(pre.ids),
        pre.applicable(ctls, target),
        idle(pre, ctls, target),
        mcx_step(pre, ctls, target, post),
    ensures
        post == (SimModel { state: post.state, ..pre }),
        close_to(
            rd.vector(post.state),
            act(pauli_x(), locations(pre.ids, ctls), pre.ids[target] as nat, rd.vector(pre.state)),
            rd.vector(pre.state),
            pre.ids[target] as nat,
            e,
            d,
        ),
{
    lemma_idle_x(pre, ctls, target, post);
    lemma_factors::<A>(rd, e, d);
    real_units(e);
    lemma_transform_close(
        rd,
        e,
        d,
        pre,
        ctls,
        target,
        Transform::X,
        post,
        pauli_x(),
        0 as real,
        1 as real,
        e,
    );
}

/// The Y gate under any number of controls does what its matrix says, but for
/// the error of one operation.
pub proof fn law_y_rounded<A: Amplitude>(
    rd: Reading<A>,
    e: real,
    d: real,
    pre: SimModel<A>,
    ctls: Seq<usize>,
    target: usize,
    post: SimModel<A>,
)
    requires
        rd.rounds(e, d),
        ids_apart(pre.ids),
        pre.applicable(ctls, target),
        idle(pre, ctls, target),
        mcy_step(pre, ctls, target, post),
    ensures
        post == (SimModel { state: post.state, ..pre }),
        close_to(
            rd.vector(post.state),
            act(pauli_y(), locations(pre.ids, ctls), pre.ids[target] as nat, rd.vector(pre.state)),
            rd.vector(pre.state),
            pre.ids[target] as nat,
            e,
            d,
        ),
{
    lemma_idle_y(pre, ctls, target, post);
    lemma_factors::<A>(rd, e, d);
    real_units(e);
    lemma_transform_close(
        rd,
        e,
        d,
        pre,
        ctls,
        target,
        Transform::Y,
        post,
        pauli_y(),
        0 as real,
        1 as real,
        e,
    );
}

proof fn lemma_named_close<A: Amplitude>(
    rd: Reading<A>,
    e: real,
    d: real,
    pre: SimModel<A>,
    ctls: Seq<usize>,
    target: usize,
    gate: PhaseGate,
    post: SimModel<A>,
)
    requires
        rd.rounds(e, d),
        ids_apart(pre.ids),
        pre.applicable(ctls, target),
        phase_step(pre, ctls, target, gate, post),
    ensures
        post == (SimModel { state: post.state, ..pre }),
        close_to(
            rd.vector(post.state),
            act(
                phase_matrix(phase_number(rd, gate)),
                locations(pre.ids, ctls),
                pre.ids[target] as nat,
                rd.vector(pre.state),
            ),
            rd.vector(pre.state),
            pre.ids[target] as nat,
            (5 as real) * e,
            d,
        ),
{
    let p = choose|p: A| #[trigger]
        named_phase(gate, p) && transform_step(pre, ctls, target, Transform::Phase(p), post);
    lemma_named_factor(rd, e, d, gate, p);
    let b = (2 as real) * e;
    real_scale(2 as real + b, 3 as real, e);
    lemma_transform_close(
        rd,
        e,
        d,
        pre,
        ctls,
        target,
        Transform::Phase(p),
        post,
        phase_matrix(phase_number(rd, gate)),
        b,
        2 as real,
        (5 as real) * e,
    );
}

/// The Z gate under any number of controls changes the sign of the amplitudes of
/// the basis states in which all its qubits are one, but for the errors of a few
/// operations.
pub proof fn law_z_rounded<A: Amplitude>(
    rd: Reading<A>,
    e: real,
    d: real,
    pre: SimModel<A>,
    ctls: Seq<usize>,
    target: usize,
    post: SimModel<A>,
)
    requires
        rd.rounds(e, d),
        ids_apart(pre.ids),
        pre.applicable(ctls, target),
        idle(pre, ctls, target),
        mcz_step(pre, ctls, target, post),
    ensures
        post == (SimModel { state: post.state, ..pre }),
        close_to(
            rd.vector(post.state),
            act(
                phase_matrix(Cx::one().negate()),
                locations(pre.ids, ctls),
                pre.ids[target] as nat,
                rd.vector(pre.state),
            ),
            rd.vector(pre.state),
            pre.ids[target] as nat,
            (5 as real) * e,
            d,
        ),
{
    lemma_idle_z(pre, ctls, target, post);
    lemma_named_close(rd, e, d, pre, ctls, target, PhaseGate::Z, post);
}

/// A phase gate with a name, under any number of controls, multiplies by its
/// number where its qubits are all one, but for the errors of a few operations.
pub proof fn law_named_phase_rounded<A: Amplitude>(
    rd: Reading<A>,
    e: real,
    d: real,
    pre: SimModel<A>,
    ctls: Seq<usize>,
    target: usize,
    gate: PhaseGate,
    post: SimModel<A>,
)
    requires
        rd.rounds(e, d),
        ids_apart(pre.ids),
        pre.applicable(ctls, target),
        idle(pre, ctls, target),
        flushed_phase_step(pre, ctls, target, gate, post),
    ensures
        post == (SimModel { state: post.state, ..pre }),
        close_to(
            rd.vector(post.state),
            act(
                phase_matrix(phase_number(rd, gate)),
                locations(pre.ids, ctls),
                pre.ids[target] as nat,
                rd.vector(pre.state),
            ),
            rd.vector(pre.state),
            pre.ids[target] as nat,
            (5 as real) * e,
            d,
        ),
{
    let mid = choose|mid: SimModel<A>| #[trigger]
        flush_all(pre, ctls, target, mid) && phase_step(mid, ctls, target, gate, post);
    lemma_idle(pre, ctls, target, mid);
    lemma_named_close(rd, e, d, pre, ctls, target, gate, post);
}

/// A phase gate, under any number of controls, multiplies by its number where
/// its qubits are all one, but for the error of one operation.
pub proof fn law_mcphase_rounded<A: Amplitude>(
    rd: Reading<A>,
    e: real,
    d: real,
    pre: SimModel<A>,
    ctls: Seq<usize>,
    phase: A,
    target: usize,
    post: SimModel<A>,
)
    requires
        rd.rounds(e, d),
        ids_apart(pre.ids),
        pre.applicable(ctls, target),
        idle(pre, ctls, target),
        flushed_transform_step(pre, ctls, target, Transform::Phase(phase), post),
    ensures
        post == (SimModel { state: post.state, ..pre }),
        close_to(
            rd.vector(post.state),
            act(
                phase_matrix(rd.num(phase)),
                locations(pre.ids, ctls),
                pre.ids[target] as nat,
                rd.vector(pre.state),
            ),
            rd.vector(pre.state),
            pre.ids[target] as nat,
            e * (1 as real + mag(rd.num(phase))),
            d,
        ),
{
    let gate = Transform::Phase(phase);
    let mid = choose|mid: SimModel<A>| #[trigger]
        flush_all(pre, ctls, target, mid) && transform_step(mid, ctls, target, gate, post);
    lemma_idle(pre, ctls, target, mid);
    lemma_phase_factor(rd, e, d, phase);
    lemma_transform_close(
        rd,
        e,
        d,
        pre,
        ctls,
        target,
        gate,
        post,
        phase_matrix(rd.num(phase)),
        0 as real,
        1 as real + mag(rd.num(phase)),
        e * (1 as real + mag(rd.num(phase))),
    );
}

/// The rotation about Z under any number of controls does what its matrix says,
/// but for the errors of a few operations.
pub proof fn law_rz_rounded<A: Amplitude>(
    rd: Reading<A>,
    e: real,
    d: real,
    pre: SimModel<A>,
    ctls: Seq<usize>,
    theta: A::Real,
    target: usize,
    post: SimModel<A>,
)
    requires
        rd.rounds(e, d),
        ids_apart(pre.ids),
        pre.applicable(ctls, target),
        idle(pre, ctls, target),
        flushed_transform_step(pre, ctls, target, Transform::Rz(theta), post),
    ensures
        post == (SimModel { state: post.state, ..pre }),
        close_to(
            rd.vector(post.state),
            act(
                rd.rz(theta),
                locations(pre.ids, ctls),
                pre.ids[target] as nat,
                rd.vector(pre.state),
            ),
            rd.vector(pre.state),
            pre.ids[target] as nat,
            (4 as real) * e,
            d,
        ),
{
    let gate = Transform::Rz(theta);
    let mid = choose|mid: SimModel<A>| #[trigger]
        flush_all(pre, ctls, target, mid) && transform_step(mid, ctls, target, gate, post);
    lemma_idle(pre, ctls, target, mid);
    lemma_angle_factor(rd, e, d, theta);
    real_scale(2 as real + e, 3 as real, e);
    lemma_transform_close(
        rd,
        e,
        d,
        pre,
        ctls,
        target,
        gate,
        post,
        rd.rz(theta),
        e,
        2 as real,
        (4 as real) * e,
    );
}

/// The H gate under any number of controls does what its matrix says, but for
/// the errors of a few operations.
pub proof fn law_mch_rounded<A: Amplitude>(
    rd: Reading<A>,
    e: real,
    d: real,
    pre: SimModel<A>,
    ctls: Seq<usize>,
    target: usize,
    post: SimModel<A>,
)
    requires
        rd.rounds(e, d),
        idle(pre, ctls, target),
        mch_step(pre, ctls, target, post),
    ensures
        post == (SimModel { state: post.state, ..pre }),
        close_to(
            rd.vector(post.state),
            act(
                hadamard(rd.root_half),
                locations(pre.ids, ctls),
                pre.ids[target] as nat,
                rd.vector(pre.state),
            ),
            rd.vector(pre.state),
            pre.ids[target] as nat,
            (8 as real) * e,
            d,
        ),
{
    lemma_idle_h(pre, ctls, target, post);
    let f = choose|f: A::Real| #[trigger]
        real_frac_1_sqrt_2(f) && mix_step(pre, ctls, target, Mix::Hadamard(f), post);
    let (locs, loc) = (locations(pre.ids, ctls), pre.ids[target] as nat);
    let psi = rd.vector(pre.state);
    let l = rd.vector(post.state);
    let r = act(hadamard(rd.root_half), locs, loc, psi);
    assert forall|k: Set<nat>| #[trigger] gap(l(k), r(k)) <= ((8 as real) * e) * around(
        psi,
        loc,
        k,
    ) + d by {
        lemma_hadamard_off(rd, e, d, pre.state, locs, loc, f, post.state, k);
    }
}

/// The rotation about X under any number of controls does what its matrix says,
/// but for the errors of a few operations, and up to a phase if there are no
/// controls.
pub proof fn law_mcrx_rounded<A: Amplitude>(
    rd: Reading<A>,
    e: real,
    d: real,
    pre: SimModel<A>,
    ctls: Seq<usize>,
    theta: A::Real,
    target: usize,
    post: SimModel<A>,
) -> (z: Cx)
    requires
        rd.rounds(e, d),
        ids_apart(pre.ids),
        pre.applicable(ctls, target),
        idle(pre, ctls, target),
        mcrx_step(pre, ctls, theta, target, post),
    ensures
        post == (SimModel { state: post.state, ..pre }),
        z.is_phase(),
        ctls.len() > 0 ==> z == Cx::one(),
        close_to(
            rd.vector(post.state),
            times_vector(
                z,
                act(
                    rd.rx(theta),
                    locations(pre.ids, ctls),
                    pre.ids[target] as nat,
                    rd.vector(pre.state),
                ),
            ),
            rd.vector(pre.state),
            pre.ids[target] as nat,
            (16 as real) * (e + d),
            (6 as real) * d,
        ),
{
    lemma_idle_turn(pre, ctls, theta, target, false, post);
    law_rotation_rounded(rd, e, d, pre, ctls, theta, target, false, post)
}

/// The rotation about Y under any number of controls does what its matrix says,
/// but for the errors of a few operations, and up to a phase if there are no
/// controls.
pub proof fn law_mcry_rounded<A: Amplitude>(
    rd: Reading<A>,
    e: real,
    d: real,
    pre: SimModel<A>,
    ctls: Seq<usize>,
    theta: A::Real,
    target: usize,
    post: SimModel<A>,
) -> (z: Cx)
    requires
        rd.rounds(e, d),
        ids_apart(pre.ids),
        pre.applicable(ctls, target),
        idle(pre, ctls, target),
        mcry_step(pre, ctls, theta, target, post),
    ensures
        post == (SimModel { state: post.state, ..pre }),
        z.is_phase(),
        ctls.len() > 0 ==> z == Cx::one(),
        close_to(
            rd.vector(post.state),
            times_vector(
                z,
                act(
                    rd.ry(theta),
                    locations(pre.ids, ctls),
                    pre.ids[target] as nat,
                    rd.vector(pre.state),
                ),
            ),
            rd.vector(pre.state),
            pre.ids[target] as nat,
            (16 as real) * (e + d),
            (6 as real) * d,
        ),
{
    lemma_idle_turn(pre, ctls, theta, target, true, post);
    law_rotation_rounded(rd, e, d, pre, ctls, theta, target, true, post)
}

} // verus!
