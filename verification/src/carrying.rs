//! The laws of queued gates, in any arithmetic: what is flushed is what the gates
//! themselves would have done, and a gate that is carried past queued ones does
//! to the state what one does where nothing is queued.
use crate::amplitudes::idle;
use crate::arith::{
    nearly_zero, real_frac_1_sqrt_2, real_nearly_zero, real_negated, real_sum, Amplitude,
};
use crate::bits::with_bit;
use crate::flushing::law_flush_empties_queues;
use crate::model::{FlushLevel, Mix, SimModel, Transform};
use crate::reading::Reading;
use crate::rounding::size;
use crate::steps::{
    angle_negated, controls_phase, controls_without, flush_all, flush_h_step, flush_if, flush_one,
    flush_rx_step, flush_ry_step, flush_step, flush_target, flushed_phase_step,
    flushed_transform_step, h_step, hadamard_step, half_turn_gate, half_turn_step, just, mch_step,
    mcrx_step, mcry_step, mcx_step, mcy_step, mcz_step, mix_step, named_phase, no_controls,
    only_h_at, phase_step, rotation_diagonal, rotation_lower, rotation_step, rotation_upper,
    rx_step, ry_step, transform_step, x_flushes_controls, x_past_h, x_queue, x_step, y_queue,
    y_sign, y_step, z_queue, z_step, PhaseGate,
};
use vstd::prelude::*;

verus! {

/// The simulation with nothing queued.
pub open spec fn stripped<A: Amplitude>(s: SimModel<A>) -> SimModel<A> {
    SimModel { h: Set::empty(), rx: Map::empty(), ry: Map::empty(), ..s }
}

/// The simulation with nothing queued, and another state.
pub open spec fn bare<A: Amplitude>(s: SimModel<A>, other: SimModel<A>) -> SimModel<A> {
    SimModel { state: other.state, ..stripped(s) }
}

/// Calls that flush one qubit each, one after another.
pub open spec fn flush_calls<A: Amplitude>(
    pre: SimModel<A>,
    calls: Seq<(usize, FlushLevel)>,
    post: SimModel<A>,
) -> bool
    decreases calls.len(),
{
    if calls.len() == 0 {
        post == pre
    } else {
        exists|mid: SimModel<A>|
            flush_calls(pre, calls.drop_last(), mid) && #[trigger] flush_step(
                mid,
                just(calls.last().0),
                calls.last().1,
                post,
            )
    }
}

// ---------------------------------------------------------------------------
// Steps that do not look at the queues
// ---------------------------------------------------------------------------

/// The same state at the same locations, with other queues.
spec fn alike<A: Amplitude>(a: SimModel<A>, b: SimModel<A>) -> bool {
    a.state == b.state && a.ids == b.ids
}

/// What a step does to a simulation with other queues.
spec fn lifted<A: Amplitude>(b: SimModel<A>, post: SimModel<A>) -> SimModel<A> {
    SimModel { state: post.state, ..b }
}

proof fn lemma_lift_phase<A: Amplitude>(
    a: SimModel<A>,
    b: SimModel<A>,
    ctls: Seq<usize>,
    target: usize,
    gate: PhaseGate,
    post: SimModel<A>,
)
    requires
        alike(a, b),
        phase_step(a, ctls, target, gate, post),
    ensures
        phase_step(b, ctls, target, gate, lifted(b, post)),
{
    let p = choose|p: A| #[trigger]
        named_phase(gate, p) && transform_step(a, ctls, target, Transform::Phase(p), post);
    assert(transform_step(b, ctls, target, Transform::Phase(p), lifted(b, post)));
}

proof fn lemma_lift_hadamard<A: Amplitude>(
    a: SimModel<A>,
    b: SimModel<A>,
    ctls: Seq<usize>,
    target: usize,
    post: SimModel<A>,
)
    requires
        alike(a, b),
        hadamard_step(a, ctls, target, post),
    ensures
        hadamard_step(b, ctls, target, lifted(b, post)),
{
    let f = choose|f: A::Real| #[trigger]
        real_frac_1_sqrt_2(f) && mix_step(a, ctls, target, Mix::Hadamard(f), post);
    assert(mix_step(b, ctls, target, Mix::Hadamard(f), lifted(b, post)));
}

proof fn lemma_lift_rotation<A: Amplitude>(
    a: SimModel<A>,
    b: SimModel<A>,
    ctls: Seq<usize>,
    theta: A::Real,
    target: usize,
    about_y: bool,
    post: SimModel<A>,
)
    requires
        alike(a, b),
        rotation_step(a, ctls, theta, target, about_y, post),
    ensures
        rotation_step(b, ctls, theta, target, about_y, lifted(b, post)),
        post == lifted(a, post),
{
    let (m00, m01) = choose|m00: A, m01: A| #[trigger]
        rotation_diagonal(theta, m00) && #[trigger] rotation_upper(theta, about_y, m01) && {
            ||| nearly_zero(m00, true) && half_turn_step(a, ctls, theta, target, about_y, post)
            ||| nearly_zero(m00, false) && nearly_zero(m01, true) && controls_phase(
                a,
                ctls,
                m00,
                post,
            )
            ||| nearly_zero(m00, false) && nearly_zero(m01, false) && exists|m10: A| #[trigger]
                rotation_lower(about_y, m01, m10) && mix_step(
                    a,
                    ctls,
                    target,
                    Mix::Rotation { m00, m01, m10 },
                    post,
                )
        };
    let after = lifted(b, post);
    if nearly_zero(m00, true) && half_turn_step(a, ctls, theta, target, about_y, post) {
        let gate = half_turn_gate::<A>(about_y);
        let (mid, phase) = choose|mid: SimModel<A>, phase: A| #[trigger]
            transform_step(a, ctls, target, gate, mid) && #[trigger] rotation_upper(
                theta,
                false,
                phase,
            ) && controls_phase(mid, ctls, phase, post);
        assert(transform_step(b, ctls, target, gate, lifted(b, mid)));
        assert(controls_phase(lifted(b, mid), ctls, phase, after));
        assert(half_turn_step(b, ctls, theta, target, about_y, after));
    } else if nearly_zero(m01, true) && controls_phase(a, ctls, m00, post) {
        assert(controls_phase(b, ctls, m00, after));
    } else {
        let m10 = choose|m10: A| #[trigger]
            rotation_lower(about_y, m01, m10) && mix_step(
                a,
                ctls,
                target,
                Mix::Rotation { m00, m01, m10 },
                post,
            );
        assert(mix_step(b, ctls, target, Mix::Rotation { m00, m01, m10 }, after));
    }
}

// ---------------------------------------------------------------------------
// The gates where nothing is queued
// ---------------------------------------------------------------------------

/// Nothing is queued, so nothing is flushed.
proof fn lemma_flush_stripped<A: Amplitude>(
    s: SimModel<A>,
    qubits: Seq<usize>,
    level: FlushLevel,
)
    requires
        s == stripped(s),
    ensures
        flush_step(s, qubits, level, s),
    decreases qubits.len(),
{
    if qubits.len() > 0 {
        lemma_flush_stripped(s, qubits.drop_last(), level);
        let q = qubits.last();
        assert(flush_h_step(s, q, s) && flush_rx_step(s, q, s) && flush_ry_step(s, q, s));
        assert(flush_one(s, q, level, s));
    }
}

proof fn lemma_flush_all_stripped<A: Amplitude>(s: SimModel<A>, ctls: Seq<usize>, target: usize)
    requires
        s == stripped(s),
    ensures
        flush_all(s, ctls, target, s),
{
    lemma_flush_stripped(s, ctls, FlushLevel::HRxRy);
    lemma_flush_stripped(s, just(target), FlushLevel::HRxRy);
}

proof fn lemma_x_stripped<A: Amplitude>(
    s: SimModel<A>,
    ctls: Seq<usize>,
    target: usize,
    post: SimModel<A>,
)
    requires
        s == stripped(s),
        transform_step(s, ctls, target, Transform::X, post),
    ensures
        mcx_step(s, ctls, target, post),
{
    if ctls.len() == 0 {
        assert(ctls =~= no_controls());
        assert(x_queue(s, target, s));
    } else {
        lemma_flush_stripped(s, ctls, FlushLevel::HRxRy);
        assert(flush_if(x_flushes_controls(s, ctls, target), s, ctls, FlushLevel::HRxRy, s));
        assert(flush_if(s.ry.contains_key(target), s, just(target), FlushLevel::HRxRy, s));
    }
}

proof fn lemma_y_stripped<A: Amplitude>(
    s: SimModel<A>,
    ctls: Seq<usize>,
    target: usize,
    post: SimModel<A>,
)
    requires
        s == stripped(s),
        transform_step(s, ctls, target, Transform::Y, post),
    ensures
        mcy_step(s, ctls, target, post),
{
    if ctls.len() == 0 {
        assert(ctls =~= no_controls());
        assert(y_queue(s, target, s));
    } else {
        lemma_flush_stripped(s, ctls, FlushLevel::HRxRy);
        assert(flush_if(s.rx.contains_key(target), s, just(target), FlushLevel::HRx, s));
        assert(y_sign(s, ctls, target, s));
    }
}

proof fn lemma_z_stripped<A: Amplitude>(
    s: SimModel<A>,
    ctls: Seq<usize>,
    target: usize,
    post: SimModel<A>,
)
    requires
        s == stripped(s),
        phase_step(s, ctls, target, PhaseGate::Z, post),
    ensures
        mcz_step(s, ctls, target, post),
{
    if ctls.len() == 0 {
        assert(ctls =~= no_controls());
        assert(z_queue(s, target, s));
    } else {
        lemma_flush_all_stripped(s, ctls, target);
        assert(forall|i: int| !(#[trigger] only_h_at(s, ctls.push(target), i)));
    }
}

proof fn lemma_h_stripped<A: Amplitude>(
    s: SimModel<A>,
    ctls: Seq<usize>,
    target: usize,
    post: SimModel<A>,
)
    requires
        s == stripped(s),
        hadamard_step(s, ctls, target, post),
    ensures
        mch_step(s, ctls, target, post),
{
    lemma_flush_stripped(s, ctls, FlushLevel::HRxRy);
    assert(flush_if(s.rotation_queued(target), s, just(target), FlushLevel::HRxRy, s));
}

proof fn lemma_turn_stripped<A: Amplitude>(
    s: SimModel<A>,
    ctls: Seq<usize>,
    theta: A::Real,
    target: usize,
    about_y: bool,
    post: SimModel<A>,
)
    requires
        s == stripped(s),
        rotation_step(s, ctls, theta, target, about_y, post),
    ensures
        about_y ==> mcry_step(s, ctls, theta, target, post),
        !about_y ==> mcrx_step(s, ctls, theta, target, post),
{
    lemma_flush_stripped(s, ctls, FlushLevel::HRxRy);
    if about_y {
        assert(flush_target(s.rx.contains_key(target), FlushLevel::HRx, s, target, s));
    } else {
        assert(flush_target(s.ry.contains_key(target), FlushLevel::HRxRy, s, target, s));
    }
}

// ---------------------------------------------------------------------------
// Flushing
// ---------------------------------------------------------------------------

/// Flushing a qubit does to the state what its queued gates, up to the level,
/// would have done to it at once, one after another: the H gate, then the
/// rotation about X, then that about Y. They leave the queue.
pub proof fn law_flush_is_gates<A: Amplitude>(
    pre: SimModel<A>,
    q: usize,
    level: FlushLevel,
    post: SimModel<A>,
) -> (r: (SimModel<A>, SimModel<A>))
    requires
        flush_step(pre, just(q), level, post),
    ensures
        if pre.h.contains(q as nat) {
            mch_step(stripped(pre), no_controls(), q, r.0)
        } else {
            r.0 == stripped(pre)
        },
        if !(level is H) && pre.rx.contains_key(q) {
            mcrx_step(r.0, no_controls(), pre.rx[q], q, r.1)
        } else {
            r.1 == r.0
        },
        if level is HRxRy && pre.ry.contains_key(q) {
            mcry_step(r.1, no_controls(), pre.ry[q], q, bare(pre, post))
        } else {
            bare(pre, post) == r.1
        },
        post == (SimModel {
            state: post.state,
            ids: pre.ids,
            h: pre.h.remove(q as nat),
            rx: if level is H {
                pre.rx
            } else {
                pre.rx.remove(q)
            },
            ry: if level is HRxRy {
                pre.ry.remove(q)
            } else {
                pre.ry
            },
        }),
{
    let s = stripped(pre);
    assert(just(q).drop_last() =~= Seq::<usize>::empty());
    assert(just(q).last() == q);
    assert(flush_one(pre, q, level, post)) by {
        let mid = choose|mid: SimModel<A>|
            flush_step(pre, just(q).drop_last(), level, mid) && #[trigger] flush_one(
                mid,
                just(q).last(),
                level,
                post,
            );
        assert(mid == pre);
    }
    let (a, b) = match level {
        FlushLevel::H => (post, post),
        FlushLevel::HRx => {
            let a = choose|a: SimModel<A>| #[trigger]
                flush_h_step(pre, q, a) && flush_rx_step(a, q, post);
            (a, post)
        },
        FlushLevel::HRxRy => choose|a: SimModel<A>, b: SimModel<A>| #[trigger]
            flush_h_step(pre, q, a) && #[trigger] flush_rx_step(a, q, b) && flush_ry_step(
                b,
                q,
                post,
            ),
    };
    // The H gate.
    let x = lifted(s, a);
    if pre.h.contains(q as nat) {
        let mid = choose|mid: SimModel<A>| #[trigger]
            hadamard_step(pre, no_controls(), q, mid) && a == (SimModel {
                h: mid.h.remove(q as nat),
                ..mid
            });
        lemma_lift_hadamard(pre, s, no_controls(), q, mid);
        lemma_h_stripped(s, no_controls(), q, x);
    } else {
        assert(pre.h.remove(q as nat) =~= pre.h);
    }
    // The rotation about X.
    let y = lifted(s, b);
    if !(level is H) {
        lemma_flush_turn(a, s, q, false, b);
    }
    // The rotation about Y.
    if level is HRxRy {
        lemma_flush_turn(b, s, q, true, post);
    }
    if !pre.rx.contains_key(q) {
        assert(pre.rx.remove(q) =~= pre.rx);
    }
    if !pre.ry.contains_key(q) {
        assert(pre.ry.remove(q) =~= pre.ry);
    }
    (x, y)
}

/// One queued rotation that is flushed.
proof fn lemma_flush_turn<A: Amplitude>(
    pre: SimModel<A>,
    s: SimModel<A>,
    q: usize,
    about_y: bool,
    post: SimModel<A>,
)
    requires
        s == stripped(s),
        s.ids == pre.ids,
        about_y ==> flush_ry_step(pre, q, post),
        !about_y ==> flush_rx_step(pre, q, post),
    ensures
        post.ids == pre.ids,
        post.h == pre.h,
        about_y ==> post.rx == pre.rx && post.ry == pre.ry.remove(q),
        !about_y ==> post.ry == pre.ry && post.rx == pre.rx.remove(q),
        about_y && pre.ry.contains_key(q) ==> mcry_step(
            lifted(s, pre),
            no_controls(),
            pre.ry[q],
            q,
            lifted(s, post),
        ),
        !about_y && pre.rx.contains_key(q) ==> mcrx_step(
            lifted(s, pre),
            no_controls(),
            pre.rx[q],
            q,
            lifted(s, post),
        ),
        about_y && !pre.ry.contains_key(q) ==> post.state == pre.state,
        !about_y && !pre.rx.contains_key(q) ==> post.state == pre.state,
{
    let t = lifted(s, pre);
    if about_y {
        if pre.ry.contains_key(q) {
            let mid = choose|mid: SimModel<A>| #[trigger]
                rotation_step(pre, no_controls(), pre.ry[q], q, true, mid) && post == (SimModel {
                    ry: mid.ry.remove(q),
                    ..mid
                });
            lemma_lift_rotation(pre, t, no_controls(), pre.ry[q], q, true, mid);
            lemma_turn_stripped(t, no_controls(), pre.ry[q], q, true, lifted(t, mid));
        } else {
            assert(pre.ry.remove(q) =~= pre.ry);
        }
    } else {
        if pre.rx.contains_key(q) {
            let mid = choose|mid: SimModel<A>| #[trigger]
                rotation_step(pre, no_controls(), pre.rx[q], q, false, mid) && post == (SimModel {
                    rx: mid.rx.remove(q),
                    ..mid
                });
            lemma_lift_rotation(pre, t, no_controls(), pre.rx[q], q, false, mid);
            lemma_turn_stripped(t, no_controls(), pre.rx[q], q, false, lifted(t, mid));
        } else {
            assert(pre.rx.remove(q) =~= pre.rx);
        }
    }
}

/// Flushing several qubits is flushing them one after another.
pub proof fn law_flush_each<A: Amplitude>(
    pre: SimModel<A>,
    qubits: Seq<usize>,
    level: FlushLevel,
    post: SimModel<A>,
) -> (calls: Seq<(usize, FlushLevel)>)
    requires
        flush_step(pre, qubits, level, post),
    ensures
        calls == qubits.map_values(|q: usize| (q, level)),
        flush_calls(pre, calls, post),
    decreases qubits.len(),
{
    let calls = qubits.map_values(|q: usize| (q, level));
    if qubits.len() > 0 {
        let mid = choose|mid: SimModel<A>|
            flush_step(pre, qubits.drop_last(), level, mid) && #[trigger] flush_one(
                mid,
                qubits.last(),
                level,
                post,
            );
        let rest = law_flush_each(pre, qubits.drop_last(), level, mid);
        lemma_just(mid, qubits.last(), level, post);
        lemma_more_calls(pre, rest, mid, qubits.last(), level, post);
        assert(calls =~= rest.push((qubits.last(), level)));
    }
    calls
}

proof fn lemma_just<A: Amplitude>(pre: SimModel<A>, q: usize, level: FlushLevel, post: SimModel<A>)
    requires
        flush_one(pre, q, level, post),
    ensures
        flush_step(pre, just(q), level, post),
{
    assert(just(q).drop_last() =~= Seq::<usize>::empty());
    assert(flush_step(pre, just(q).drop_last(), level, pre));
    assert(just(q).last() == q);
}

/// More calls after others.
proof fn lemma_more_calls<A: Amplitude>(
    pre: SimModel<A>,
    calls: Seq<(usize, FlushLevel)>,
    mid: SimModel<A>,
    q: usize,
    level: FlushLevel,
    post: SimModel<A>,
)
    requires
        flush_calls(pre, calls, mid),
        flush_step(mid, just(q), level, post),
    ensures
        flush_calls(pre, calls.push((q, level)), post),
{
    let all = calls.push((q, level));
    assert(all.drop_last() =~= calls);
    assert(flush_step(mid, just(all.last().0), all.last().1, post));
}

// ---------------------------------------------------------------------------
// Gates on one qubit
// ---------------------------------------------------------------------------

/// Whether the angle queued on the qubit, if there is one, became its opposite,
/// and those on other qubits stayed.
pub open spec fn turned_back<A: Amplitude>(
    pre: Map<usize, A::Real>,
    q: usize,
    post: Map<usize, A::Real>,
) -> bool {
    &&& post.dom() == pre.dom()
    &&& forall|r: usize| #[trigger]
        pre.contains_key(r) ==> if r == q {
            real_negated(pre[r], post[r])
        } else {
            post[r] == pre[r]
        }
}

proof fn lemma_turned_back<A: Amplitude>(
    pre: Map<usize, A::Real>,
    q: usize,
    post: Map<usize, A::Real>,
)
    requires
        angle_negated(pre, q, post),
    ensures
        turned_back::<A>(pre, q, post),
{
    if pre.contains_key(q) {
        let a = choose|a: A::Real| #[trigger] real_negated(pre[q], a) && post == pre.insert(q, a);
    }
    assert(post.dom() =~= pre.dom());
}

/// The X gate turns back a queued rotation about Y and nothing else, and does to
/// the state what X does, or Z if an H is queued.
pub proof fn law_x_carried<A: Amplitude>(pre: SimModel<A>, target: usize, post: SimModel<A>)
    requires
        x_step(pre, target, post),
    ensures
        post == (SimModel { state: post.state, ry: post.ry, ..pre }),
        turned_back::<A>(pre.ry, target, post.ry),
        if pre.h.contains(target as nat) {
            mcz_step(stripped(pre), no_controls(), target, bare(pre, post))
        } else {
            mcx_step(stripped(pre), no_controls(), target, bare(pre, post))
        },
{
    let mid = choose|mid: SimModel<A>| #[trigger]
        x_queue(pre, target, mid) && if pre.h.contains(target as nat) {
            phase_step(mid, no_controls(), target, PhaseGate::Z, post)
        } else {
            transform_step(mid, no_controls(), target, Transform::X, post)
        };
    let s = stripped(pre);
    lemma_turned_back::<A>(pre.ry, target, mid.ry);
    if pre.h.contains(target as nat) {
        lemma_lift_phase(mid, s, no_controls(), target, PhaseGate::Z, post);
        lemma_z_stripped(s, no_controls(), target, lifted(s, post));
    } else {
        assert(transform_step(s, no_controls(), target, Transform::X, lifted(s, post)));
        lemma_x_stripped(s, no_controls(), target, lifted(s, post));
    }
}

/// The Y gate turns back a queued rotation about X and nothing else, and does to
/// the state what Y does.
pub proof fn law_y_carried<A: Amplitude>(pre: SimModel<A>, target: usize, post: SimModel<A>)
    requires
        y_step(pre, target, post),
    ensures
        post == (SimModel { state: post.state, rx: post.rx, ..pre }),
        turned_back::<A>(pre.rx, target, post.rx),
        mcy_step(stripped(pre), no_controls(), target, bare(pre, post)),
{
    let mid = choose|mid: SimModel<A>| #[trigger]
        y_queue(pre, target, mid) && transform_step(mid, no_controls(), target, Transform::Y, post);
    let s = stripped(pre);
    lemma_turned_back::<A>(pre.rx, target, mid.rx);
    assert(transform_step(s, no_controls(), target, Transform::Y, lifted(s, post)));
    lemma_y_stripped(s, no_controls(), target, lifted(s, post));
}

/// The Z gate turns back queued rotations and nothing else, and does to the state
/// what Z does, or X if an H is queued.
pub proof fn law_z_carried<A: Amplitude>(pre: SimModel<A>, target: usize, post: SimModel<A>)
    requires
        z_step(pre, target, post),
    ensures
        post == (SimModel { state: post.state, rx: post.rx, ry: post.ry, ..pre }),
        turned_back::<A>(pre.rx, target, post.rx),
        turned_back::<A>(pre.ry, target, post.ry),
        if pre.h.contains(target as nat) {
            mcx_step(stripped(pre), no_controls(), target, bare(pre, post))
        } else {
            mcz_step(stripped(pre), no_controls(), target, bare(pre, post))
        },
{
    let mid = choose|mid: SimModel<A>| #[trigger]
        z_queue(pre, target, mid) && if pre.h.contains(target as nat) {
            transform_step(mid, no_controls(), target, Transform::X, post)
        } else {
            phase_step(mid, no_controls(), target, PhaseGate::Z, post)
        };
    let s = stripped(pre);
    lemma_turned_back::<A>(pre.rx, target, mid.rx);
    lemma_turned_back::<A>(pre.ry, target, mid.ry);
    if pre.h.contains(target as nat) {
        assert(transform_step(s, no_controls(), target, Transform::X, lifted(s, post)));
        lemma_x_stripped(s, no_controls(), target, lifted(s, post));
    } else {
        lemma_lift_phase(mid, s, no_controls(), target, PhaseGate::Z, post);
        lemma_z_stripped(s, no_controls(), target, lifted(s, post));
    }
}

/// The H gate turns back a queued rotation about Y, flushes one about X with what
/// is below it, and is then queued, or takes a queued one out.
pub proof fn law_h_carried<A: Amplitude>(
    pre: SimModel<A>,
    target: usize,
    post: SimModel<A>,
) -> (r: (SimModel<A>, SimModel<A>))
    requires
        h_step(pre, target, post),
    ensures
        r.0 == (SimModel { ry: r.0.ry, ..pre }),
        turned_back::<A>(pre.ry, target, r.0.ry),
        if pre.rx.contains_key(target) {
            flush_step(r.0, just(target), FlushLevel::HRx, r.1)
        } else {
            r.1 == r.0
        },
        post == (SimModel { h: post.h, ..r.1 }),
        forall|q: nat| #[trigger]
            post.h.contains(q) == (r.1.h.contains(q) != (q == target as nat)),
{
    let (a, b) = choose|a: SimModel<A>, b: SimModel<A>| #[trigger]
        x_queue(pre, target, a) && #[trigger] flush_if(
            a.rx.contains_key(target),
            a,
            just(target),
            FlushLevel::HRx,
            b,
        ) && post == (SimModel {
            h: with_bit(b.h, target as nat, !b.h.contains(target as nat)),
            ..b
        });
    lemma_turned_back::<A>(pre.ry, target, a.ry);
    (a, b)
}

/// The rotation about X flushes what is queued on its qubit and waits.
pub proof fn law_rx_waits<A: Amplitude>(
    pre: SimModel<A>,
    theta: A::Real,
    target: usize,
    post: SimModel<A>,
) -> (mid: SimModel<A>)
    requires
        rx_step(pre, theta, target, post),
    ensures
        flush_step(pre, just(target), FlushLevel::HRxRy, mid),
        post == (SimModel { rx: post.rx, ..mid }),
        forall|q: usize| #[trigger]
            post.rx.contains_key(q) == (q == target || mid.rx.contains_key(q)),
        forall|q: usize| #[trigger]
            post.rx.contains_key(q) ==> post.rx[q] == if q == target {
                theta
            } else {
                mid.rx[q]
            },
{
    choose|mid: SimModel<A>| #[trigger]
        flush_step(pre, just(target), FlushLevel::HRxRy, mid) && post == (SimModel {
            rx: mid.rx.insert(target, theta),
            ..mid
        })
}

/// The rotation about Y waits with the sum of its angle and a queued one, but for
/// the error of one operation, or none if that counts as zero. Nothing else
/// changes.
pub proof fn law_ry_waits<A: Amplitude>(
    rd: Reading<A>,
    e: real,
    d: real,
    pre: SimModel<A>,
    theta: A::Real,
    target: usize,
    post: SimModel<A>,
)
    requires
        rd.rounds(e, d),
        ry_step(pre, theta, target, post),
    ensures
        post == (SimModel { ry: post.ry, ..pre }),
        forall|q: usize|
            q != target ==> #[trigger] post.ry.contains_key(q) == pre.ry.contains_key(q),
        forall|q: usize| q != target && #[trigger] pre.ry.contains_key(q) ==> post.ry[q]
            == pre.ry[q],
        !pre.ry.contains_key(target) ==> post.ry.contains_key(target) && post.ry[target] == theta,
        pre.ry.contains_key(target) ==> {
            let sum = rd.val(pre.ry[target]) + rd.val(theta);
            if post.ry.contains_key(target) {
                size(rd.val(post.ry[target]) - sum) <= e * size(sum)
            } else {
                size(sum) <= e * size(sum) + d
            }
        },
{
    if pre.ry.contains_key(target) {
        let angle = choose|angle: A::Real| #[trigger]
            real_sum(pre.ry[target], theta, angle) && {
                ||| real_nearly_zero(angle, true) && post.ry == pre.ry.remove(target)
                ||| real_nearly_zero(angle, false) && post.ry == pre.ry.insert(
                    target,
                    angle,
                )
            };
    }
}

// ---------------------------------------------------------------------------
// Gates under controls
// ---------------------------------------------------------------------------

/// Whether the calls are for the qubits of a gate.
pub open spec fn calls_for(
    calls: Seq<(usize, FlushLevel)>,
    ctls: Seq<usize>,
    target: usize,
) -> bool {
    forall|i: int| 0 <= i < calls.len() ==> ctls.contains((#[trigger] calls[i]).0) || calls[i].0
        == target
}

/// Whether nothing is queued on any of the qubits.
pub open spec fn all_idle<A: Amplitude>(s: SimModel<A>, qubits: Seq<usize>) -> bool {
    forall|i: int| 0 <= i < qubits.len() ==> s.nothing_queued(#[trigger] qubits[i])
}

/// The calls that flush the controls.
proof fn lemma_control_calls<A: Amplitude>(
    pre: SimModel<A>,
    ctls: Seq<usize>,
    target: usize,
    mid: SimModel<A>,
) -> (calls: Seq<(usize, FlushLevel)>)
    requires
        flush_step(pre, ctls, FlushLevel::HRxRy, mid),
    ensures
        flush_calls(pre, calls, mid),
        calls_for(calls, ctls, target),
        all_idle(mid, ctls),
{
    let calls = law_flush_each(pre, ctls, FlushLevel::HRxRy, mid);
    law_flush_empties_queues(pre, ctls, mid);
    assert forall|i: int| 0 <= i < calls.len() implies ctls.contains((#[trigger] calls[i]).0) by {
        assert(calls[i].0 == ctls[i]);
    }
    calls
}

/// One call more, for the target.
proof fn lemma_target_call<A: Amplitude>(
    pre: SimModel<A>,
    calls: Seq<(usize, FlushLevel)>,
    ctls: Seq<usize>,
    target: usize,
    mid: SimModel<A>,
    level: FlushLevel,
    needed: bool,
    post: SimModel<A>,
) -> (more: Seq<(usize, FlushLevel)>)
    requires
        flush_calls(pre, calls, mid),
        calls_for(calls, ctls, target),
        flush_if(needed, mid, just(target), level, post),
    ensures
        flush_calls(pre, more, post),
        calls_for(more, ctls, target),
        forall|q: usize| #[trigger] mid.nothing_queued(q) ==> post.nothing_queued(q),
        needed ==> !post.h.contains(target as nat),
        needed && !(level is H) ==> !post.rx.contains_key(target),
        needed && level is HRxRy ==> !post.ry.contains_key(target),
        forall|q: usize|
            q != target ==> (#[trigger] post.h.contains(q as nat)) == mid.h.contains(q as nat),
        forall|q: usize|
            q != target ==> (#[trigger] post.rotation_queued(q)) == mid.rotation_queued(q),
        !needed ==> post == mid,
{
    if needed {
        let more = calls.push((target, level));
        lemma_more_calls(pre, calls, mid, target, level, post);
        let (a, b) = law_flush_is_gates(mid, target, level, post);
        assert forall|i: int| 0 <= i < more.len() implies ctls.contains((#[trigger] more[i]).0)
            || more[i].0 == target by {
            if i < calls.len() {
                assert(more[i] == calls[i]);
            }
        }
        more
    } else {
        calls
    }
}

/// The X gate under controls: after some calls that flush its qubits, no rotation
/// about Y is queued on the target. Nothing is queued on the controls, or there is
/// one and an H is all that is queued on it while one is queued on the target
/// too. It then does to the state what X does; with an H on the target what
/// Z does; with an H on both what X does from the target to the control. Nothing
/// else changes.
pub proof fn law_mcx_carried<A: Amplitude>(
    pre: SimModel<A>,
    ctls: Seq<usize>,
    target: usize,
    post: SimModel<A>,
) -> (r: (SimModel<A>, Seq<(usize, FlushLevel)>))
    requires
        ctls.len() > 0,
        !ctls.contains(target),
        mcx_step(pre, ctls, target, post),
    ensures
        flush_calls(pre, r.1, r.0),
        calls_for(r.1, ctls, target),
        post == (SimModel { state: post.state, ..r.0 }),
        !r.0.ry.contains_key(target),
        ({
            let over = r.0.h.contains(target as nat);
            let both = over && ctls.len() == 1 && r.0.h.contains(ctls[0] as nat);
            &&& both ==> !r.0.rotation_queued(ctls[0]) && mcx_step(
                stripped(r.0),
                just(target),
                ctls[0],
                bare(r.0, post),
            )
            &&& !both ==> all_idle(r.0, ctls)
            &&& !both && over ==> mcz_step(stripped(r.0), ctls, target, bare(r.0, post))
            &&& !over ==> mcx_step(stripped(r.0), ctls, target, bare(r.0, post))
        }),
{
    let (a, b) = choose|a: SimModel<A>, b: SimModel<A>| #[trigger]
        flush_if(x_flushes_controls(pre, ctls, target), pre, ctls, FlushLevel::HRxRy, a)
            && #[trigger] flush_if(
            a.ry.contains_key(target),
            a,
            just(target),
            FlushLevel::HRxRy,
            b,
        ) && x_past_h(b, ctls, target, post);
    let calls = if x_flushes_controls(pre, ctls, target) {
        lemma_control_calls(pre, ctls, target, a)
    } else {
        Seq::empty()
    };
    let needed = a.ry.contains_key(target);
    let more = lemma_target_call(pre, calls, ctls, target, a, FlushLevel::HRxRy, needed, b);
    assert(ctls.contains(ctls[0]));
    if x_flushes_controls(pre, ctls, target) {
        assert forall|i: int| 0 <= i < ctls.len() implies b.nothing_queued(#[trigger] ctls[i]) by {
            assert(a.nothing_queued(ctls[i]));
        }
        assert(b.nothing_queued(ctls[0]));
    } else {
        assert(ctls.len() == 1);
        assert(b.rotation_queued(ctls[0]) == a.rotation_queued(ctls[0]));
        assert(b.h.contains(ctls[0] as nat) == a.h.contains(ctls[0] as nat));
        if !(a.h.contains(ctls[0] as nat)) {
            assert(b.nothing_queued(ctls[0]));
        }
    }
    let s = stripped(b);
    if !b.h.contains(target as nat) {
        assert(transform_step(s, ctls, target, Transform::X, lifted(s, post)));
        lemma_x_stripped(s, ctls, target, lifted(s, post));
    } else if ctls.len() == 1 && b.h.contains(ctls[0] as nat) {
        assert(transform_step(s, just(target), ctls[0], Transform::X, lifted(s, post)));
        lemma_x_stripped(s, just(target), ctls[0], lifted(s, post));
    } else {
        lemma_lift_phase(b, s, ctls, target, PhaseGate::Z, post);
        lemma_z_stripped(s, ctls, target, lifted(s, post));
    }
    (b, more)
}

/// The Y gate under controls: after some calls that flush its qubits, nothing is
/// queued on the controls, and no rotation about X on the target. It then
/// does to the state what Y does; with an H on the target what Z does on the
/// controls, and then Y. Nothing else changes.
pub proof fn law_mcy_carried<A: Amplitude>(
    pre: SimModel<A>,
    ctls: Seq<usize>,
    target: usize,
    post: SimModel<A>,
) -> (r: (SimModel<A>, Seq<(usize, FlushLevel)>, SimModel<A>))
    requires
        ctls.len() > 0,
        !ctls.contains(target),
        mcy_step(pre, ctls, target, post),
    ensures
        flush_calls(pre, r.1, r.0),
        calls_for(r.1, ctls, target),
        post == (SimModel { state: post.state, ..r.0 }),
        all_idle(r.0, ctls),
        !r.0.rx.contains_key(target),
        if r.0.h.contains(target as nat) {
            mcz_step(stripped(r.0), ctls.drop_first(), ctls[0], r.2)
        } else {
            r.2 == stripped(r.0)
        },
        mcy_step(r.2, ctls, target, bare(r.0, post)),
{
    let (a, b, c) = choose|a: SimModel<A>, b: SimModel<A>, c: SimModel<A>| #[trigger]
        flush_step(pre, ctls, FlushLevel::HRxRy, a) && #[trigger] flush_if(
            a.rx.contains_key(target),
            a,
            just(target),
            FlushLevel::HRx,
            b,
        ) && #[trigger] y_sign(b, ctls, target, c) && transform_step(
            c,
            ctls,
            target,
            Transform::Y,
            post,
        );
    let calls = lemma_control_calls(pre, ctls, target, a);
    let needed = a.rx.contains_key(target);
    let more = lemma_target_call(pre, calls, ctls, target, a, FlushLevel::HRx, needed, b);
    assert forall|i: int| 0 <= i < ctls.len() implies b.nothing_queued(#[trigger] ctls[i]) by {
        assert(a.nothing_queued(ctls[i]));
    }
    let s = stripped(b);
    let w = lifted(s, c);
    if b.h.contains(target as nat) {
        lemma_lift_phase(b, s, ctls.drop_first(), ctls[0], PhaseGate::Z, c);
        lemma_z_stripped(s, ctls.drop_first(), ctls[0], w);
    }
    assert(transform_step(w, ctls, target, Transform::Y, lifted(s, post)));
    lemma_y_stripped(w, ctls, target, lifted(s, post));
    (b, more, w)
}

/// The Z gate under controls: if an H on one of its qubits is all that is queued
/// on them, it does to the state what X does with that qubit as its target.
/// Else its qubits are flushed, and it does what Z does. Nothing else changes.
pub proof fn law_mcz_carried<A: Amplitude>(
    pre: SimModel<A>,
    ctls: Seq<usize>,
    target: usize,
    post: SimModel<A>,
) -> (r: (SimModel<A>, Seq<(usize, FlushLevel)>, int))
    requires
        ctls.len() > 0,
        mcz_step(pre, ctls, target, post),
    ensures
        flush_calls(pre, r.1, r.0),
        calls_for(r.1, ctls, target),
        post == (SimModel { state: post.state, ..r.0 }),
        ({
            let qubits = ctls.push(target);
            if only_h_at(r.0, qubits, r.2) {
                mcx_step(
                    stripped(r.0),
                    controls_without(ctls, target, r.2),
                    qubits[r.2],
                    bare(r.0, post),
                )
            } else {
                idle(r.0, ctls, target) && mcz_step(stripped(r.0), ctls, target, bare(r.0, post))
            }
        }),
{
    let qubits = ctls.push(target);
    if exists|i: int| #[trigger] only_h_at(pre, qubits, i) {
        let i = choose|i: int| #[trigger]
            only_h_at(pre, qubits, i) && transform_step(
                pre,
                controls_without(ctls, target, i),
                qubits[i],
                Transform::X,
                post,
            );
        let s = stripped(pre);
        let others = controls_without(ctls, target, i);
        assert(transform_step(s, others, qubits[i], Transform::X, lifted(s, post)));
        lemma_x_stripped(s, others, qubits[i], lifted(s, post));
        (pre, Seq::empty(), i)
    } else {
        let mid = choose|mid: SimModel<A>| #[trigger]
            flush_all(pre, ctls, target, mid) && phase_step(mid, ctls, target, PhaseGate::Z, post);
        let calls = lemma_all_calls(pre, ctls, target, mid);
        let s = stripped(mid);
        lemma_lift_phase(mid, s, ctls, target, PhaseGate::Z, post);
        lemma_z_stripped(s, ctls, target, lifted(s, post));
        assert(!only_h_at(mid, qubits, 0)) by {
            assert(mid.nothing_queued(qubits[0]));
        }
        (mid, calls, 0)
    }
}

/// The calls that flush all qubits of a gate.
proof fn lemma_all_calls<A: Amplitude>(
    pre: SimModel<A>,
    ctls: Seq<usize>,
    target: usize,
    post: SimModel<A>,
) -> (calls: Seq<(usize, FlushLevel)>)
    requires
        flush_all(pre, ctls, target, post),
    ensures
        flush_calls(pre, calls, post),
        calls_for(calls, ctls, target),
        idle(post, ctls, target),
{
    let mid = choose|mid: SimModel<A>| #[trigger]
        flush_step(pre, ctls, FlushLevel::HRxRy, mid) && flush_step(
            mid,
            just(target),
            FlushLevel::HRxRy,
            post,
        );
    let calls = lemma_control_calls(pre, ctls, target, mid);
    let more = lemma_target_call(pre, calls, ctls, target, mid, FlushLevel::HRxRy, true, post);
    assert forall|i: int| 0 <= i < ctls.len() + 1 implies post.nothing_queued(
        #[trigger] ctls.push(target)[i],
    ) by {
        if i < ctls.len() {
            assert(ctls.push(target)[i] == ctls[i]);
            assert(mid.nothing_queued(ctls[i]));
        }
    }
    more
}

/// A phase gate with a name flushes its qubits, and does to the state what it does
/// where nothing is queued.
pub proof fn law_named_phase_carried<A: Amplitude>(
    pre: SimModel<A>,
    ctls: Seq<usize>,
    target: usize,
    gate: PhaseGate,
    post: SimModel<A>,
) -> (r: (SimModel<A>, Seq<(usize, FlushLevel)>))
    requires
        flushed_phase_step(pre, ctls, target, gate, post),
    ensures
        flush_calls(pre, r.1, r.0),
        calls_for(r.1, ctls, target),
        idle(r.0, ctls, target),
        post == (SimModel { state: post.state, ..r.0 }),
        flushed_phase_step(stripped(r.0), ctls, target, gate, bare(r.0, post)),
{
    let mid = choose|mid: SimModel<A>| #[trigger]
        flush_all(pre, ctls, target, mid) && phase_step(mid, ctls, target, gate, post);
    let calls = lemma_all_calls(pre, ctls, target, mid);
    let s = stripped(mid);
    lemma_lift_phase(mid, s, ctls, target, gate, post);
    lemma_flush_all_stripped(s, ctls, target);
    (mid, calls)
}

/// A phase gate or a rotation about Z flushes its qubits, and does to the state
/// what it does where nothing is queued.
pub proof fn law_other_carried<A: Amplitude>(
    pre: SimModel<A>,
    ctls: Seq<usize>,
    target: usize,
    gate: Transform<A>,
    post: SimModel<A>,
) -> (r: (SimModel<A>, Seq<(usize, FlushLevel)>))
    requires
        flushed_transform_step(pre, ctls, target, gate, post),
    ensures
        flush_calls(pre, r.1, r.0),
        calls_for(r.1, ctls, target),
        idle(r.0, ctls, target),
        post == (SimModel { state: post.state, ..r.0 }),
        flushed_transform_step(stripped(r.0), ctls, target, gate, bare(r.0, post)),
{
    let mid = choose|mid: SimModel<A>| #[trigger]
        flush_all(pre, ctls, target, mid) && transform_step(mid, ctls, target, gate, post);
    let calls = lemma_all_calls(pre, ctls, target, mid);
    let s = stripped(mid);
    assert(transform_step(s, ctls, target, gate, lifted(s, post)));
    lemma_flush_all_stripped(s, ctls, target);
    (mid, calls)
}

/// The H gate under controls: after some calls that flush its qubits, nothing is
/// queued on the controls, and no rotation on the target. It then does to
/// the state what it does where nothing is queued. Nothing else changes.
pub proof fn law_mch_carried<A: Amplitude>(
    pre: SimModel<A>,
    ctls: Seq<usize>,
    target: usize,
    post: SimModel<A>,
) -> (r: (SimModel<A>, Seq<(usize, FlushLevel)>))
    requires
        mch_step(pre, ctls, target, post),
    ensures
        flush_calls(pre, r.1, r.0),
        calls_for(r.1, ctls, target),
        all_idle(r.0, ctls),
        !r.0.rotation_queued(target),
        post == (SimModel { state: post.state, ..r.0 }),
        mch_step(stripped(r.0), ctls, target, bare(r.0, post)),
{
    let (a, b) = choose|a: SimModel<A>, b: SimModel<A>| #[trigger]
        flush_step(pre, ctls, FlushLevel::HRxRy, a) && #[trigger] flush_if(
            a.rotation_queued(target),
            a,
            just(target),
            FlushLevel::HRxRy,
            b,
        ) && hadamard_step(b, ctls, target, post);
    let calls = lemma_control_calls(pre, ctls, target, a);
    let needed = a.rotation_queued(target);
    let more = lemma_target_call(pre, calls, ctls, target, a, FlushLevel::HRxRy, needed, b);
    assert forall|i: int| 0 <= i < ctls.len() implies b.nothing_queued(#[trigger] ctls[i]) by {
        assert(a.nothing_queued(ctls[i]));
    }
    let s = stripped(b);
    lemma_lift_hadamard(b, s, ctls, target, post);
    lemma_h_stripped(s, ctls, target, lifted(s, post));
    (b, more)
}

/// A rotation under controls: after some calls that flush its qubits, nothing is
/// queued on the controls, and on the target nothing but a rotation about the same
/// axis. It then does to the state what it does where nothing is queued.
/// Nothing else changes.
pub proof fn law_turn_carried<A: Amplitude>(
    pre: SimModel<A>,
    ctls: Seq<usize>,
    theta: A::Real,
    target: usize,
    about_y: bool,
    post: SimModel<A>,
) -> (r: (SimModel<A>, Seq<(usize, FlushLevel)>))
    requires
        about_y ==> mcry_step(pre, ctls, theta, target, post),
        !about_y ==> mcrx_step(pre, ctls, theta, target, post),
    ensures
        flush_calls(pre, r.1, r.0),
        calls_for(r.1, ctls, target),
        all_idle(r.0, ctls),
        !r.0.h.contains(target as nat),
        about_y ==> !r.0.rx.contains_key(target),
        !about_y ==> !r.0.ry.contains_key(target),
        post == (SimModel { state: post.state, ..r.0 }),
        about_y ==> mcry_step(stripped(r.0), ctls, theta, target, bare(r.0, post)),
        !about_y ==> mcrx_step(stripped(r.0), ctls, theta, target, bare(r.0, post)),
{
    let (a, b) = if about_y {
        choose|a: SimModel<A>, b: SimModel<A>| #[trigger]
            flush_step(pre, ctls, FlushLevel::HRxRy, a) && #[trigger] flush_target(
                a.rx.contains_key(target),
                FlushLevel::HRx,
                a,
                target,
                b,
            ) && rotation_step(b, ctls, theta, target, true, post)
    } else {
        choose|a: SimModel<A>, b: SimModel<A>| #[trigger]
            flush_step(pre, ctls, FlushLevel::HRxRy, a) && #[trigger] flush_target(
                a.ry.contains_key(target),
                FlushLevel::HRxRy,
                a,
                target,
                b,
            ) && rotation_step(b, ctls, theta, target, false, post)
    };
    let calls = lemma_control_calls(pre, ctls, target, a);
    let turn = if about_y {
        a.rx.contains_key(target)
    } else {
        a.ry.contains_key(target)
    };
    let level = if turn {
        if about_y {
            FlushLevel::HRx
        } else {
            FlushLevel::HRxRy
        }
    } else {
        FlushLevel::H
    };
    let needed = turn || a.h.contains(target as nat);
    let more = lemma_target_call(pre, calls, ctls, target, a, level, needed, b);
    if !turn && needed {
        let (x, y) = law_flush_is_gates(a, target, FlushLevel::H, b);
    }
    assert forall|i: int| 0 <= i < ctls.len() implies b.nothing_queued(#[trigger] ctls[i]) by {
        assert(a.nothing_queued(ctls[i]));
    }
    let s = stripped(b);
    lemma_lift_rotation(b, s, ctls, theta, target, about_y, post);
    lemma_turn_stripped(s, ctls, theta, target, about_y, lifted(s, post));
    (b, more)
}

} // verus!
