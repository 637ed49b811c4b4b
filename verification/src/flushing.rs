//! What the steps of the simulator leave in the queues.
use crate::arith::{real_frac_1_sqrt_2, Amplitude};
use crate::model::{FlushLevel, Mix, SimModel};
use crate::sim::{lemma_mix_wf, lemma_transform_wf};
use crate::steps::{
    flush_h_step, flush_one, flush_rx_step, flush_ry_step, flush_step, hadamard_step,
    half_turn_gate, half_turn_step, just, mix_step, no_controls, rotation_diagonal, rotation_lower,
    rotation_step,
};
use vstd::prelude::*;

verus! {

/// What is queued on the qubit is the same in both.
pub open spec fn same_queue<A: Amplitude>(a: SimModel<A>, b: SimModel<A>, q: usize) -> bool {
    &&& a.h.contains(q as nat) == b.h.contains(q as nat)
    &&& a.rx.contains_key(q) == b.rx.contains_key(q)
    &&& a.rx.contains_key(q) ==> a.rx[q] == b.rx[q]
    &&& a.ry.contains_key(q) == b.ry.contains_key(q)
    &&& a.ry.contains_key(q) ==> a.ry[q] == b.ry[q]
}

/// A rotation past whatever is queued changes nothing but the state.
pub(crate) proof fn lemma_rotation_keeps<A: Amplitude>(
    pre: SimModel<A>,
    ctls: Seq<usize>,
    theta: A::Real,
    q: usize,
    about_y: bool,
    post: SimModel<A>,
)
    requires
        rotation_step(pre, ctls, theta, q, about_y, post),
    ensures
        post == (SimModel { state: post.state, ..pre }),
{
}

/// Flushing the H of one qubit leaves what is queued on the others.
pub(crate) proof fn lemma_flush_h_keeps<A: Amplitude>(pre: SimModel<A>, q: usize, post: SimModel<A>)
    requires
        flush_h_step(pre, q, post),
    ensures
        post.ids == pre.ids,
        !post.h.contains(q as nat),
        post.rx == pre.rx,
        post.ry == pre.ry,
        forall|p: usize| p != q ==> #[trigger] same_queue(pre, post, p),
{
}

/// Flushing the rotation about X of one qubit leaves what is queued on the others.
pub(crate) proof fn lemma_flush_rx_keeps<A: Amplitude>(
    pre: SimModel<A>,
    q: usize,
    post: SimModel<A>,
)
    requires
        flush_rx_step(pre, q, post),
    ensures
        post.ids == pre.ids,
        post.h == pre.h,
        post.rx.dom() == pre.rx.dom().remove(q),
        post.ry.dom() == pre.ry.dom(),
        forall|p: usize| p != q ==> #[trigger] same_queue(pre, post, p),
{
    if pre.rx.contains_key(q) {
        let mid = choose|mid: SimModel<A>| #[trigger]
            rotation_step(pre, no_controls(), pre.rx[q], q, false, mid) && post == (SimModel {
                rx: mid.rx.remove(q),
                ..mid
            });
        lemma_rotation_keeps(pre, no_controls(), pre.rx[q], q, false, mid);
        assert forall|p: usize| p != q implies #[trigger] same_queue(pre, post, p) by {
            assert(same_queue(pre, mid, p));
        }
    } else {
        assert(pre.rx.dom().remove(q) =~= pre.rx.dom());
    }
}

/// Flushing the rotation about Y of one qubit leaves what is queued on the others.
pub(crate) proof fn lemma_flush_ry_keeps<A: Amplitude>(
    pre: SimModel<A>,
    q: usize,
    post: SimModel<A>,
)
    requires
        flush_ry_step(pre, q, post),
    ensures
        post.ids == pre.ids,
        post.h == pre.h,
        post.rx.dom() == pre.rx.dom(),
        post.ry.dom() == pre.ry.dom().remove(q),
        forall|p: usize| p != q ==> #[trigger] same_queue(pre, post, p),
{
    if pre.ry.contains_key(q) {
        let mid = choose|mid: SimModel<A>| #[trigger]
            rotation_step(pre, no_controls(), pre.ry[q], q, true, mid) && post == (SimModel {
                ry: mid.ry.remove(q),
                ..mid
            });
        lemma_rotation_keeps(pre, no_controls(), pre.ry[q], q, true, mid);
        assert forall|p: usize| p != q implies #[trigger] same_queue(pre, post, p) by {
            assert(same_queue(pre, mid, p));
        }
    } else {
        assert(pre.ry.dom().remove(q) =~= pre.ry.dom());
    }
}

/// Flushing one qubit leaves what is queued on the others, and nothing queued
/// up to the level.
pub(crate) proof fn lemma_flush_one_keeps<A: Amplitude>(
    pre: SimModel<A>,
    q: usize,
    level: FlushLevel,
    post: SimModel<A>,
)
    requires
        flush_one(pre, q, level, post),
    ensures
        post.ids == pre.ids,
        !post.h.contains(q as nat),
        level != FlushLevel::H ==> !post.rx.contains_key(q),
        level == FlushLevel::HRxRy ==> !post.ry.contains_key(q),
        level == FlushLevel::H ==> post.rx == pre.rx && post.ry == pre.ry,
        level == FlushLevel::HRx ==> post.ry.dom() == pre.ry.dom(),
        post.rx.dom().subset_of(pre.rx.dom()),
        post.ry.dom().subset_of(pre.ry.dom()),
        forall|p: usize| p != q ==> #[trigger] same_queue(pre, post, p),
{
    match level {
        FlushLevel::H => {
            lemma_flush_h_keeps(pre, q, post);
        },
        FlushLevel::HRx => {
            let a = choose|a: SimModel<A>| #[trigger]
                flush_h_step(pre, q, a) && flush_rx_step(a, q, post);
            lemma_flush_h_keeps(pre, q, a);
            lemma_flush_rx_keeps(a, q, post);
            assert forall|p: usize| p != q implies #[trigger] same_queue(pre, post, p) by {
                assert(same_queue(pre, a, p) && same_queue(a, post, p));
            }
        },
        FlushLevel::HRxRy => {
            let (a, b) = choose|a: SimModel<A>, b: SimModel<A>| #[trigger]
                flush_h_step(pre, q, a) && #[trigger] flush_rx_step(a, q, b) && flush_ry_step(
                    b,
                    q,
                    post,
                );
            lemma_flush_h_keeps(pre, q, a);
            lemma_flush_rx_keeps(a, q, b);
            lemma_flush_ry_keeps(b, q, post);
            assert forall|p: usize| p != q implies #[trigger] same_queue(pre, post, p) by {
                assert(same_queue(pre, a, p) && same_queue(a, b, p) && same_queue(b, post, p));
            }
        },
    }
}

/// Flushing leaves nothing queued on the flushed qubits, and leaves the other
/// qubits, where they are and what is queued on them as they were.
pub proof fn law_flush_empties_queues<A: Amplitude>(
    pre: SimModel<A>,
    qubits: Seq<usize>,
    post: SimModel<A>,
)
    requires
        flush_step(pre, qubits, FlushLevel::HRxRy, post),
    ensures
        post.ids == pre.ids,
        forall|i: int| 0 <= i < qubits.len() ==> post.nothing_queued(#[trigger] qubits[i]),
        forall|p: usize| !qubits.contains(p) ==> #[trigger] same_queue(pre, post, p),
    decreases qubits.len(),
{
    if qubits.len() > 0 {
        let rest = qubits.drop_last();
        let q = qubits.last();
        let mid = choose|mid: SimModel<A>|
            flush_step(pre, rest, FlushLevel::HRxRy, mid) && #[trigger] flush_one(
                mid,
                q,
                FlushLevel::HRxRy,
                post,
            );
        law_flush_empties_queues(pre, rest, mid);
        lemma_flush_one_keeps(mid, q, FlushLevel::HRxRy, post);
        assert forall|i: int| 0 <= i < qubits.len() implies post.nothing_queued(
            #[trigger] qubits[i],
        ) by {
            if qubits[i] != q {
                assert(rest[i] == qubits[i]);
                assert(mid.nothing_queued(rest[i]));
                assert(same_queue(mid, post, qubits[i]));
            }
        }
        assert forall|p: usize| !qubits.contains(p) implies #[trigger] same_queue(pre, post, p) by {
            assert(qubits[qubits.len() - 1] == q);
            assert(!rest.contains(p)) by {
                if rest.contains(p) {
                    let i = choose|i: int| 0 <= i < rest.len() && rest[i] == p;
                    assert(qubits[i] == p);
                }
            }
            assert(same_queue(pre, mid, p) && same_queue(mid, post, p));
        }
    }
}

/// See [`law_flush_empties_queues`], for a single qubit.
pub(crate) proof fn lemma_flush_just<A: Amplitude>(pre: SimModel<A>, q: usize, post: SimModel<A>)
    requires
        flush_step(pre, just(q), FlushLevel::HRxRy, post),
    ensures
        post.ids == pre.ids,
        post.nothing_queued(q),
        forall|p: usize| p != q ==> #[trigger] same_queue(pre, post, p),
{
    law_flush_empties_queues(pre, just(q), post);
    assert(just(q)[0] == q);
}

/// Flushing qubits on which nothing is queued changes nothing.
pub(crate) proof fn lemma_flush_nothing<A: Amplitude>(
    pre: SimModel<A>,
    qubits: Seq<usize>,
    level: FlushLevel,
    post: SimModel<A>,
)
    requires
        flush_step(pre, qubits, level, post),
        forall|i: int| 0 <= i < qubits.len() ==> pre.nothing_queued(#[trigger] qubits[i]),
    ensures
        post == pre,
    decreases qubits.len(),
{
    if qubits.len() > 0 {
        let rest = qubits.drop_last();
        let q = qubits.last();
        let mid = choose|mid: SimModel<A>|
            flush_step(pre, rest, level, mid) && #[trigger] flush_one(mid, q, level, post);
        assert forall|i: int| 0 <= i < rest.len() implies pre.nothing_queued(
            #[trigger] rest[i],
        ) by {
            assert(qubits[i] == rest[i]);
        }
        lemma_flush_nothing(pre, rest, level, mid);
        assert(pre.nothing_queued(qubits[qubits.len() - 1]));
    }
}

/// A rotation of one qubit keeps the simulation well-formed.
proof fn lemma_rotation_wf<A: Amplitude>(
    pre: SimModel<A>,
    theta: A::Real,
    q: usize,
    about_y: bool,
    post: SimModel<A>,
)
    requires
        pre.wf(),
        pre.ids.contains_key(q),
        rotation_step(pre, no_controls(), theta, q, about_y, post),
    ensures
        post.wf(),
{
    let gate = half_turn_gate::<A>(about_y);
    if half_turn_step(pre, no_controls(), theta, q, about_y, post) {
        lemma_transform_wf(pre, no_controls(), q, gate, post);
    } else if post != pre {
        let (m00, m01, m10) = choose|m00: A, m01: A, m10: A| #[trigger]
            rotation_diagonal(theta, m00) && #[trigger] rotation_lower(about_y, m01, m10)
                && mix_step(pre, no_controls(), q, Mix::Rotation { m00, m01, m10 }, post);
        lemma_mix_wf(pre, no_controls(), q, Mix::Rotation { m00, m01, m10 }, post);
    }
}

/// Flushing keeps the simulation well-formed.
pub proof fn law_flush_keeps_wf<A: Amplitude>(
    pre: SimModel<A>,
    qubits: Seq<usize>,
    level: FlushLevel,
    post: SimModel<A>,
)
    requires
        pre.wf(),
        pre.allocated(qubits),
        flush_step(pre, qubits, level, post),
    ensures
        post.wf(),
        post.ids == pre.ids,
    decreases qubits.len(),
{
    if qubits.len() > 0 {
        let rest = qubits.drop_last();
        let q = qubits.last();
        let mid = choose|mid: SimModel<A>|
            flush_step(pre, rest, level, mid) && #[trigger] flush_one(mid, q, level, post);
        assert(qubits[qubits.len() - 1] == q);
        assert forall|i: int| 0 <= i < rest.len() implies pre.ids.contains_key(
            #[trigger] rest[i],
        ) by {
            assert(rest[i] == qubits[i]);
        }
        law_flush_keeps_wf(pre, rest, level, mid);
        lemma_flush_one_wf(mid, q, level, post);
    }
}

/// Flushing one qubit keeps the simulation well-formed.
proof fn lemma_flush_one_wf<A: Amplitude>(
    pre: SimModel<A>,
    q: usize,
    level: FlushLevel,
    post: SimModel<A>,
)
    requires
        pre.wf(),
        pre.ids.contains_key(q),
        flush_one(pre, q, level, post),
    ensures
        post.wf(),
        post.ids == pre.ids,
{
    lemma_flush_one_keeps(pre, q, level, post);
    let a = choose|a: SimModel<A>| #[trigger]
        flush_h_step(pre, q, a) && match level {
            FlushLevel::H => a == post,
            FlushLevel::HRx => flush_rx_step(a, q, post),
            FlushLevel::HRxRy => exists|b: SimModel<A>| #[trigger]
                flush_rx_step(a, q, b) && flush_ry_step(b, q, post),
        };
    assert(flush_h_step(pre, q, a));
    if pre.h.contains(q as nat) {
        let mid = choose|mid: SimModel<A>| #[trigger]
            hadamard_step(pre, no_controls(), q, mid) && a == (SimModel {
                h: mid.h.remove(q as nat),
                ..mid
            });
        let f = choose|f: A::Real| #[trigger]
            real_frac_1_sqrt_2(f) && mix_step(pre, no_controls(), q, Mix::Hadamard(f), mid);
        lemma_mix_wf(pre, no_controls(), q, Mix::Hadamard(f), mid);
    }
    if level == FlushLevel::HRx {
        lemma_flush_rx_wf(a, q, post);
    } else if level == FlushLevel::HRxRy {
        let b = choose|b: SimModel<A>| #[trigger]
            flush_rx_step(a, q, b) && flush_ry_step(b, q, post);
        lemma_flush_rx_wf(a, q, b);
        if b.ry.contains_key(q) {
            let mid = choose|mid: SimModel<A>| #[trigger]
                rotation_step(b, no_controls(), b.ry[q], q, true, mid) && post == (SimModel {
                    ry: mid.ry.remove(q),
                    ..mid
                });
            lemma_rotation_wf(b, b.ry[q], q, true, mid);
            lemma_rotation_keeps(b, no_controls(), b.ry[q], q, true, mid);
        }
    }
}

proof fn lemma_flush_rx_wf<A: Amplitude>(pre: SimModel<A>, q: usize, post: SimModel<A>)
    requires
        pre.wf(),
        pre.ids.contains_key(q),
        flush_rx_step(pre, q, post),
    ensures
        post.wf(),
        post.ids == pre.ids,
{
    if pre.rx.contains_key(q) {
        let mid = choose|mid: SimModel<A>| #[trigger]
            rotation_step(pre, no_controls(), pre.rx[q], q, false, mid) && post == (SimModel {
                rx: mid.rx.remove(q),
                ..mid
            });
        lemma_rotation_wf(pre, pre.rx[q], q, false, mid);
        lemma_rotation_keeps(pre, no_controls(), pre.rx[q], q, false, mid);
    }
}

} // verus!
