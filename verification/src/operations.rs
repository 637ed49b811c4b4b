//! All operations of the simulator in one place, and what holds after any run of
//! them.
use crate::applied::nothing_applied;
use crate::arith::Amplitude;
use crate::bits::with_bit;
use crate::dump::in_order;
use crate::exact::{times_units, Cx};
use crate::fxmap::enumerates;
use crate::matrix::{same_up_to_phase, times_vector};
use crate::model::{locations, FlushLevel, SimModel, Transform};
use crate::reading::Reading;
use crate::restoring::law_state_restored;
use crate::sparsity::{
    law_collapse_leaves_no_zeros, law_flush_makes_no_zeros, law_hadamard_makes_no_zeros,
    law_moves_make_no_zeros, law_rotation_makes_no_zeros, lemma_phase, lemma_transform, no_zeros,
    times_nonzero,
};
use crate::steps::{
    allocate_step, both, cleared, controls_without, dump_step, flush_all, flush_if, flush_step,
    flush_target, flushed_phase_step, flushed_transform_step, h_step, hadamard_step, has_amplitude,
    just, mch_step, mcrx_step, mcry_step, mcx_step, mcy_step, mcz_step, measure_step, measured,
    no_controls, ones, only_h_at, phase_step, release_step, rotation_step, rx_step, ry_step,
    same_for_qubits, started, state_exchanged, swap_ids_step, swap_state_step, transform_step,
    x_flushes_controls, x_past_h, x_queue, y_queue, y_sign, z_queue, PhaseGate,
};
use vstd::prelude::*;

verus! {

/// An operation of the simulator, with its arguments and results. Gates without
/// controls have the empty list of controls.
pub enum Operation<A: Amplitude> {
    /// A qubit is allocated under the identifier.
    Allocate(usize),
    /// A qubit is released.
    Release(usize, A::Real),
    /// The parity of the qubits is measured, and odd or not.
    Measure(Seq<usize>, A::Real, bool),
    /// What is queued on the qubits is applied.
    Flush(Seq<usize>, FlushLevel),
    /// Two qubits exchange their identifiers.
    SwapIds(usize, usize),
    /// The states at two locations are exchanged.
    SwapState(usize, usize),
    /// The qubits are put in order for a dump.
    Dump,
    /// The X gate.
    X(Seq<usize>, usize),
    /// The Y gate.
    Y(Seq<usize>, usize),
    /// The Z gate.
    Z(Seq<usize>, usize),
    /// The H gate without controls.
    H(usize),
    /// The H gate under controls.
    Mch(Seq<usize>, usize),
    /// The rotation about X without controls.
    Rx(A::Real, usize),
    /// The rotation about X under controls.
    Mcrx(Seq<usize>, A::Real, usize),
    /// The rotation about Y without controls.
    Ry(A::Real, usize),
    /// The rotation about Y under controls.
    Mcry(Seq<usize>, A::Real, usize),
    /// A phase gate with a name.
    Named(Seq<usize>, usize, PhaseGate),
    /// A phase gate, or a rotation about Z.
    Other(Seq<usize>, usize, Transform<A>),
}

impl<A: Amplitude> Operation<A> {
    /// What the operation does.
    pub open spec fn performed(self, pre: SimModel<A>, post: SimModel<A>) -> bool {
        match self {
            Operation::Allocate(id) => allocate_step(pre, id, post),
            Operation::Release(id, sample) => release_step(pre, id, sample, post),
            Operation::Measure(ids, sample, odd) => measure_step(pre, ids, sample, odd, post),
            Operation::Flush(qubits, level) => flush_step(pre, qubits, level, post),
            Operation::SwapIds(a, b) => swap_ids_step(pre, a, b, post),
            Operation::SwapState(a, b) => swap_state_step(pre, a, b, post),
            Operation::Dump => dump_step(pre, post),
            Operation::X(ctls, target) => mcx_step(pre, ctls, target, post),
            Operation::Y(ctls, target) => mcy_step(pre, ctls, target, post),
            Operation::Z(ctls, target) => mcz_step(pre, ctls, target, post),
            Operation::H(target) => h_step(pre, target, post),
            Operation::Mch(ctls, target) => mch_step(pre, ctls, target, post),
            Operation::Rx(theta, target) => rx_step(pre, theta, target, post),
            Operation::Mcrx(ctls, theta, target) => mcrx_step(pre, ctls, theta, target, post),
            Operation::Ry(theta, target) => ry_step(pre, theta, target, post),
            Operation::Mcry(ctls, theta, target) => mcry_step(pre, ctls, theta, target, post),
            Operation::Named(ctls, target, gate) => flushed_phase_step(
                pre,
                ctls,
                target,
                gate,
                post,
            ),
            Operation::Other(ctls, target, gate) => flushed_transform_step(
                pre,
                ctls,
                target,
                gate,
                post,
            ),
        }
    }
}

/// Whether the operations lead from a new simulation through the given ones.
pub open spec fn run<A: Amplitude>(ops: Seq<Operation<A>>, sims: Seq<SimModel<A>>) -> bool {
    &&& sims.len() == ops.len() + 1
    &&& started(sims[0])
    &&& forall|i: int|
        0 <= i < ops.len() ==> (#[trigger] ops[i]).performed(sims[i], sims[i + 1])
}

/// A new simulation has no entry that stands for zero.
pub proof fn law_start_has_no_zeros<A: Amplitude>(rd: Reading<A>, s: SimModel<A>)
    requires
        rd.exact(),
        started(s),
    ensures
        no_zeros(rd, s.state),
{
}

/// No operation makes an entry that stands for zero.
pub proof fn law_operations_make_no_zeros<A: Amplitude>(
    rd: Reading<A>,
    op: Operation<A>,
    pre: SimModel<A>,
    post: SimModel<A>,
)
    requires
        rd.exact(),
        rd.tells_zero(),
        no_zeros(rd, pre.state),
        op.performed(pre, post),
    ensures
        no_zeros(rd, post.state),
{
    match op {
        Operation::Allocate(id) => {},
        Operation::Release(id, sample) => {
            let (odd, mid) = choose|odd: bool, mid: SimModel<A>| #[trigger]
                measure_step(pre, just(id), sample, odd, mid) && post == (SimModel {
                    state: if odd {
                        cleared(mid.state, mid.ids[id] as nat)
                    } else {
                        mid.state
                    },
                    ids: mid.ids.remove(id),
                    ..mid
                });
            lemma_measure(rd, pre, just(id), sample, odd, mid);
            law_moves_make_no_zeros(rd, mid.state, mid.ids[id] as nat, 0);
        },
        Operation::Measure(ids, sample, odd) => lemma_measure(rd, pre, ids, sample, odd, post),
        Operation::Flush(qubits, level) => law_flush_makes_no_zeros(rd, pre, qubits, level, post),
        Operation::SwapIds(a, b) => {},
        Operation::SwapState(a, b) => {
            if a != b {
                let mid = choose|mid: SimModel<A>| #[trigger]
                    flush_step(pre, both(a, b), FlushLevel::HRxRy, mid) && post == (SimModel {
                        state: state_exchanged(mid.state, a as nat, b as nat),
                        ..mid
                    });
                law_flush_makes_no_zeros(rd, pre, both(a, b), FlushLevel::HRxRy, mid);
                law_moves_make_no_zeros(rd, mid.state, a as nat, b as nat);
            }
        },
        Operation::Dump => lemma_dump(rd, pre, post),
        Operation::X(ctls, target) => lemma_mcx(rd, pre, ctls, target, post),
        Operation::Y(ctls, target) => lemma_mcy(rd, pre, ctls, target, post),
        Operation::Z(ctls, target) => lemma_mcz(rd, pre, ctls, target, post),
        Operation::H(target) => {
            let (a, b) = choose|a: SimModel<A>, b: SimModel<A>| #[trigger]
                x_queue(pre, target, a) && #[trigger] flush_if(
                    a.rx.contains_key(target),
                    a,
                    just(target),
                    FlushLevel::HRx,
                    b,
                ) && post == (SimModel {
                    h: with_bit(b.h, target as nat, !b.h.contains(target as nat)),
                    ..b
                });
            lemma_flush_if(rd, a.rx.contains_key(target), a, just(target), FlushLevel::HRx, b);
        },
        Operation::Mch(ctls, target) => {
            let (a, b) = choose|a: SimModel<A>, b: SimModel<A>| #[trigger]
                flush_step(pre, ctls, FlushLevel::HRxRy, a) && #[trigger] flush_if(
                    a.rotation_queued(target),
                    a,
                    just(target),
                    FlushLevel::HRxRy,
                    b,
                ) && hadamard_step(b, ctls, target, post);
            law_flush_makes_no_zeros(rd, pre, ctls, FlushLevel::HRxRy, a);
            lemma_flush_if(rd, a.rotation_queued(target), a, just(target), FlushLevel::HRxRy, b);
            law_hadamard_makes_no_zeros(rd, b, ctls, target, post);
        },
        Operation::Rx(theta, target) => {
            let mid = choose|mid: SimModel<A>| #[trigger]
                flush_step(pre, just(target), FlushLevel::HRxRy, mid) && post == (SimModel {
                    rx: mid.rx.insert(target, theta),
                    ..mid
                });
            law_flush_makes_no_zeros(rd, pre, just(target), FlushLevel::HRxRy, mid);
        },
        Operation::Mcrx(ctls, theta, target) => {
            let (a, b) = choose|a: SimModel<A>, b: SimModel<A>| #[trigger]
                flush_step(pre, ctls, FlushLevel::HRxRy, a) && #[trigger] flush_target(
                    a.ry.contains_key(target),
                    FlushLevel::HRxRy,
                    a,
                    target,
                    b,
                ) && rotation_step(b, ctls, theta, target, false, post);
            law_flush_makes_no_zeros(rd, pre, ctls, FlushLevel::HRxRy, a);
            lemma_flush_target(rd, a.ry.contains_key(target), FlushLevel::HRxRy, a, target, b);
            law_rotation_makes_no_zeros(rd, b, ctls, theta, target, false, post);
        },
        Operation::Ry(theta, target) => {},
        Operation::Mcry(ctls, theta, target) => {
            let (a, b) = choose|a: SimModel<A>, b: SimModel<A>| #[trigger]
                flush_step(pre, ctls, FlushLevel::HRxRy, a) && #[trigger] flush_target(
                    a.rx.contains_key(target),
                    FlushLevel::HRx,
                    a,
                    target,
                    b,
                ) && rotation_step(b, ctls, theta, target, true, post);
            law_flush_makes_no_zeros(rd, pre, ctls, FlushLevel::HRxRy, a);
            lemma_flush_target(rd, a.rx.contains_key(target), FlushLevel::HRx, a, target, b);
            law_rotation_makes_no_zeros(rd, b, ctls, theta, target, true, post);
        },
        Operation::Named(ctls, target, gate) => {
            let mid = choose|mid: SimModel<A>| #[trigger]
                flush_all(pre, ctls, target, mid) && phase_step(mid, ctls, target, gate, post);
            lemma_phase(rd, mid, ctls, target, gate, post);
        },
        Operation::Other(ctls, target, gate) => {
            let mid = choose|mid: SimModel<A>| #[trigger]
                flush_all(pre, ctls, target, mid) && transform_step(mid, ctls, target, gate, post);
            lemma_transform(rd, mid, ctls, target, gate, post);
        },
    }
}

proof fn lemma_flush_if<A: Amplitude>(
    rd: Reading<A>,
    needed: bool,
    pre: SimModel<A>,
    qubits: Seq<usize>,
    level: FlushLevel,
    post: SimModel<A>,
)
    requires
        rd.exact(),
        rd.tells_zero(),
        no_zeros(rd, pre.state),
        flush_if(needed, pre, qubits, level, post),
    ensures
        no_zeros(rd, post.state),
{
    if needed {
        law_flush_makes_no_zeros(rd, pre, qubits, level, post);
    }
}

proof fn lemma_flush_target<A: Amplitude>(
    rd: Reading<A>,
    rotation: bool,
    level: FlushLevel,
    pre: SimModel<A>,
    target: usize,
    post: SimModel<A>,
)
    requires
        rd.exact(),
        rd.tells_zero(),
        no_zeros(rd, pre.state),
        flush_target(rotation, level, pre, target, post),
    ensures
        no_zeros(rd, post.state),
{
    if rotation {
        law_flush_makes_no_zeros(rd, pre, just(target), level, post);
    } else {
        lemma_flush_if(rd, pre.h.contains(target as nat), pre, just(target), FlushLevel::H, post);
    }
}

proof fn lemma_measure<A: Amplitude>(
    rd: Reading<A>,
    pre: SimModel<A>,
    ids: Seq<usize>,
    sample: A::Real,
    odd: bool,
    post: SimModel<A>,
)
    requires
        rd.tells_zero(),
        measure_step(pre, ids, sample, odd, post),
    ensures
        no_zeros(rd, post.state),
{
    let mid = choose|mid: SimModel<A>| #[trigger]
        flush_step(pre, ids, FlushLevel::HRxRy, mid) && post == (SimModel {
            state: post.state,
            ..mid
        }) && measured(
            mid.state,
            locations(mid.ids, ids),
            sample,
            odd,
            post.state,
        );
    law_collapse_leaves_no_zeros(
        rd,
        mid.state,
        locations(mid.ids, ids),
        odd,
        post.state,
    );
}

proof fn lemma_dump<A: Amplitude>(rd: Reading<A>, pre: SimModel<A>, post: SimModel<A>)
    requires
        rd.exact(),
        rd.tells_zero(),
        no_zeros(rd, pre.state),
        dump_step(pre, post),
    ensures
        no_zeros(rd, post.state),
{
    let (qubits, mid) = choose|qubits: Seq<usize>, mid: SimModel<A>| #[trigger]
        enumerates(qubits, pre.ids.dom()) && #[trigger] flush_step(
            pre,
            qubits,
            FlushLevel::HRxRy,
            mid,
        ) && same_for_qubits(mid, post);
    law_flush_makes_no_zeros(rd, pre, qubits, FlushLevel::HRxRy, mid);
    assert forall|k: Set<nat>| #[trigger] post.state.contains_key(k) implies rd.num(post.state[k])
        != Cx::zero() by {
        let (qs, v) = (ones(k, post.ids), post.state[k]);
        assert(has_amplitude(post, qs, v));
        assert(has_amplitude(mid, qs, v));
    }
}

proof fn lemma_mcx<A: Amplitude>(
    rd: Reading<A>,
    pre: SimModel<A>,
    ctls: Seq<usize>,
    target: usize,
    post: SimModel<A>,
)
    requires
        rd.tells_zero(),
        mcx_step(pre, ctls, target, post),
    ensures
        no_zeros(rd, post.state),
{
    if ctls.len() == 0 {
        let mid = choose|mid: SimModel<A>| #[trigger]
            x_queue(pre, target, mid) && if pre.h.contains(target as nat) {
                phase_step(mid, no_controls(), target, PhaseGate::Z, post)
            } else {
                transform_step(mid, no_controls(), target, Transform::X, post)
            };
        if pre.h.contains(target as nat) {
            lemma_phase(rd, mid, no_controls(), target, PhaseGate::Z, post);
        } else {
            lemma_transform(rd, mid, no_controls(), target, Transform::X, post);
        }
    } else {
        let (a, b) = choose|a: SimModel<A>, b: SimModel<A>| #[trigger]
            flush_if(x_flushes_controls(pre, ctls, target), pre, ctls, FlushLevel::HRxRy, a)
                && #[trigger] flush_if(
                a.ry.contains_key(target),
                a,
                just(target),
                FlushLevel::HRxRy,
                b,
            ) && x_past_h(b, ctls, target, post);
        if !b.h.contains(target as nat) {
            lemma_transform(rd, b, ctls, target, Transform::X, post);
        } else if ctls.len() == 1 && b.h.contains(ctls[0] as nat) {
            lemma_transform(rd, b, just(target), ctls[0], Transform::X, post);
        } else {
            lemma_phase(rd, b, ctls, target, PhaseGate::Z, post);
        }
    }
}

proof fn lemma_mcy<A: Amplitude>(
    rd: Reading<A>,
    pre: SimModel<A>,
    ctls: Seq<usize>,
    target: usize,
    post: SimModel<A>,
)
    requires
        rd.tells_zero(),
        mcy_step(pre, ctls, target, post),
    ensures
        no_zeros(rd, post.state),
{
    if ctls.len() == 0 {
        let mid = choose|mid: SimModel<A>| #[trigger]
            y_queue(pre, target, mid) && transform_step(
                mid,
                no_controls(),
                target,
                Transform::Y,
                post,
            );
        lemma_transform(rd, mid, no_controls(), target, Transform::Y, post);
    } else {
        let (a, b, c) = choose|a: SimModel<A>, b: SimModel<A>, c: SimModel<A>| #[trigger]
            flush_step(pre, ctls, FlushLevel::HRxRy, a) && #[trigger] flush_if(
                a.rx.contains_key(target),
                a,
                just(target),
                FlushLevel::HRx,
                b,
            ) && #[trigger] y_sign(b, ctls, target, c) && transform_step(
                c,
                ctls,
                target,
                Transform::Y,
                post,
            );
        lemma_transform(rd, c, ctls, target, Transform::Y, post);
    }
}

proof fn lemma_mcz<A: Amplitude>(
    rd: Reading<A>,
    pre: SimModel<A>,
    ctls: Seq<usize>,
    target: usize,
    post: SimModel<A>,
)
    requires
        rd.tells_zero(),
        mcz_step(pre, ctls, target, post),
    ensures
        no_zeros(rd, post.state),
{
    let qubits = ctls.push(target);
    if ctls.len() == 0 {
        let mid = choose|mid: SimModel<A>| #[trigger]
            z_queue(pre, target, mid) && if pre.h.contains(target as nat) {
                transform_step(mid, no_controls(), target, Transform::X, post)
            } else {
                phase_step(mid, no_controls(), target, PhaseGate::Z, post)
            };
        if pre.h.contains(target as nat) {
            lemma_transform(rd, mid, no_controls(), target, Transform::X, post);
        } else {
            lemma_phase(rd, mid, no_controls(), target, PhaseGate::Z, post);
        }
    } else if exists|i: int| #[trigger] only_h_at(pre, qubits, i) {
        let i = choose|i: int| #[trigger]
            only_h_at(pre, qubits, i) && transform_step(
                pre,
                controls_without(ctls, target, i),
                qubits[i],
                Transform::X,
                post,
            );
        let others = controls_without(ctls, target, i);
        lemma_transform(rd, pre, others, qubits[i], Transform::X, post);
    } else {
        let mid = choose|mid: SimModel<A>| #[trigger]
            flush_all(pre, ctls, target, mid) && phase_step(mid, ctls, target, PhaseGate::Z, post);
        lemma_phase(rd, mid, ctls, target, PhaseGate::Z, post);
    }
}

/// Whatever is done to a new simulation, no entry ever stands for zero, in
/// arithmetic that does not round and tells zero from other numbers.
pub proof fn law_never_zeros<A: Amplitude>(
    rd: Reading<A>,
    ops: Seq<Operation<A>>,
    sims: Seq<SimModel<A>>,
    n: int,
)
    requires
        rd.exact(),
        rd.tells_zero(),
        run(ops, sims),
        0 <= n < sims.len(),
    ensures
        no_zeros(rd, sims[n].state),
    decreases n,
{
    if n == 0 {
        law_start_has_no_zeros(rd, sims[0]);
    } else {
        law_never_zeros(rd, ops, sims, n - 1);
        assert(ops[n - 1].performed(sims[n - 1], sims[n - 1 + 1]));
        law_operations_make_no_zeros(rd, ops[n - 1], sims[n - 1], sims[n]);
    }
}

/// A state without entries that stand for zero has an entry for each amplitude
/// that is not zero, and no other: its size is the number of these.
pub proof fn law_entries_are_the_nonzero<A: Amplitude>(rd: Reading<A>, state: Map<Set<nat>, A>)
    requires
        no_zeros(rd, state),
    ensures
        state.dom() == Set::new(|k: Set<nat>| rd.vector(state)(k) != Cx::zero()),
{
    assert(state.dom() =~= Set::new(|k: Set<nat>| rd.vector(state)(k) != Cx::zero()));
}

/// A dump of a state without entries that stand for zero shows the basis states
/// whose amplitudes are not zero, and no others.
pub proof fn law_dump_skips_zeros<A: Amplitude>(
    rd: Reading<A>,
    state: Map<Set<nat>, A>,
    keys: Seq<Set<nat>>,
    k: Set<nat>,
)
    requires
        no_zeros(rd, state),
        in_order(keys, state),
    ensures
        keys.contains(k) <==> rd.vector(state)(k) != Cx::zero(),
{
    assert(keys.to_set().contains(k) <==> state.contains_key(k));
}

/// States without entries that stand for zero have entries for the same basis
/// states if their vectors are the same up to a phase.
pub proof fn law_same_entries<A: Amplitude>(
    rd: Reading<A>,
    a: Map<Set<nat>, A>,
    b: Map<Set<nat>, A>,
)
    requires
        no_zeros(rd, a),
        no_zeros(rd, b),
        same_up_to_phase(rd.vector(a), rd.vector(b)),
    ensures
        a.dom() == b.dom(),
{
    let z = choose|z: Cx| #[trigger]
        z.is_phase() && rd.vector(a) == times_vector(z, rd.vector(b));
    times_units(z.conj());
    assert(z != Cx::zero());
    assert forall|k: Set<nat>| a.dom().contains(k) == b.dom().contains(k) by {
        let w = rd.vector(b)(k);
        assert(rd.vector(a)(k) == times_vector(z, rd.vector(b))(k));
        times_units(z);
        if w != Cx::zero() {
            times_nonzero(z, w);
        }
        assert(a.contains_key(k) <==> rd.vector(a)(k) != Cx::zero());
        assert(b.contains_key(k) <==> w != Cx::zero());
    }
    assert(a.dom() =~= b.dom());
}

/// What has been undone, with the same queued as before, leaves as many entries
/// as there were, for the same basis states.
pub proof fn law_undone_entries<A: Amplitude>(
    rd: Reading<A>,
    pre: SimModel<A>,
    post: SimModel<A>,
)
    requires
        rd.exact(),
        pre.wf(),
        no_zeros(rd, pre.state),
        no_zeros(rd, post.state),
        nothing_applied(rd, pre, post),
        forall|q: usize| #[trigger]
            pre.ids.contains_key(q) ==> rd.queued(post, q) == rd.queued(pre, q),
    ensures
        post.state.dom() == pre.state.dom(),
{
    law_state_restored(rd, pre, post);
    law_same_entries(rd, post.state, pre.state);
}

} // verus!
