//! The laws of what single gates do to the amplitudes of the state vector, where
//! nothing queued stands between, in arithmetic that does not round.
use crate::applied::{
    lemma_hadamard_vector, lemma_rotation_vector, lemma_transform_vector, rotation,
};
use crate::arith::{nearly_zero, product, real_frac_1_sqrt_2, real_negated, Amplitude};
use crate::bookkeeping::{law_gate_keeps_size, law_mix_at_most_doubles, law_mix_guarded};
use crate::controlled_laws::{law_adjoints, law_roots, phase_number};
use crate::exact::{phase_examples, real_neg, real_units, times_units, Cx};
use crate::flushing::lemma_flush_nothing;
use crate::fxmap::enumerates;
use crate::gates::{gates_undone, identity, pauli_z, phase_matrix, rotations_add};
use crate::logical::{act_identity, lemma_targets};
use crate::matrix::{
    act, act_after, act_scaled, no_control, phase_act, phase_reflexive, phase_symmetric,
    phase_transitive, same_up_to_phase, Mat2, Vector,
};
use crate::measuring::{lemma_phase_weight, lemma_places, places};
use crate::model::{
    all_set, factor_of, gate_on_state, ids_apart, image_value, locations, same_entry, FlushLevel,
    Mix, SimModel, Transform,
};
use crate::normalization::{every, law_gates_unitary, weight};
use crate::norms::times_conj;
use crate::operations::law_same_entries;
use crate::reading::{half, lemma_factor, Reading};
use crate::rounded_laws::lemma_idle_z;
use crate::sparsity::{
    law_gate_leaves_no_zeros, law_hadamard_makes_no_zeros, law_rotation_makes_no_zeros, lemma_phase,
    no_zeros, times_nonzero,
};
use crate::steps::{
    flush_all, flush_step, flushed_phase_step, flushed_transform_step, hadamard_step, just,
    mcz_step, mix_step, named_phase, no_controls, phase_step, rotation_step, transform_step,
    x_queue, x_step, PhaseGate,
};
use crate::totals::unitary_total;
use vstd::prelude::*;

verus! {

/// Whether nothing is queued on the qubits of a gate.
pub open spec fn idle<A: Amplitude>(s: SimModel<A>, ctls: Seq<usize>, target: usize) -> bool {
    forall|i: int|
        0 <= i < ctls.len() + 1 ==> s.nothing_queued(#[trigger] ctls.push(target)[i])
}

/// The vector with its amplitudes multiplied where all the controls are one: by
/// `p0` where the target is zero, and by `p1` where it is one.
pub open spec fn multiplied(psi: Vector, ctls: Seq<usize>, target: nat, p0: Cx, p1: Cx) -> Vector {
    |k: Set<nat>|
        if !all_set(k, ctls) {
            psi(k)
        } else if k.contains(target) {
            p1.times(psi(k))
        } else {
            p0.times(psi(k))
        }
}

/// A matrix with zeros off its diagonal multiplies.
pub(crate) proof fn lemma_multiplies(m: Mat2, ctls: Seq<usize>, t: nat, psi: Vector)
    requires
        m.b == Cx::zero(),
        m.c == Cx::zero(),
    ensures
        act(m, ctls, t, psi) == multiplied(psi, ctls, t, m.a, m.d),
{
    let l = act(m, ctls, t, psi);
    let r = multiplied(psi, ctls, t, m.a, m.d);
    assert forall|k: Set<nat>| #[trigger] l(k) == r(k) by {
        if k.contains(t) {
            assert(k.insert(t) =~= k);
        } else {
            assert(k.remove(t) =~= k);
        }
        times_units(psi(k.remove(t)));
        times_units(psi(k.insert(t)));
    }
    assert(l =~= r);
}

/// Flushing qubits on which nothing is queued.
pub(crate) proof fn lemma_idle<A: Amplitude>(
    pre: SimModel<A>,
    ctls: Seq<usize>,
    target: usize,
    post: SimModel<A>,
)
    requires
        idle(pre, ctls, target),
        flush_all(pre, ctls, target, post),
    ensures
        post == pre,
{
    let mid = choose|mid: SimModel<A>| #[trigger]
        flush_step(pre, ctls, FlushLevel::HRxRy, mid) && flush_step(
            mid,
            just(target),
            FlushLevel::HRxRy,
            post,
        );
    assert forall|i: int| 0 <= i < ctls.len() implies pre.nothing_queued(#[trigger] ctls[i]) by {
        assert(ctls.push(target)[i] == ctls[i]);
    }
    lemma_flush_nothing(pre, ctls, FlushLevel::HRxRy, mid);
    assert(pre.nothing_queued(ctls.push(target)[ctls.len() as int]));
    lemma_flush_nothing(mid, just(target), FlushLevel::HRxRy, post);
}

/// A gate acts by its matrix on the state vector if nothing is queued on its
/// qubits, and leaves everything but the state.
pub proof fn law_idle_gate<A: Amplitude>(
    rd: Reading<A>,
    pre: SimModel<A>,
    ctls: Seq<usize>,
    target: usize,
    gate: Transform<A>,
    post: SimModel<A>,
)
    requires
        rd.exact(),
        ids_apart(pre.ids),
        pre.applicable(ctls, target),
        idle(pre, ctls, target),
        flushed_transform_step(pre, ctls, target, gate, post),
    ensures
        post == (SimModel { state: post.state, ..pre }),
        rd.vector(post.state) == act(
            rd.transform_matrix(gate),
            locations(pre.ids, ctls),
            pre.ids[target] as nat,
            rd.vector(pre.state),
        ),
        rd.tells_zero() ==> no_zeros(rd, post.state),
{
    let mid = choose|mid: SimModel<A>| #[trigger]
        flush_all(pre, ctls, target, mid) && transform_step(mid, ctls, target, gate, post);
    lemma_idle(pre, ctls, target, mid);
    lemma_targets(pre, ctls, target);
    lemma_transform_vector(rd, pre, ctls, target, gate, post);
    if rd.tells_zero() {
        law_gate_leaves_no_zeros(
            rd,
            pre.state,
            locations(pre.ids, ctls),
            pre.ids[target] as nat,
            gate,
            post.state,
        );
    }
}

/// Two gates, the second of which undoes the first by its matrix, give back the
/// state vector if nothing is queued on their qubits, and the entries for the
/// same basis states.
proof fn lemma_idle_undone<A: Amplitude>(
    rd: Reading<A>,
    pre: SimModel<A>,
    ctls: Seq<usize>,
    target: usize,
    gate: Transform<A>,
    inverse: Transform<A>,
    mid: SimModel<A>,
    post: SimModel<A>,
)
    requires
        rd.exact(),
        ids_apart(pre.ids),
        pre.applicable(ctls, target),
        idle(pre, ctls, target),
        flushed_transform_step(pre, ctls, target, gate, mid),
        flushed_transform_step(mid, ctls, target, inverse, post),
        rd.transform_matrix(inverse).after(rd.transform_matrix(gate)) == identity(),
    ensures
        post == (SimModel { state: post.state, ..pre }),
        rd.vector(post.state) == rd.vector(pre.state),
        rd.tells_zero() && no_zeros(rd, pre.state) ==> post.state.dom() == pre.state.dom(),
{
    let (locs, loc) = (locations(pre.ids, ctls), pre.ids[target] as nat);
    let psi = rd.vector(pre.state);
    law_idle_gate(rd, pre, ctls, target, gate, mid);
    assert(idle(mid, ctls, target)) by {
        assert forall|i: int| 0 <= i < ctls.len() + 1 implies mid.nothing_queued(
            #[trigger] ctls.push(target)[i],
        ) by {
            assert(pre.nothing_queued(ctls.push(target)[i]));
        }
    }
    law_idle_gate(rd, mid, ctls, target, inverse, post);
    lemma_targets(pre, ctls, target);
    act_after(rd.transform_matrix(inverse), rd.transform_matrix(gate), locs, loc, psi);
    act_identity(locs, loc, psi);
    if rd.tells_zero() && no_zeros(rd, pre.state) {
        phase_reflexive(psi);
        law_same_entries(rd, post.state, pre.state);
    }
}

/// A phase gate multiplies where its qubits are all one, and nowhere else.
pub proof fn law_mcphase<A: Amplitude>(
    rd: Reading<A>,
    pre: SimModel<A>,
    ctls: Seq<usize>,
    phase: A,
    target: usize,
    post: SimModel<A>,
)
    requires
        rd.exact(),
        ids_apart(pre.ids),
        pre.applicable(ctls, target),
        idle(pre, ctls, target),
        flushed_transform_step(pre, ctls, target, Transform::Phase(phase), post),
    ensures
        post == (SimModel { state: post.state, ..pre }),
        rd.vector(post.state) == multiplied(
            rd.vector(pre.state),
            locations(pre.ids, ctls),
            pre.ids[target] as nat,
            Cx::one(),
            rd.num(phase),
        ),
        rd.tells_zero() && no_zeros(rd, pre.state) && rd.num(phase) != Cx::zero()
            ==> post.state.dom() == pre.state.dom(),
{
    let (locs, loc) = (locations(pre.ids, ctls), pre.ids[target] as nat);
    let psi = rd.vector(pre.state);
    law_idle_gate(rd, pre, ctls, target, Transform::Phase(phase), post);
    lemma_multiplies(phase_matrix(rd.num(phase)), locs, loc, psi);
    if rd.tells_zero() && no_zeros(rd, pre.state) && rd.num(phase) != Cx::zero() {
        lemma_same_keys(rd, pre.state, locs, loc, Cx::one(), rd.num(phase), post.state);
    }
}

/// Multiplication by numbers that are not zero keeps the entries.
proof fn lemma_same_keys<A: Amplitude>(
    rd: Reading<A>,
    pre: Map<Set<nat>, A>,
    ctls: Seq<usize>,
    t: nat,
    p0: Cx,
    p1: Cx,
    post: Map<Set<nat>, A>,
)
    requires
        no_zeros(rd, pre),
        no_zeros(rd, post),
        p0 != Cx::zero(),
        p1 != Cx::zero(),
        rd.vector(post) == multiplied(rd.vector(pre), ctls, t, p0, p1),
    ensures
        post.dom() == pre.dom(),
{
    assert forall|k: Set<nat>| post.dom().contains(k) == pre.dom().contains(k) by {
        let v = rd.vector(pre)(k);
        assert(rd.vector(post)(k) == multiplied(rd.vector(pre), ctls, t, p0, p1)(k));
        times_units(p0);
        times_units(p1);
        if v != Cx::zero() {
            times_nonzero(p0, v);
            times_nonzero(p1, v);
        }
        assert(pre.contains_key(k) <==> v != Cx::zero());
        assert(post.contains_key(k) <==> rd.vector(post)(k) != Cx::zero());
    }
    assert(post.dom() =~= pre.dom());
}

/// A phase gate is undone by that with the conjugate number.
pub proof fn law_mcphase_undone<A: Amplitude>(
    rd: Reading<A>,
    pre: SimModel<A>,
    ctls: Seq<usize>,
    phase: A,
    conjugate: A,
    target: usize,
    mid: SimModel<A>,
    post: SimModel<A>,
)
    requires
        rd.exact(),
        ids_apart(pre.ids),
        pre.applicable(ctls, target),
        idle(pre, ctls, target),
        rd.num(phase).is_phase(),
        rd.num(conjugate) == rd.num(phase).conj(),
        flushed_transform_step(pre, ctls, target, Transform::Phase(phase), mid),
        flushed_transform_step(mid, ctls, target, Transform::Phase(conjugate), post),
    ensures
        post == (SimModel { state: post.state, ..pre }),
        rd.vector(post.state) == rd.vector(pre.state),
        rd.tells_zero() && no_zeros(rd, pre.state) ==> post.state.dom() == pre.state.dom(),
{
    gates_undone(0 as real, rd.num(phase));
    lemma_idle_undone(
        rd,
        pre,
        ctls,
        target,
        Transform::Phase(phase),
        Transform::Phase(conjugate),
        mid,
        post,
    );
}

/// The rotation about Z multiplies where its controls are all one: by the
/// exponential of half the angle where the target is one, and by its conjugate
/// where it is zero.
pub proof fn law_rz<A: Amplitude>(
    rd: Reading<A>,
    pre: SimModel<A>,
    ctls: Seq<usize>,
    theta: A::Real,
    target: usize,
    post: SimModel<A>,
)
    requires
        rd.exact(),
        ids_apart(pre.ids),
        pre.applicable(ctls, target),
        idle(pre, ctls, target),
        flushed_transform_step(pre, ctls, target, Transform::Rz(theta), post),
    ensures
        post == (SimModel { state: post.state, ..pre }),
        ({
            let p = Cx { re: rd.cos_half(theta), im: rd.sin_half(theta) };
            rd.vector(post.state) == multiplied(
                rd.vector(pre.state),
                locations(pre.ids, ctls),
                pre.ids[target] as nat,
                p.conj(),
                p,
            )
        }),
{
    let (locs, loc) = (locations(pre.ids, ctls), pre.ids[target] as nat);
    law_idle_gate(rd, pre, ctls, target, Transform::Rz(theta), post);
    lemma_multiplies(rd.rz(theta), locs, loc, rd.vector(pre.state));
}

/// Rotations about Z add up.
pub proof fn law_rz_adds<A: Amplitude>(
    rd: Reading<A>,
    pre: SimModel<A>,
    ctls: Seq<usize>,
    a: A::Real,
    b: A::Real,
    both: A::Real,
    target: usize,
    mid: SimModel<A>,
    post: SimModel<A>,
    once: SimModel<A>,
)
    requires
        rd.exact(),
        ids_apart(pre.ids),
        pre.applicable(ctls, target),
        idle(pre, ctls, target),
        rd.val(both) == rd.val(a) + rd.val(b),
        flushed_transform_step(pre, ctls, target, Transform::Rz(a), mid),
        flushed_transform_step(mid, ctls, target, Transform::Rz(b), post),
        flushed_transform_step(pre, ctls, target, Transform::Rz(both), once),
    ensures
        rd.vector(post.state) == rd.vector(once.state),
        rd.val(both) == 0 as real ==> rd.vector(post.state) == rd.vector(pre.state),
        rd.tells_zero() ==> post.state.dom() == once.state.dom(),
{
    let (locs, loc) = (locations(pre.ids, ctls), pre.ids[target] as nat);
    let psi = rd.vector(pre.state);
    law_idle_gate(rd, pre, ctls, target, Transform::Rz(a), mid);
    law_idle_gate(rd, pre, ctls, target, Transform::Rz(both), once);
    assert(idle(mid, ctls, target)) by {
        assert forall|i: int| 0 <= i < ctls.len() + 1 implies mid.nothing_queued(
            #[trigger] ctls.push(target)[i],
        ) by {
            assert(pre.nothing_queued(ctls.push(target)[i]));
        }
    }
    law_idle_gate(rd, mid, ctls, target, Transform::Rz(b), post);
    lemma_targets(pre, ctls, target);
    act_after(rd.rz(b), rd.rz(a), locs, loc, psi);
    let (x, y) = (half(rd.val(b)), half(rd.val(a)));
    assert(half(rd.val(both)) == x + y);
    assert(rd.angles_add(x, y));
    rotations_add(rd.cos_half(b), rd.sin_half(b), rd.cos_half(a), rd.sin_half(a));
    assert(rd.rz(b).after(rd.rz(a)) == rd.rz(both));
    if rd.val(both) == 0 as real {
        assert(half(rd.val(both)) == 0 as real);
        assert(rd.rz(both) == identity());
        act_identity(locs, loc, psi);
    }
    if rd.tells_zero() {
        phase_reflexive(rd.vector(once.state));
        law_same_entries(rd, post.state, once.state);
    }
}

/// The number of a phase gate with a name.
proof fn lemma_named<A: Amplitude>(
    rd: Reading<A>,
    pre: SimModel<A>,
    ctls: Seq<usize>,
    target: usize,
    gate: PhaseGate,
    post: SimModel<A>,
) -> (p: A)
    requires
        rd.exact(),
        flushed_phase_step(pre, ctls, target, gate, post),
    ensures
        rd.num(p) == phase_number(rd, gate),
        flushed_transform_step(pre, ctls, target, Transform::Phase(p), post),
{
    let mid = choose|mid: SimModel<A>| #[trigger]
        flush_all(pre, ctls, target, mid) && phase_step(mid, ctls, target, gate, post);
    choose|p: A| #[trigger]
        named_phase(gate, p) && transform_step(mid, ctls, target, Transform::Phase(p), post)
}

/// A phase gate with a name multiplies by its number where its qubits are all
/// one, and nowhere else.
pub proof fn law_named_phase<A: Amplitude>(
    rd: Reading<A>,
    pre: SimModel<A>,
    ctls: Seq<usize>,
    target: usize,
    gate: PhaseGate,
    post: SimModel<A>,
)
    requires
        rd.exact(),
        ids_apart(pre.ids),
        pre.applicable(ctls, target),
        idle(pre, ctls, target),
        flushed_phase_step(pre, ctls, target, gate, post),
    ensures
        post == (SimModel { state: post.state, ..pre }),
        rd.vector(post.state) == multiplied(
            rd.vector(pre.state),
            locations(pre.ids, ctls),
            pre.ids[target] as nat,
            Cx::one(),
            phase_number(rd, gate),
        ),
        rd.tells_zero() && no_zeros(rd, pre.state) ==> post.state.dom() == pre.state.dom(),
{
    let p = lemma_named(rd, pre, ctls, target, gate, post);
    law_mcphase(rd, pre, ctls, p, target, post);
}

/// S is undone by its adjoint, and T by its own.
pub proof fn law_named_phase_undone<A: Amplitude>(
    rd: Reading<A>,
    pre: SimModel<A>,
    ctls: Seq<usize>,
    target: usize,
    gate: PhaseGate,
    adjoint: PhaseGate,
    mid: SimModel<A>,
    post: SimModel<A>,
)
    requires
        rd.exact(),
        ids_apart(pre.ids),
        pre.applicable(ctls, target),
        idle(pre, ctls, target),
        adjoint == (match gate {
            PhaseGate::Z => PhaseGate::Z,
            PhaseGate::S => PhaseGate::SAdj,
            PhaseGate::SAdj => PhaseGate::S,
            PhaseGate::T => PhaseGate::TAdj,
            PhaseGate::TAdj => PhaseGate::T,
        }),
        flushed_phase_step(pre, ctls, target, gate, mid),
        flushed_phase_step(mid, ctls, target, adjoint, post),
    ensures
        post == (SimModel { state: post.state, ..pre }),
        rd.vector(post.state) == rd.vector(pre.state),
        rd.tells_zero() && no_zeros(rd, pre.state) ==> post.state.dom() == pre.state.dom(),
{
    let p = lemma_named(rd, pre, ctls, target, gate, mid);
    let q = lemma_named(rd, mid, ctls, target, adjoint, post);
    phase_examples();
    times_conj(phase_number(rd, gate));
    real_neg(rd.root_half, rd.root_half);
    law_mcphase_undone(rd, pre, ctls, p, q, target, mid, post);
}

/// S twice gives the state vector that Z gives.
pub proof fn law_s_twice<A: Amplitude>(
    rd: Reading<A>,
    pre: SimModel<A>,
    ctls: Seq<usize>,
    target: usize,
    mid: SimModel<A>,
    post: SimModel<A>,
    other: SimModel<A>,
)
    requires
        rd.exact(),
        ids_apart(pre.ids),
        pre.applicable(ctls, target),
        idle(pre, ctls, target),
        flushed_phase_step(pre, ctls, target, PhaseGate::S, mid),
        flushed_phase_step(mid, ctls, target, PhaseGate::S, post),
        mcz_step(pre, ctls, target, other),
    ensures
        post == (SimModel { state: post.state, ..other }),
        rd.vector(post.state) == rd.vector(other.state),
        rd.tells_zero() ==> post.state.dom() == other.state.dom(),
{
    let (locs, loc) = (locations(pre.ids, ctls), pre.ids[target] as nat);
    let psi = rd.vector(pre.state);
    let p = lemma_named(rd, pre, ctls, target, PhaseGate::S, mid);
    let q = lemma_named(rd, mid, ctls, target, PhaseGate::S, post);
    law_idle_gate(rd, pre, ctls, target, Transform::Phase(p), mid);
    assert(idle(mid, ctls, target)) by {
        assert forall|i: int| 0 <= i < ctls.len() + 1 implies mid.nothing_queued(
            #[trigger] ctls.push(target)[i],
        ) by {
            assert(pre.nothing_queued(ctls.push(target)[i]));
        }
    }
    law_idle_gate(rd, mid, ctls, target, Transform::Phase(q), post);
    lemma_targets(pre, ctls, target);
    let s = phase_matrix(phase_number(rd, PhaseGate::S));
    law_roots(rd);
    act_after(s, s, locs, loc, psi);
    lemma_idle_z_vector(rd, pre, ctls, target, other);
    if rd.tells_zero() {
        phase_reflexive(rd.vector(other.state));
        law_same_entries(rd, post.state, other.state);
    }
}

/// The Z gate where nothing is queued on its qubits.
proof fn lemma_idle_z_vector<A: Amplitude>(
    rd: Reading<A>,
    pre: SimModel<A>,
    ctls: Seq<usize>,
    target: usize,
    post: SimModel<A>,
)
    requires
        rd.exact(),
        ids_apart(pre.ids),
        pre.applicable(ctls, target),
        idle(pre, ctls, target),
        mcz_step(pre, ctls, target, post),
    ensures
        post == (SimModel { state: post.state, ..pre }),
        rd.vector(post.state) == act(
            pauli_z(),
            locations(pre.ids, ctls),
            pre.ids[target] as nat,
            rd.vector(pre.state),
        ),
        rd.tells_zero() ==> no_zeros(rd, post.state),
{
    lemma_targets(pre, ctls, target);
    lemma_idle_z(pre, ctls, target, post);
    let p = choose|p: A| #[trigger]
        named_phase(PhaseGate::Z, p) && transform_step(
            pre,
            ctls,
            target,
            Transform::Phase(p),
            post,
        );
    lemma_transform_vector(rd, pre, ctls, target, Transform::Phase(p), post);
    if rd.tells_zero() {
        lemma_phase(rd, pre, ctls, target, PhaseGate::Z, post);
    }
}

/// The H gate past whatever is queued: entries in which some control is zero
/// stay, the state at most doubles, nothing else changes, and the same gate
/// again gives back the state vector and the entries for the same basis states.
pub proof fn law_hadamard_twice<A: Amplitude>(
    rd: Reading<A>,
    pre: SimModel<A>,
    ctls: Seq<usize>,
    target: usize,
    mid: SimModel<A>,
    post: SimModel<A>,
)
    requires
        rd.exact(),
        ids_apart(pre.ids),
        pre.applicable(ctls, target),
        pre.state.dom().finite(),
        hadamard_step(pre, ctls, target, mid),
        hadamard_step(mid, ctls, target, post),
    ensures
        mid == (SimModel { state: mid.state, ..pre }),
        forall|k: Set<nat>| #[trigger]
            all_set(k, locations(pre.ids, ctls)) || same_entry(pre.state, mid.state, k),
        mid.state.dom().len() <= 2 * pre.state.dom().len(),
        post == (SimModel { state: post.state, ..pre }),
        rd.vector(post.state) == rd.vector(pre.state),
        rd.tells_zero() && no_zeros(rd, pre.state) ==> post.state.dom() == pre.state.dom(),
{
    let (locs, loc) = (locations(pre.ids, ctls), pre.ids[target] as nat);
    let psi = rd.vector(pre.state);
    let f = choose|f: A::Real| #[trigger]
        real_frac_1_sqrt_2(f) && mix_step(pre, ctls, target, Mix::Hadamard(f), mid);
    law_mix_at_most_doubles(pre.state, locs, loc, Mix::Hadamard(f), mid.state);
    assert forall|k: Set<nat>| #[trigger] all_set(k, locs) || same_entry(pre.state, mid.state, k) by {
        if !all_set(k, locs) {
            law_mix_guarded(pre.state, locs, loc, Mix::Hadamard(f), mid.state, k);
        }
    }
    lemma_hadamard_vector(rd, pre, ctls, target, mid);
    lemma_hadamard_vector(rd, mid, ctls, target, post);
    lemma_targets(pre, ctls, target);
    gates_undone(rd.root_half, Cx::one());
    act_after(rd.h(), rd.h(), locs, loc, psi);
    act_identity(locs, loc, psi);
    if rd.tells_zero() && no_zeros(rd, pre.state) {
        law_hadamard_makes_no_zeros(rd, pre, ctls, target, mid);
        law_hadamard_makes_no_zeros(rd, mid, ctls, target, post);
        phase_reflexive(psi);
        law_same_entries(rd, post.state, pre.state);
    }
}

/// A rotation past whatever is queued acts by its matrix on the state vector, up
/// to a phase if there are no controls, and leaves everything but the state.
pub proof fn law_rotation<A: Amplitude>(
    rd: Reading<A>,
    pre: SimModel<A>,
    ctls: Seq<usize>,
    theta: A::Real,
    target: usize,
    about_y: bool,
    post: SimModel<A>,
)
    requires
        rd.exact(),
        ids_apart(pre.ids),
        pre.applicable(ctls, target),
        rotation_step(pre, ctls, theta, target, about_y, post),
    ensures
        post == (SimModel { state: post.state, ..pre }),
        ({
            let turned = act(
                rotation(rd, theta, about_y),
                locations(pre.ids, ctls),
                pre.ids[target] as nat,
                rd.vector(pre.state),
            );
            &&& same_up_to_phase(rd.vector(post.state), turned)
            &&& ctls.len() > 0 ==> rd.vector(post.state) == turned
        }),
{
    let (locs, loc) = (locations(pre.ids, ctls), pre.ids[target] as nat);
    let psi = rd.vector(pre.state);
    let m = rotation(rd, theta, about_y);
    let (w, z) = lemma_rotation_vector(rd, pre, ctls, theta, target, about_y, post);
    if ctls.len() == 0 {
        assert(locs =~= no_controls());
        act_scaled(w, loc, z, psi);
        assert(same_up_to_phase(act(m, locs, loc, psi), rd.vector(post.state)));
        phase_symmetric(act(m, locs, loc, psi), rd.vector(post.state));
    } else {
        phase_reflexive(rd.vector(post.state));
    }
}

/// A rotation past whatever is queued leaves the amplitudes of the basis states
/// in which some control is zero, and the weight of the state vector.
pub proof fn law_rotation_keeps<A: Amplitude>(
    rd: Reading<A>,
    pre: SimModel<A>,
    ctls: Seq<usize>,
    theta: A::Real,
    target: usize,
    about_y: bool,
    post: SimModel<A>,
    order: Seq<usize>,
)
    requires
        rd.exact(),
        ids_apart(pre.ids),
        pre.applicable(ctls, target),
        rotation_step(pre, ctls, theta, target, about_y, post),
        enumerates(order, pre.ids.dom()),
    ensures
        forall|k: Set<nat>| #[trigger]
            all_set(k, locations(pre.ids, ctls)) || rd.vector(post.state)(k) == rd.vector(
                pre.state,
            )(k),
        weight(rd.vector(post.state), places(pre.ids, order)) == weight(
            rd.vector(pre.state),
            places(pre.ids, order),
        ),
{
    let (locs, loc) = (locations(pre.ids, ctls), pre.ids[target] as nat);
    let psi = rd.vector(pre.state);
    let m = rotation(rd, theta, about_y);
    let turned = act(m, locs, loc, psi);
    law_rotation(rd, pre, ctls, theta, target, about_y, post);
    lemma_targets(pre, ctls, target);
    lemma_places(pre.ids, order);
    law_gates_unitary(0 as real, rd.cos_half(theta), rd.sin_half(theta), Cx::one());
    unitary_total(every(), m, locs, loc, psi, places(pre.ids, order), Set::empty());
    lemma_phase_weight(every(), rd.vector(post.state), turned, places(pre.ids, order));
    assert forall|k: Set<nat>| #[trigger]
        all_set(k, locs) || rd.vector(post.state)(k) == psi(k) by {
        if !all_set(k, locs) {
            assert(ctls.len() > 0);
            assert(turned(k) == psi(k));
        }
    }
}

/// A rotation past whatever is queued is undone by that by the opposite angle:
/// exactly if there are controls, and up to a phase if there are none. The
/// entries are then for the same basis states as before.
pub proof fn law_rotation_undone<A: Amplitude>(
    rd: Reading<A>,
    pre: SimModel<A>,
    ctls: Seq<usize>,
    theta: A::Real,
    opposite: A::Real,
    target: usize,
    about_y: bool,
    mid: SimModel<A>,
    post: SimModel<A>,
)
    requires
        rd.exact(),
        ids_apart(pre.ids),
        pre.applicable(ctls, target),
        real_negated(theta, opposite),
        rotation_step(pre, ctls, theta, target, about_y, mid),
        rotation_step(mid, ctls, opposite, target, about_y, post),
    ensures
        post == (SimModel { state: post.state, ..pre }),
        same_up_to_phase(rd.vector(post.state), rd.vector(pre.state)),
        ctls.len() > 0 ==> rd.vector(post.state) == rd.vector(pre.state),
        rd.tells_zero() && no_zeros(rd, pre.state) ==> post.state.dom() == pre.state.dom(),
{
    let (locs, loc) = (locations(pre.ids, ctls), pre.ids[target] as nat);
    let psi = rd.vector(pre.state);
    let (m, n) = (rotation(rd, theta, about_y), rotation(rd, opposite, about_y));
    law_rotation(rd, pre, ctls, theta, target, about_y, mid);
    law_rotation(rd, mid, ctls, opposite, target, about_y, post);
    lemma_targets(pre, ctls, target);
    law_adjoints(rd, theta, opposite);
    act_after(n, m, locs, loc, psi);
    act_identity(locs, loc, psi);
    let turned = act(m, locs, loc, psi);
    phase_act(n, locs, loc, rd.vector(mid.state), turned);
    phase_transitive(
        rd.vector(post.state),
        act(n, locs, loc, rd.vector(mid.state)),
        act(n, locs, loc, turned),
    );
    if rd.tells_zero() && no_zeros(rd, pre.state) {
        law_rotation_makes_no_zeros(rd, pre, ctls, theta, target, about_y, mid);
        law_rotation_makes_no_zeros(rd, mid, ctls, opposite, target, about_y, post);
        law_same_entries(rd, post.state, pre.state);
    }
}

/// A gate that works entry by entry keeps the number of entries if none of them
/// stands for zero and it multiplies by no number that is zero.
pub proof fn law_gate_keeps_number<A: Amplitude>(
    rd: Reading<A>,
    pre: Map<Set<nat>, A>,
    ctls: Seq<usize>,
    target: nat,
    gate: Transform<A>,
    post: Map<Set<nat>, A>,
)
    requires
        rd.exact(),
        rd.tells_zero(),
        no_zeros(rd, pre),
        gate matches Transform::Phase(p) ==> rd.num(p) != Cx::zero(),
        pre.dom().finite(),
        no_control(ctls, target),
        gate_on_state(pre, ctls, target, gate, post),
    ensures
        post.dom().len() == pre.dom().len(),
{
    assert forall|k: Set<nat>, v: A|
        pre.contains_key(k) && #[trigger] image_value(
            pre,
            k,
            ctls,
            target,
            gate,
            v,
        ) implies !nearly_zero(v, true) by {
        if all_set(k, ctls) && !(gate is X) {
            let bit = k.contains(target);
            let f = choose|f: A| #[trigger] factor_of(gate, bit, f) && product(pre[k], f, v);
            lemma_factor(rd, gate, bit, f);
            if let Transform::Rz(theta) = gate {
                let (c, s) = (rd.cos_half(theta), rd.sin_half(theta));
                real_units(0 as real);
                assert(c * c + s * s == 1 as real);
            }
            assert(rd.num(f) != Cx::zero());
            times_nonzero(rd.num(pre[k]), rd.num(f));
        }
    }
    law_gate_keeps_size(pre, ctls, target, gate, post);
}

/// The X gate flushes nothing, whatever is queued, and keeps the number of
/// entries.
pub proof fn law_x_keeps_number<A: Amplitude>(
    rd: Reading<A>,
    pre: SimModel<A>,
    target: usize,
    post: SimModel<A>,
)
    requires
        rd.exact(),
        rd.tells_zero(),
        no_zeros(rd, pre.state),
        pre.state.dom().finite(),
        x_step(pre, target, post),
    ensures
        post == (SimModel { state: post.state, ry: post.ry, ..pre }),
        post.ry.dom() == pre.ry.dom(),
        no_zeros(rd, post.state),
        post.state.dom().len() == pre.state.dom().len(),
{
    let mid = choose|mid: SimModel<A>| #[trigger]
        x_queue(pre, target, mid) && if pre.h.contains(target as nat) {
            phase_step(mid, no_controls(), target, PhaseGate::Z, post)
        } else {
            transform_step(mid, no_controls(), target, Transform::X, post)
        };
    let locs = locations(pre.ids, no_controls());
    let loc = pre.ids[target] as nat;
    let gate = if pre.h.contains(target as nat) {
        let p = choose|p: A| #[trigger]
            named_phase(PhaseGate::Z, p) && transform_step(
                mid,
                no_controls(),
                target,
                Transform::Phase(p),
                post,
            );
        Transform::Phase(p)
    } else {
        Transform::X
    };
    law_gate_keeps_number(rd, pre.state, locs, loc, gate, post.state);
    law_gate_leaves_no_zeros(rd, pre.state, locs, loc, gate, post.state);
    assert(post.ry.dom() =~= pre.ry.dom());
}

} // verus!
