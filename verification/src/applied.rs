//! What the steps do to the state that the qubits are in.
use crate::arith::{nearly_zero, real_frac_1_sqrt_2, real_negated, Amplitude};
use crate::controls::phase_after;
use crate::exact::{phase_conj, phase_examples, real_neg, real_units, times_units, Cx};
use crate::flushing::{lemma_flush_h_keeps, lemma_flush_rx_keeps, same_queue};
use crate::fxmap::enumerates;
use crate::gates::{after_identity, identity, special_turns};
use crate::logical::{act_identity, lemma_single, lemma_targets};
use crate::matrix::{
    act, after_assoc, no_control, phase_act, phase_reflexive, phase_transitive, same_up_to_phase,
    scaled_after, scaled_twice, Mat2, Vector,
};
use crate::model::{ids_apart, locations, FlushLevel, Mix, SimModel, Transform};
use crate::reading::{half, lemma_gate_acts, lemma_mix_acts, Reading};
use crate::sim::{lemma_applicable_alone, lemma_first_applicable};
use crate::steps::{
    controls_phase, flush_h_step, flush_one, flush_rx_step, flush_ry_step, flush_step,
    hadamard_step, half_turn_gate, half_turn_step, mix_step, no_controls, rotation_diagonal,
    rotation_lower, rotation_step, rotation_upper, transform_step,
};
use vstd::prelude::*;

verus! {

/// Whether the qubits are after a gate with the matrix `m` on the target
/// under the controls, up to a phase.
pub open spec fn gate_applied<A: Amplitude>(
    rd: Reading<A>,
    pre: SimModel<A>,
    ctls: Seq<usize>,
    target: usize,
    m: Mat2,
    post: SimModel<A>,
) -> bool {
    &&& post.ids == pre.ids
    &&& forall|order: Seq<usize>| #[trigger]
        enumerates(order, pre.ids.dom()) ==> same_up_to_phase(
            rd.logical(post, order),
            act(m, locations(pre.ids, ctls), pre.ids[target] as nat, rd.logical(pre, order)),
        )
}

/// Whether the qubits are in the same state, up to a phase.
pub open spec fn nothing_applied<A: Amplitude>(
    rd: Reading<A>,
    pre: SimModel<A>,
    post: SimModel<A>,
) -> bool {
    &&& post.ids == pre.ids
    &&& forall|order: Seq<usize>| #[trigger]
        enumerates(order, pre.ids.dom()) ==> same_up_to_phase(
            rd.logical(post, order),
            rd.logical(pre, order),
        )
}

/// One step after another.
pub(crate) proof fn lemma_then<A: Amplitude>(
    rd: Reading<A>,
    pre: SimModel<A>,
    mid: SimModel<A>,
    ctls: Seq<usize>,
    target: usize,
    m: Mat2,
    post: SimModel<A>,
)
    requires
        nothing_applied(rd, pre, mid),
        gate_applied(rd, mid, ctls, target, m, post),
    ensures
        gate_applied(rd, pre, ctls, target, m, post),
{
    let (locs, loc) = (locations(pre.ids, ctls), pre.ids[target] as nat);
    assert forall|order: Seq<usize>| #[trigger]
        enumerates(order, pre.ids.dom()) implies same_up_to_phase(
        rd.logical(post, order),
        act(m, locs, loc, rd.logical(pre, order)),
    ) by {
        phase_act(m, locs, loc, rd.logical(mid, order), rd.logical(pre, order));
        phase_transitive(
            rd.logical(post, order),
            act(m, locs, loc, rd.logical(mid, order)),
            act(m, locs, loc, rd.logical(pre, order)),
        );
    }
}

/// See [`lemma_then`], with nothing applied in the end.
pub(crate) proof fn lemma_still<A: Amplitude>(
    rd: Reading<A>,
    pre: SimModel<A>,
    mid: SimModel<A>,
    post: SimModel<A>,
)
    requires
        nothing_applied(rd, pre, mid),
        nothing_applied(rd, mid, post),
    ensures
        nothing_applied(rd, pre, post),
{
    assert forall|order: Seq<usize>| #[trigger]
        enumerates(order, pre.ids.dom()) implies same_up_to_phase(
        rd.logical(post, order),
        rd.logical(pre, order),
    ) by {
        phase_transitive(rd.logical(post, order), rd.logical(mid, order), rd.logical(pre, order));
    }
}

pub(crate) proof fn lemma_nothing<A: Amplitude>(rd: Reading<A>, s: SimModel<A>)
    ensures
        nothing_applied(rd, s, s),
{
    assert forall|order: Seq<usize>| #[trigger]
        enumerates(order, s.ids.dom()) implies same_up_to_phase(
        rd.logical(s, order),
        rd.logical(s, order),
    ) by {
        phase_reflexive(rd.logical(s, order));
    }
}

/// See [`lemma_single`].
pub(crate) proof fn lemma_alone<A: Amplitude>(
    rd: Reading<A>,
    pre: SimModel<A>,
    q: usize,
    w: Mat2,
    u: Mat2,
    z: Cx,
    post: SimModel<A>,
)
    requires
        ids_apart(pre.ids),
        pre.ids.contains_key(q),
        post.ids == pre.ids,
        z.is_phase(),
        forall|r: usize| r != q ==> #[trigger] same_queue(pre, post, r),
        rd.vector(post.state) == act(w, no_controls(), pre.ids[q] as nat, rd.vector(pre.state)),
        rd.queued(post, q).after(w) == u.after(rd.queued(pre, q)).scaled(z),
    ensures
        gate_applied(rd, pre, no_controls(), q, u, post),
        u == identity() ==> nothing_applied(rd, pre, post),
{
    assert(locations(pre.ids, no_controls()) =~= no_controls());
    assert forall|r: usize| r != q implies #[trigger] rd.queued(post, r) == rd.queued(pre, r) by {
        assert(same_queue(pre, post, r));
    }
    assert forall|order: Seq<usize>| #[trigger]
        enumerates(order, pre.ids.dom()) implies same_up_to_phase(
        rd.logical(post, order),
        act(u, locations(pre.ids, no_controls()), pre.ids[q] as nat, rd.logical(pre, order)),
    ) by {
        lemma_single(rd, pre, q, w, u, z, post, order);
    }
    if u == identity() {
        assert forall|order: Seq<usize>| #[trigger]
            enumerates(order, pre.ids.dom()) implies same_up_to_phase(
            rd.logical(post, order),
            rd.logical(pre, order),
        ) by {
            act_identity(no_controls(), pre.ids[q] as nat, rd.logical(pre, order));
        }
    }
}

/// Flushing a queued H acts by its matrix.
pub(crate) proof fn lemma_flush_h_vector<A: Amplitude>(
    rd: Reading<A>,
    pre: SimModel<A>,
    q: usize,
    post: SimModel<A>,
)
    requires
        rd.exact(),
        flush_h_step(pre, q, post),
    ensures
        post == (SimModel { state: post.state, h: pre.h.remove(q as nat), ..pre }),
        rd.vector(post.state) == act(
            rd.queued_h(pre, q),
            no_controls(),
            pre.ids[q] as nat,
            rd.vector(pre.state),
        ),
{
    let loc = pre.ids[q] as nat;
    if pre.h.contains(q as nat) {
        let mid = choose|mid: SimModel<A>| #[trigger]
            hadamard_step(pre, no_controls(), q, mid) && post == (SimModel {
                h: mid.h.remove(q as nat),
                ..mid
            });
        lemma_hadamard_vector(rd, pre, no_controls(), q, mid);
        assert(locations(pre.ids, no_controls()) =~= no_controls());
    } else {
        assert(pre.h.remove(q as nat) =~= pre.h);
        act_identity(no_controls(), loc, rd.vector(pre.state));
    }
}

/// The H gate past whatever is queued acts by its matrix on the state vector.
pub(crate) proof fn lemma_hadamard_vector<A: Amplitude>(
    rd: Reading<A>,
    pre: SimModel<A>,
    ctls: Seq<usize>,
    q: usize,
    post: SimModel<A>,
)
    requires
        rd.exact(),
        hadamard_step(pre, ctls, q, post),
    ensures
        post == (SimModel { state: post.state, ..pre }),
        rd.vector(post.state) == act(
            rd.h(),
            locations(pre.ids, ctls),
            pre.ids[q] as nat,
            rd.vector(pre.state),
        ),
{
    let f = choose|f: A::Real| #[trigger]
        real_frac_1_sqrt_2(f) && mix_step(pre, ctls, q, Mix::Hadamard(f), post);
    lemma_mix_acts(
        rd,
        pre.state,
        locations(pre.ids, ctls),
        pre.ids[q] as nat,
        Mix::Hadamard(f),
        post.state,
    );
}

/// Flushing a queued H leaves the qubits in their state.
pub(crate) proof fn lemma_flush_h_applied<A: Amplitude>(
    rd: Reading<A>,
    pre: SimModel<A>,
    q: usize,
    post: SimModel<A>,
)
    requires
        rd.exact(),
        ids_apart(pre.ids),
        pre.ids.contains_key(q),
        flush_h_step(pre, q, post),
    ensures
        nothing_applied(rd, pre, post),
{
    lemma_flush_h_vector(rd, pre, q, post);
    lemma_flush_h_keeps(pre, q, post);
    let (y, x, h) = (rd.queued_ry(pre, q), rd.queued_rx(pre, q), rd.queued_h(pre, q));
    after_identity(x);
    after_identity(rd.queued(pre, q));
    after_assoc(y, x, h);
    scaled_twice(rd.queued(pre, q), Cx::one(), Cx::one());
    phase_examples();
    lemma_alone(rd, pre, q, h, identity(), Cx::one(), post);
}

/// The matrix of a rotation.
pub open spec fn rotation<A: Amplitude>(rd: Reading<A>, theta: A::Real, about_y: bool) -> Mat2 {
    if about_y {
        rd.ry(theta)
    } else {
        rd.rx(theta)
    }
}

/// The entries of the matrix of a rotation.
pub(crate) proof fn lemma_rotation_numbers<A: Amplitude>(
    rd: Reading<A>,
    theta: A::Real,
    about_y: bool,
    m00: A,
    m01: A,
)
    requires
        rd.exact(),
        rotation_diagonal(theta, m00),
        rotation_upper(theta, about_y, m01),
    ensures
        rd.num(m00) == rotation(rd, theta, about_y).a,
        rd.num(m01) == rotation(rd, theta, about_y).b,
        forall|m10: A| #[trigger]
            rotation_lower(about_y, m01, m10) ==> rd.mix_matrix(Mix::Rotation { m00, m01, m10 })
                == rotation(rd, theta, about_y),
{
    let x = half(rd.val(theta));
    assert(rd.turns_back(x));
    let s = rd.sin(-x);
    let base = Cx { re: 0 as real, im: s };
    times_units(base);
    assert(base.times(Cx::i().negate()) == Cx::of(s)) by {
        reveal(Cx::times);
        real_units(s);
        real_neg(s, 1 as real);
        real_neg(0 as real, 1 as real);
        real_units(0 as real);
        real_units(-(0 as real));
    }
}

/// A gate past whatever is queued acts by its matrix on the state vector.
pub(crate) proof fn lemma_transform_vector<A: Amplitude>(
    rd: Reading<A>,
    pre: SimModel<A>,
    ctls: Seq<usize>,
    q: usize,
    gate: Transform<A>,
    post: SimModel<A>,
)
    requires
        rd.exact(),
        no_control(locations(pre.ids, ctls), pre.ids[q] as nat),
        transform_step(pre, ctls, q, gate, post),
    ensures
        rd.vector(post.state) == act(
            rd.transform_matrix(gate),
            locations(pre.ids, ctls),
            pre.ids[q] as nat,
            rd.vector(pre.state),
        ),
{
    lemma_gate_acts(
        rd,
        pre.state,
        locations(pre.ids, ctls),
        pre.ids[q] as nat,
        gate,
        post.state,
    );
}

/// A matrix times a phase, times the inverse of that phase.
pub(crate) proof fn lemma_unscaled(m: Mat2, z: Cx)
    requires
        z.is_phase(),
    ensures
        z.conj().is_phase(),
        m.scaled(z).scaled(z.conj()) == m,
{
    phase_conj(z);
    scaled_twice(m, z, z.conj());
}

/// A rotation past whatever is queued acts by a matrix that is that of the
/// rotation, up to a phase if there are no controls.
pub(crate) proof fn lemma_rotation_vector<A: Amplitude>(
    rd: Reading<A>,
    pre: SimModel<A>,
    ctls: Seq<usize>,
    theta: A::Real,
    q: usize,
    about_y: bool,
    post: SimModel<A>,
) -> (r: (Mat2, Cx))
    requires
        rd.exact(),
        ids_apart(pre.ids),
        pre.applicable(ctls, q),
        rotation_step(pre, ctls, theta, q, about_y, post),
    ensures
        post == (SimModel { state: post.state, ..pre }),
        r.1.is_phase(),
        rotation(rd, theta, about_y) == r.0.scaled(r.1),
        ctls.len() > 0 ==> r.0 == rotation(rd, theta, about_y),
        rd.vector(post.state) == act(
            r.0,
            locations(pre.ids, ctls),
            pre.ids[q] as nat,
            rd.vector(pre.state),
        ),
{
    let (m00, m01) = choose|m00: A, m01: A| #[trigger]
        rotation_diagonal(theta, m00) && #[trigger] rotation_upper(theta, about_y, m01) && {
            ||| nearly_zero(m00, true) && half_turn_step(pre, ctls, theta, q, about_y, post)
            ||| nearly_zero(m00, false) && nearly_zero(m01, true) && controls_phase(
                pre,
                ctls,
                m00,
                post,
            )
            ||| nearly_zero(m00, false) && nearly_zero(m01, false) && exists|m10: A| #[trigger]
                rotation_lower(about_y, m01, m10) && mix_step(
                    pre,
                    ctls,
                    q,
                    Mix::Rotation { m00, m01, m10 },
                    post,
                )
        };
    lemma_rotation_numbers(rd, theta, about_y, m00, m01);
    lemma_targets(pre, ctls, q);
    let (locs, loc) = (locations(pre.ids, ctls), pre.ids[q] as nat);
    let psi = rd.vector(pre.state);
    let m = rotation(rd, theta, about_y);
    let (c, s) = (rd.cos_half(theta), rd.sin_half(theta));
    special_turns(c, s);
    phase_examples();
    scaled_twice(m, Cx::one(), Cx::one());
    if nearly_zero(m00, true) && half_turn_step(pre, ctls, theta, q, about_y, post) {
        let gate = half_turn_gate::<A>(about_y);
        let (mid, phase) = choose|mid: SimModel<A>, phase: A| #[trigger]
            transform_step(pre, ctls, q, gate, mid) && #[trigger] rotation_upper(
                theta,
                false,
                phase,
            ) && controls_phase(mid, ctls, phase, post);
        let pauli = rd.transform_matrix(gate);
        let z = Cx { re: 0 as real, im: -s };
        lemma_transform_vector(rd, pre, ctls, q, gate, mid);
        lemma_rotation_numbers(rd, theta, false, m00, phase);
        if ctls.len() == 0 {
            (pauli, z)
        } else {
            lemma_controls_phase(rd, mid, ctls, q, phase, pauli, psi, post);
            (m, Cx::one())
        }
    } else if nearly_zero(m01, true) && controls_phase(pre, ctls, m00, post) {
        act_identity(locs, loc, psi);
        if ctls.len() == 0 {
            (identity(), Cx::of(c))
        } else {
            lemma_controls_phase(rd, pre, ctls, q, m00, identity(), psi, post);
            (m, Cx::one())
        }
    } else {
        let m10 = choose|m10: A| #[trigger]
            rotation_lower(about_y, m01, m10) && mix_step(
                pre,
                ctls,
                q,
                Mix::Rotation { m00, m01, m10 },
                post,
            );
        lemma_mix_acts(rd, pre.state, locs, loc, Mix::Rotation { m00, m01, m10 }, post.state);
        (m, Cx::one())
    }
}

/// A phase on the controls after a gate.
proof fn lemma_controls_phase<A: Amplitude>(
    rd: Reading<A>,
    pre: SimModel<A>,
    ctls: Seq<usize>,
    q: usize,
    phase: A,
    m: Mat2,
    psi: Vector,
    post: SimModel<A>,
)
    requires
        rd.exact(),
        ids_apart(pre.ids),
        pre.applicable(ctls, q),
        ctls.len() > 0,
        controls_phase(pre, ctls, phase, post),
        rd.vector(pre.state) == act(m, locations(pre.ids, ctls), pre.ids[q] as nat, psi),
    ensures
        post == (SimModel { state: post.state, ..pre }),
        rd.vector(post.state) == act(
            m.scaled(rd.num(phase)),
            locations(pre.ids, ctls),
            pre.ids[q] as nat,
            psi,
        ),
{
    let locs = locations(pre.ids, ctls);
    lemma_targets(pre, ctls, q);
    lemma_first_applicable(pre, ctls, q);
    lemma_targets(pre, ctls.drop_first(), ctls[0]);
    lemma_transform_vector(rd, pre, ctls.drop_first(), ctls[0], Transform::Phase(phase), post);
    assert(locations(pre.ids, ctls.drop_first()) =~= locs.drop_first());
    phase_after(rd.num(phase), m, locs, pre.ids[q] as nat, psi);
}

/// The half of an opposite angle.
pub(crate) proof fn lemma_opposite<A: Amplitude>(rd: Reading<A>, a: A::Real, r: A::Real)
    requires
        rd.exact(),
        real_negated(a, r),
    ensures
        rd.cos_half(r) == rd.cos_half(a),
        rd.sin_half(r) == -rd.sin_half(a),
{
    let x = half(rd.val(a));
    assert(rd.turns_back(x));
    assert(half(rd.val(r)) == -x);
}

/// Flushing a queued rotation about X acts by a matrix that is that of the
/// rotation up to a phase.
pub(crate) proof fn lemma_flush_rx_vector<A: Amplitude>(
    rd: Reading<A>,
    pre: SimModel<A>,
    q: usize,
    post: SimModel<A>,
) -> (r: (Mat2, Cx))
    requires
        rd.exact(),
        ids_apart(pre.ids),
        pre.ids.contains_key(q),
        flush_rx_step(pre, q, post),
    ensures
        post == (SimModel { state: post.state, rx: pre.rx.remove(q), ..pre }),
        r.1.is_phase(),
        rd.queued_rx(pre, q) == r.0.scaled(r.1),
        rd.vector(post.state) == act(r.0, no_controls(), pre.ids[q] as nat, rd.vector(pre.state)),
{
    lemma_applicable_alone(pre, q);
    if pre.rx.contains_key(q) {
        let mid = choose|mid: SimModel<A>| #[trigger]
            rotation_step(pre, no_controls(), pre.rx[q], q, false, mid) && post == (SimModel {
                rx: mid.rx.remove(q),
                ..mid
            });
        lemma_rotation_vector(rd, pre, no_controls(), pre.rx[q], q, false, mid)
    } else {
        assert(pre.rx.remove(q) =~= pre.rx);
        act_identity(no_controls(), pre.ids[q] as nat, rd.vector(pre.state));
        phase_examples();
        scaled_twice(identity(), Cx::one(), Cx::one());
        (identity(), Cx::one())
    }
}

/// Flushing a queued rotation about X leaves the qubits in their state.
pub(crate) proof fn lemma_flush_rx_applied<A: Amplitude>(
    rd: Reading<A>,
    pre: SimModel<A>,
    q: usize,
    post: SimModel<A>,
)
    requires
        rd.exact(),
        ids_apart(pre.ids),
        pre.ids.contains_key(q),
        !pre.h.contains(q as nat),
        flush_rx_step(pre, q, post),
    ensures
        nothing_applied(rd, pre, post),
{
    let (w, z) = lemma_flush_rx_vector(rd, pre, q, post);
    let y = rd.queued_ry(pre, q);
    after_identity(identity());
    after_identity(y);
    after_identity(w.scaled(z));
    after_identity(y.after(w.scaled(z)));
    scaled_after(y, w, z);
    lemma_unscaled(y.after(w), z);
    lemma_alone(rd, pre, q, w, identity(), z.conj(), post);
}

/// Flushing a queued rotation about Y leaves the qubits in their state.
pub(crate) proof fn lemma_flush_ry_applied<A: Amplitude>(
    rd: Reading<A>,
    pre: SimModel<A>,
    q: usize,
    post: SimModel<A>,
)
    requires
        rd.exact(),
        ids_apart(pre.ids),
        pre.ids.contains_key(q),
        !pre.h.contains(q as nat),
        !pre.rx.contains_key(q),
        flush_ry_step(pre, q, post),
    ensures
        nothing_applied(rd, pre, post),
{
    if pre.ry.contains_key(q) {
        let mid = choose|mid: SimModel<A>| #[trigger]
            rotation_step(pre, no_controls(), pre.ry[q], q, true, mid) && post == (SimModel {
                ry: mid.ry.remove(q),
                ..mid
            });
        lemma_applicable_alone(pre, q);
        let (w, z) = lemma_rotation_vector(rd, pre, no_controls(), pre.ry[q], q, true, mid);
        after_identity(identity());
        after_identity(w);
        after_identity(w.scaled(z));
        lemma_unscaled(w, z);
        lemma_alone(rd, pre, q, w, identity(), z.conj(), post);
    } else {
        lemma_nothing(rd, pre);
    }
}

/// Flushing one qubit leaves the qubits in their state.
pub(crate) proof fn lemma_flush_one_applied<A: Amplitude>(
    rd: Reading<A>,
    pre: SimModel<A>,
    q: usize,
    level: FlushLevel,
    post: SimModel<A>,
)
    requires
        rd.exact(),
        ids_apart(pre.ids),
        pre.ids.contains_key(q),
        flush_one(pre, q, level, post),
    ensures
        nothing_applied(rd, pre, post),
{
    match level {
        FlushLevel::H => {
            lemma_flush_h_applied(rd, pre, q, post);
        },
        FlushLevel::HRx => {
            let a = choose|a: SimModel<A>| #[trigger]
                flush_h_step(pre, q, a) && flush_rx_step(a, q, post);
            lemma_flush_h_applied(rd, pre, q, a);
            lemma_flush_h_keeps(pre, q, a);
            lemma_flush_rx_applied(rd, a, q, post);
            lemma_still(rd, pre, a, post);
        },
        FlushLevel::HRxRy => {
            let (a, b) = choose|a: SimModel<A>, b: SimModel<A>| #[trigger]
                flush_h_step(pre, q, a) && #[trigger] flush_rx_step(a, q, b) && flush_ry_step(
                    b,
                    q,
                    post,
                );
            lemma_flush_h_applied(rd, pre, q, a);
            lemma_flush_h_keeps(pre, q, a);
            lemma_flush_rx_applied(rd, a, q, b);
            lemma_flush_rx_keeps(a, q, b);
            lemma_flush_ry_applied(rd, b, q, post);
            lemma_still(rd, pre, a, b);
            lemma_still(rd, pre, b, post);
        },
    }
}

/// Flushing leaves the qubits in their state, in arithmetic that does not
/// round.
pub proof fn law_flush_changes_nothing<A: Amplitude>(
    rd: Reading<A>,
    pre: SimModel<A>,
    qubits: Seq<usize>,
    level: FlushLevel,
    post: SimModel<A>,
)
    requires
        rd.exact(),
        ids_apart(pre.ids),
        pre.allocated(qubits),
        flush_step(pre, qubits, level, post),
    ensures
        nothing_applied(rd, pre, post),
        post.ids == pre.ids,
    decreases qubits.len(),
{
    if qubits.len() > 0 {
        let rest = qubits.drop_last();
        let q = qubits.last();
        let mid = choose|mid: SimModel<A>|
            flush_step(pre, rest, level, mid) && #[trigger] flush_one(mid, q, level, post);
        assert(qubits[qubits.len() - 1] == q);
        assert forall|i: int| 0 <= i < rest.len() implies pre.ids.contains_key(
            #[trigger] rest[i],
        ) by {
            assert(rest[i] == qubits[i]);
        }
        law_flush_changes_nothing(rd, pre, rest, level, mid);
        lemma_flush_one_applied(rd, mid, q, level, post);
        lemma_still(rd, pre, mid, post);
    } else {
        lemma_nothing(rd, pre);
    }
}

} // verus!
