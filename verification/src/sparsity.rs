//! The laws of what a sparse state holds: in arithmetic that does not round and
//! tells zero from other numbers, there is an entry for each amplitude that is
//! not zero, and no other.
use crate::arith::{nearly_zero, real_frac_1_sqrt_2, scaled, Amplitude};
use crate::bits::positions;
use crate::exact::{real_units, Cx};
use crate::fxmap::lists;
use crate::matrix::Mat2;
use crate::model::{
    all_set, finished, gate_entry, gate_on_state, image, image_value, kept, kept_finished,
    locations, lone_value, mix_entry, mix_on_state, pair_value, FlushLevel, Mix, SimModel,
    Transform,
};
use crate::norms::{norm2, norm2_times};
use crate::reading::Reading;
use crate::steps::{
    cleared, collapsed, collapsed_entry, controls_phase, exchanged, flush_h_step, flush_one,
    flush_rx_step, flush_ry_step, flush_step, hadamard_step, half_turn_gate, half_turn_step,
    mix_step, named_phase, no_controls, normalizer, phase_step, rotation_diagonal, rotation_lower,
    rotation_step, rotation_upper, state_exchanged, tally, transform_step, PhaseGate,
};
use vstd::prelude::*;

verus! {

/// Whether no entry of the sparse state stands for zero.
pub open spec fn no_zeros<A: Amplitude>(rd: Reading<A>, state: Map<Set<nat>, A>) -> bool {
    forall|k: Set<nat>| #[trigger] state.contains_key(k) ==> rd.num(state[k]) != Cx::zero()
}

/// Whether no entry of the matrix is zero.
pub open spec fn full(m: Mat2) -> bool {
    m.a != Cx::zero() && m.b != Cx::zero() && m.c != Cx::zero() && m.d != Cx::zero()
}

// ---------------------------------------------------------------------------
// Products that are not zero
// ---------------------------------------------------------------------------

proof fn real_square(x: real)
    by (nonlinear_arith)
    ensures
        x * x >= 0 as real,
        x != 0 as real ==> x * x > 0 as real,
{
}

proof fn real_positive(x: real, y: real)
    by (nonlinear_arith)
    requires
        x > 0 as real,
        y > 0 as real,
    ensures
        x * y > 0 as real,
{
}

/// A product is zero only if one of its factors is.
pub(crate) proof fn times_nonzero(x: Cx, y: Cx)
    requires
        x != Cx::zero(),
        y != Cx::zero(),
    ensures
        x.times(y) != Cx::zero(),
{
    norm2_times(x, y);
    real_square(x.re);
    real_square(x.im);
    real_square(y.re);
    real_square(y.im);
    real_positive(norm2(x), norm2(y));
    real_units(0 as real);
}

// ---------------------------------------------------------------------------
// The steps on the sparse state
// ---------------------------------------------------------------------------

/// A gate that works entry by entry leaves no entry that stands for zero.
pub proof fn law_gate_leaves_no_zeros<A: Amplitude>(
    rd: Reading<A>,
    pre: Map<Set<nat>, A>,
    ctls: Seq<usize>,
    target: nat,
    gate: Transform<A>,
    post: Map<Set<nat>, A>,
)
    requires
        rd.tells_zero(),
        gate_on_state(pre, ctls, target, gate, post),
    ensures
        no_zeros(rd, post),
{
    assert forall|k: Set<nat>| #[trigger] post.contains_key(k) implies rd.num(post[k])
        != Cx::zero() by {
        assert(gate_entry(pre, ctls, target, gate, post, k));
        let from = image(k, ctls, target, gate);
        let v = choose|v: A| #[trigger]
            image_value(pre, from, ctls, target, gate, v) && kept(v, k, post);
        assert(nearly_zero(v, false));
    }
}

/// A mixing gate none of whose factors is zero makes no entry that stands for
/// zero.
pub proof fn law_mix_makes_no_zeros<A: Amplitude>(
    rd: Reading<A>,
    pre: Map<Set<nat>, A>,
    ctls: Seq<usize>,
    target: nat,
    mix: Mix<A>,
    post: Map<Set<nat>, A>,
)
    requires
        rd.exact(),
        rd.tells_zero(),
        full(rd.mix_matrix(mix)),
        no_zeros(rd, pre),
        mix_on_state(pre, ctls, target, mix, post),
    ensures
        no_zeros(rd, post),
{
    assert forall|k: Set<nat>| #[trigger] post.contains_key(k) implies rd.num(post[k])
        != Cx::zero() by {
        assert(mix_entry(pre, ctls, target, mix, post, k));
        let (k0, k1) = (k.remove(target), k.insert(target));
        if !all_set(k, ctls) {
            assert(pre.contains_key(k));
        } else if pre.contains_key(k0) && pre.contains_key(k1) {
            let v = choose|v: A| #[trigger]
                pair_value(mix, k.contains(target), pre[k0], pre[k1], v) && kept_finished(
                    mix,
                    v,
                    k,
                    post,
                );
            assert(nearly_zero(v, false) && finished(mix, v, post[k]));
            if let Mix::Hadamard(f) = mix {
                times_nonzero(rd.num(v), Cx::of(rd.val(f)));
            }
        } else if pre.contains_key(k0) {
            lemma_lone_nonzero(rd, mix, false, k.contains(target), pre[k0], post[k]);
        } else {
            lemma_lone_nonzero(rd, mix, true, k.contains(target), pre[k1], post[k]);
        }
    }
}

proof fn lemma_lone_nonzero<A: Amplitude>(
    rd: Reading<A>,
    mix: Mix<A>,
    from: bool,
    to: bool,
    v: A,
    r: A,
)
    requires
        rd.exact(),
        full(rd.mix_matrix(mix)),
        rd.num(v) != Cx::zero(),
        lone_value(mix, from, to, v, r),
    ensures
        rd.num(r) != Cx::zero(),
{
    match mix {
        Mix::Hadamard(f) => {
            times_nonzero(rd.num(v), Cx::of(rd.val(f)));
        },
        Mix::Rotation { m00, m01, m10 } => {
            times_nonzero(rd.num(v), rd.num(m00));
            times_nonzero(rd.num(v), rd.num(m01));
            times_nonzero(rd.num(v), rd.num(m10));
        },
    }
}

/// The collapse of the state leaves no entry that stands for zero.
pub proof fn law_collapse_leaves_no_zeros<A: Amplitude>(
    rd: Reading<A>,
    pre: Map<Set<nat>, A>,
    locs: Seq<usize>,
    odd: bool,
    post: Map<Set<nat>, A>,
)
    requires
        rd.tells_zero(),
        collapsed(pre, locs, odd, post),
    ensures
        no_zeros(rd, post),
{
    let mask = positions(locs);
    let (list, total, factor) = choose|list: Seq<(Set<nat>, A)>, total: A::Real, factor: A::Real|
        #[trigger]
        lists(list, pre) && #[trigger] tally(list, mask, odd, total) && #[trigger] normalizer(
            total,
            factor,
        ) && forall|k: Set<nat>| #[trigger] collapsed_entry(pre, mask, odd, factor, post, k);
    assert forall|k: Set<nat>| #[trigger] post.contains_key(k) implies rd.num(post[k])
        != Cx::zero() by {
        assert(collapsed_entry(pre, mask, odd, factor, post, k));
        let v = choose|v: A| #[trigger] scaled(pre[k], factor, v) && kept(v, k, post);
        assert(nearly_zero(v, false));
    }
}

/// The reset of a location, and the exchange of two, make no entry that stands
/// for zero.
pub proof fn law_moves_make_no_zeros<A: Amplitude>(
    rd: Reading<A>,
    state: Map<Set<nat>, A>,
    a: nat,
    b: nat,
)
    requires
        no_zeros(rd, state),
    ensures
        no_zeros(rd, cleared(state, a)),
        no_zeros(rd, state_exchanged(state, a, b)),
{
    assert forall|k: Set<nat>| #[trigger] cleared(state, a).contains_key(k) implies rd.num(
        cleared(state, a)[k],
    ) != Cx::zero() by {
        assert(state.contains_key(k.insert(a)));
    }
    assert forall|k: Set<nat>| #[trigger] state_exchanged(state, a, b).contains_key(k) implies rd.num(
        state_exchanged(state, a, b)[k],
    ) != Cx::zero() by {
        assert(state.contains_key(exchanged(k, a, b)));
    }
}

// ---------------------------------------------------------------------------
// The steps that the operations are made of
// ---------------------------------------------------------------------------

pub(crate) proof fn lemma_transform<A: Amplitude>(
    rd: Reading<A>,
    pre: SimModel<A>,
    ctls: Seq<usize>,
    target: usize,
    gate: Transform<A>,
    post: SimModel<A>,
)
    requires
        rd.tells_zero(),
        transform_step(pre, ctls, target, gate, post),
    ensures
        no_zeros(rd, post.state),
{
    law_gate_leaves_no_zeros(
        rd,
        pre.state,
        locations(pre.ids, ctls),
        pre.ids[target] as nat,
        gate,
        post.state,
    );
}

pub(crate) proof fn lemma_phase<A: Amplitude>(
    rd: Reading<A>,
    pre: SimModel<A>,
    ctls: Seq<usize>,
    target: usize,
    gate: PhaseGate,
    post: SimModel<A>,
)
    requires
        rd.tells_zero(),
        phase_step(pre, ctls, target, gate, post),
    ensures
        no_zeros(rd, post.state),
{
    let p = choose|p: A| #[trigger]
        named_phase(gate, p) && transform_step(
            pre,
            ctls,
            target,
            Transform::Phase(p),
            post,
        );
    lemma_transform(rd, pre, ctls, target, Transform::Phase(p), post);
}

/// The H gate past whatever is queued makes no entry that stands for zero.
pub proof fn law_hadamard_makes_no_zeros<A: Amplitude>(
    rd: Reading<A>,
    pre: SimModel<A>,
    ctls: Seq<usize>,
    target: usize,
    post: SimModel<A>,
)
    requires
        rd.exact(),
        rd.tells_zero(),
        no_zeros(rd, pre.state),
        hadamard_step(pre, ctls, target, post),
    ensures
        no_zeros(rd, post.state),
{
    let f = choose|f: A::Real| #[trigger]
        real_frac_1_sqrt_2(f) && mix_step(pre, ctls, target, Mix::Hadamard(f), post);
    law_mix_makes_no_zeros(
        rd,
        pre.state,
        locations(pre.ids, ctls),
        pre.ids[target] as nat,
        Mix::Hadamard(f),
        post.state,
    );
}

/// A rotation past whatever is queued makes no entry that stands for zero.
pub proof fn law_rotation_makes_no_zeros<A: Amplitude>(
    rd: Reading<A>,
    pre: SimModel<A>,
    ctls: Seq<usize>,
    theta: A::Real,
    target: usize,
    about_y: bool,
    post: SimModel<A>,
)
    requires
        rd.exact(),
        rd.tells_zero(),
        no_zeros(rd, pre.state),
        rotation_step(pre, ctls, theta, target, about_y, post),
    ensures
        no_zeros(rd, post.state),
{
    let (m00, m01) = choose|m00: A, m01: A| #[trigger]
        rotation_diagonal(theta, m00) && #[trigger] rotation_upper(theta, about_y, m01) && {
            ||| nearly_zero(m00, true) && half_turn_step(pre, ctls, theta, target, about_y, post)
            ||| nearly_zero(m00, false) && nearly_zero(m01, true) && controls_phase(
                pre,
                ctls,
                m00,
                post,
            )
            ||| nearly_zero(m00, false) && nearly_zero(m01, false) && exists|m10: A| #[trigger]
                rotation_lower(about_y, m01, m10) && mix_step(
                    pre,
                    ctls,
                    target,
                    Mix::Rotation { m00, m01, m10 },
                    post,
                )
        };
    if nearly_zero(m00, true) && half_turn_step(pre, ctls, theta, target, about_y, post) {
        let gate = half_turn_gate::<A>(about_y);
        let (mid, phase) = choose|mid: SimModel<A>, phase: A| #[trigger]
            transform_step(pre, ctls, target, gate, mid) && #[trigger] rotation_upper(
                theta,
                false,
                phase,
            ) && controls_phase(mid, ctls, phase, post);
        lemma_transform(rd, pre, ctls, target, gate, mid);
        lemma_controls(rd, mid, ctls, phase, post);
    } else if nearly_zero(m01, true) && controls_phase(pre, ctls, m00, post) {
        lemma_controls(rd, pre, ctls, m00, post);
    } else {
        let m10 = choose|m10: A| #[trigger]
            rotation_lower(about_y, m01, m10) && mix_step(
                pre,
                ctls,
                target,
                Mix::Rotation { m00, m01, m10 },
                post,
            );
        law_mix_makes_no_zeros(
            rd,
            pre.state,
            locations(pre.ids, ctls),
            pre.ids[target] as nat,
            Mix::Rotation { m00, m01, m10 },
            post.state,
        );
    }
}

proof fn lemma_controls<A: Amplitude>(
    rd: Reading<A>,
    pre: SimModel<A>,
    ctls: Seq<usize>,
    phase: A,
    post: SimModel<A>,
)
    requires
        rd.tells_zero(),
        no_zeros(rd, pre.state),
        controls_phase(pre, ctls, phase, post),
    ensures
        no_zeros(rd, post.state),
{
    if ctls.len() > 0 {
        lemma_transform(rd, pre, ctls.drop_first(), ctls[0], Transform::Phase(phase), post);
    }
}

proof fn lemma_flush_one<A: Amplitude>(
    rd: Reading<A>,
    pre: SimModel<A>,
    q: usize,
    level: FlushLevel,
    post: SimModel<A>,
)
    requires
        rd.exact(),
        rd.tells_zero(),
        no_zeros(rd, pre.state),
        flush_one(pre, q, level, post),
    ensures
        no_zeros(rd, post.state),
{
    match level {
        FlushLevel::H => lemma_flush_h(rd, pre, q, post),
        FlushLevel::HRx => {
            let a = choose|a: SimModel<A>| #[trigger]
                flush_h_step(pre, q, a) && flush_rx_step(a, q, post);
            lemma_flush_h(rd, pre, q, a);
            lemma_flush_rx(rd, a, q, post);
        },
        FlushLevel::HRxRy => {
            let (a, b) = choose|a: SimModel<A>, b: SimModel<A>| #[trigger]
                flush_h_step(pre, q, a) && #[trigger] flush_rx_step(a, q, b) && flush_ry_step(
                    b,
                    q,
                    post,
                );
            lemma_flush_h(rd, pre, q, a);
            lemma_flush_rx(rd, a, q, b);
            if b.ry.contains_key(q) {
                let mid = choose|mid: SimModel<A>| #[trigger]
                    rotation_step(b, no_controls(), b.ry[q], q, true, mid) && post == (SimModel {
                        ry: mid.ry.remove(q),
                        ..mid
                    });
                law_rotation_makes_no_zeros(rd, b, no_controls(), b.ry[q], q, true, mid);
            }
        },
    }
}

proof fn lemma_flush_h<A: Amplitude>(
    rd: Reading<A>,
    pre: SimModel<A>,
    q: usize,
    post: SimModel<A>,
)
    requires
        rd.exact(),
        rd.tells_zero(),
        no_zeros(rd, pre.state),
        flush_h_step(pre, q, post),
    ensures
        no_zeros(rd, post.state),
{
    if pre.h.contains(q as nat) {
        let mid = choose|mid: SimModel<A>| #[trigger]
            hadamard_step(pre, no_controls(), q, mid) && post == (SimModel {
                h: mid.h.remove(q as nat),
                ..mid
            });
        law_hadamard_makes_no_zeros(rd, pre, no_controls(), q, mid);
    }
}

proof fn lemma_flush_rx<A: Amplitude>(
    rd: Reading<A>,
    pre: SimModel<A>,
    q: usize,
    post: SimModel<A>,
)
    requires
        rd.exact(),
        rd.tells_zero(),
        no_zeros(rd, pre.state),
        flush_rx_step(pre, q, post),
    ensures
        no_zeros(rd, post.state),
{
    if pre.rx.contains_key(q) {
        let mid = choose|mid: SimModel<A>| #[trigger]
            rotation_step(pre, no_controls(), pre.rx[q], q, false, mid) && post == (SimModel {
                rx: mid.rx.remove(q),
                ..mid
            });
        law_rotation_makes_no_zeros(rd, pre, no_controls(), pre.rx[q], q, false, mid);
    }
}

/// Flushing makes no entry that stands for zero.
pub proof fn law_flush_makes_no_zeros<A: Amplitude>(
    rd: Reading<A>,
    pre: SimModel<A>,
    qubits: Seq<usize>,
    level: FlushLevel,
    post: SimModel<A>,
)
    requires
        rd.exact(),
        rd.tells_zero(),
        no_zeros(rd, pre.state),
        flush_step(pre, qubits, level, post),
    ensures
        no_zeros(rd, post.state),
    decreases qubits.len(),
{
    if qubits.len() > 0 {
        let mid = choose|mid: SimModel<A>|
            flush_step(pre, qubits.drop_last(), level, mid) && #[trigger] flush_one(
                mid,
                qubits.last(),
                level,
                post,
            );
        law_flush_makes_no_zeros(rd, pre, qubits.drop_last(), level, mid);
        lemma_flush_one(rd, mid, qubits.last(), level, post);
    }
}

} // verus!
