//! The weight of the whole state: in arithmetic that does not round, it is one
//! at the start and stays one.
use crate::applied::{gate_applied, nothing_applied};
use crate::arith::{one, real_less, real_zero, Amplitude};
use crate::bits::{odd_parity, positions};
use crate::bookkeeping::{
    law_allocate_then_release, law_measured_parity, law_measured_queues, law_new_qubit_is_zero,
    lemma_measured_new,
};
use crate::exact::{
    i_squared, real_comm, real_neg, real_units, times_comm, times_negate, times_units, Cx,
};
use crate::fxmap::{enumerates, lists};
use crate::gates::{hadamard, identity, pauli_x, pauli_y, phase_matrix, rot_x, rot_y, rot_z};
use crate::logical::lemma_targets;
use crate::matrix::{act, Mat2, Vector};
use crate::measuring::{
    law_measure, law_measured_probability, law_measured_weight, law_outcome, lemma_collapsed_vector,
    lemma_logical_weight, lemma_phase_weight, lemma_places, lemma_tally_state, parity_is,
    parity_weight, places,
};
use crate::model::{ids_apart, in_use, locations, FlushLevel, SimModel};
use crate::norms::{queued_unitary, unitary};
use crate::reading::Reading;
use crate::readout::law_qubits_can_be_listed;
use crate::sim::{lemma_collapsed_entries, lemma_parity_of_one};
use crate::steps::{
    allocate_step, cleared, flush_step, just, measure_step, measured, probability, release_step,
    started, tally,
};
use crate::totals::{
    blind, point, total, total_agree, total_linear, total_order, total_shifted, total_split,
    total_zero, unitary_total, weights,
};
use vstd::prelude::*;

verus! {

/// The choice of all basis states.
pub open spec fn every() -> spec_fn(Set<nat>) -> bool {
    |k: Set<nat>| true
}

/// The sum of the squared absolute values of all amplitudes.
pub open spec fn weight(psi: Vector, places: Seq<nat>) -> real {
    total(weights(every(), psi), places, Set::empty())
}

/// Whether the squared absolute values of the amplitudes of the state that the
/// qubits are in add up to one.
pub open spec fn normalized<A: Amplitude>(rd: Reading<A>, s: SimModel<A>) -> bool {
    forall|order: Seq<usize>| #[trigger]
        enumerates(order, s.ids.dom()) ==> weight(rd.logical(s, order), places(s.ids, order))
            == 1 as real
}

/// The matrices of all gates are unitary.
pub proof fn law_gates_unitary(f: real, c: real, s: real, p: Cx)
    ensures
        unitary(identity()),
        unitary(pauli_x()),
        unitary(pauli_y()),
        (2 as real) * (f * f) == (1 as real) ==> unitary(hadamard(f)),
        c * c + s * s == 1 as real ==> unitary(rot_x(c, s)) && unitary(rot_y(c, s)) && unitary(
            rot_z(c, s),
        ),
        p.is_phase() ==> unitary(phase_matrix(p)),
{
    queued_unitary(f, c, s);
    let i = Cx::i();
    assert(Cx::zero().conj() == Cx::zero());
    assert(Cx::one().conj() == Cx::one());
    assert(i.conj() == i.negate());
    assert(i.negate().conj() == i);
    times_units(Cx::zero());
    times_units(Cx::one());
    times_units(i);
    times_units(i.negate());
    times_units(p);
    times_units(p.conj());
    i_squared();
    times_negate(i, i);
    let (u, v) = (Cx { re: c, im: -s }, Cx { re: c, im: s });
    times_units(u);
    times_units(v);
    assert(u.conj() == v && v.conj() == u);
    times_comm(u, v);
    assert(v.times(u) == Cx::of(c * c + s * s)) by {
        reveal(Cx::times);
        real_neg(s, s);
        real_neg(c, s);
        real_comm(c, s);
    }
    times_units(u.conj());
    times_units(v.conj());
}

/// A gate with a unitary matrix keeps the state normalized.
pub proof fn law_gate_keeps_weight<A: Amplitude>(
    rd: Reading<A>,
    pre: SimModel<A>,
    ctls: Seq<usize>,
    target: usize,
    m: Mat2,
    post: SimModel<A>,
)
    requires
        ids_apart(pre.ids),
        pre.applicable(ctls, target),
        unitary(m),
        gate_applied(rd, pre, ctls, target, m, post),
        normalized(rd, pre),
    ensures
        normalized(rd, post),
{
    lemma_targets(pre, ctls, target);
    assert forall|order: Seq<usize>| #[trigger] enumerates(order, post.ids.dom()) implies weight(
        rd.logical(post, order),
        places(post.ids, order),
    ) == 1 as real by {
        let (locs, loc) = (locations(pre.ids, ctls), pre.ids[target] as nat);
        let psi = rd.logical(pre, order);
        lemma_places(pre.ids, order);
        lemma_phase_weight(
            every(),
            rd.logical(post, order),
            act(m, locs, loc, psi),
            places(pre.ids, order),
        );
        unitary_total(every(), m, locs, loc, psi, places(pre.ids, order), Set::empty());
    }
}

/// What does nothing to the qubits keeps the state normalized.
pub proof fn law_nothing_keeps_weight<A: Amplitude>(
    rd: Reading<A>,
    pre: SimModel<A>,
    post: SimModel<A>,
)
    requires
        nothing_applied(rd, pre, post),
        normalized(rd, pre),
    ensures
        normalized(rd, post),
{
    assert forall|order: Seq<usize>| #[trigger] enumerates(order, post.ids.dom()) implies weight(
        rd.logical(post, order),
        places(post.ids, order),
    ) == 1 as real by {
        lemma_phase_weight(
            every(),
            rd.logical(post, order),
            rd.logical(pre, order),
            places(pre.ids, order),
        );
    }
}

/// The weight of the state vector is that of the state that the qubits are in.
proof fn lemma_vector_weight<A: Amplitude>(rd: Reading<A>, s: SimModel<A>, order: Seq<usize>)
    requires
        rd.exact(),
        ids_apart(s.ids),
        enumerates(order, s.ids.dom()),
    ensures
        weight(rd.logical(s, order), places(s.ids, order)) == weight(
            rd.vector(s.state),
            places(s.ids, order),
        ),
{
    lemma_places(s.ids, order);
    assert forall|i: int| 0 <= i < order.len() implies places(s.ids, order).contains(
        s.ids[#[trigger] order[i]] as nat,
    ) && (rd.queued(s, order[i]) == identity() || blind(every(), s.ids[order[i]] as nat)) by {
        assert(order.contains(order[i]));
    }
    lemma_logical_weight(
        rd,
        s,
        every(),
        order,
        rd.vector(s.state),
        places(s.ids, order),
    );
}

/// The weights of both parities add up to the whole.
proof fn lemma_both_parities(psi: Vector, mask: Set<nat>, locs: Seq<nat>)
    ensures
        weight(psi, locs) == parity_weight(psi, mask, true, locs) + parity_weight(
            psi,
            mask,
            false,
            locs,
        ),
{
    let f = weights(parity_is(mask, true), psi);
    let g = weights(parity_is(mask, false), psi);
    let h = weights(every(), psi);
    assert forall|k: Set<nat>| #[trigger] h(k) == f(k) + (1 as real) * g(k) by {
        real_units(g(k));
    }
    total_linear(f, g, h, 1 as real, locs, Set::empty());
    real_units(total(g, locs, Set::empty()));
}

/// The outcome of a measurement of a normalized state has a positive weight,
/// for any sample from zero up to one.
pub proof fn law_outcome_possible<A: Amplitude>(
    rd: Reading<A>,
    pre: SimModel<A>,
    ids: Seq<usize>,
    sample: A::Real,
    odd: bool,
    post: SimModel<A>,
    order: Seq<usize>,
)
    requires
        rd.exact(),
        pre.wf(),
        normalized(rd, pre),
        pre.allocated(ids),
        0 as real <= rd.val(sample) < 1 as real,
        measure_step(pre, ids, sample, odd, post),
        enumerates(order, pre.ids.dom()),
    ensures
        parity_weight(
            rd.logical(pre, order),
            positions(locations(pre.ids, ids)),
            odd,
            places(pre.ids, order),
        ) > 0 as real,
{
    law_outcome(rd, pre, ids, sample, odd, post, order);
    lemma_both_parities(
        rd.logical(pre, order),
        positions(locations(pre.ids, ids)),
        places(pre.ids, order),
    );
}

/// A measurement keeps the state normalized, for any sample from zero up to
/// one.
pub proof fn law_measure_keeps_weight<A: Amplitude>(
    rd: Reading<A>,
    pre: SimModel<A>,
    ids: Seq<usize>,
    sample: A::Real,
    odd: bool,
    post: SimModel<A>,
)
    requires
        rd.exact(),
        pre.wf(),
        normalized(rd, pre),
        pre.allocated(ids),
        0 as real <= rd.val(sample) < 1 as real,
        measure_step(pre, ids, sample, odd, post),
    ensures
        normalized(rd, post),
{
    let mask = positions(locations(pre.ids, ids));
    law_measured_queues(pre, ids, sample, odd, post);
    assert forall|order: Seq<usize>| #[trigger] enumerates(order, post.ids.dom()) implies weight(
        rd.logical(post, order),
        places(post.ids, order),
    ) == 1 as real by {
        law_outcome_possible(rd, pre, ids, sample, odd, post, order);
        let factor = law_measure(rd, pre, ids, sample, odd, post, order);
        law_measured_weight(rd, pre, mask, odd, factor, order, post);
        lemma_both_parities(rd.logical(post, order), mask, places(pre.ids, order));
    }
}

/// A measurement of a normalized state, for any sample from zero up to one: the
/// qubits are where they were with nothing queued on them, every entry has the
/// measured parity, the state is normalized, and the probability of an odd
/// parity is then one or zero.
pub proof fn law_measurement<A: Amplitude>(
    rd: Reading<A>,
    pre: SimModel<A>,
    ids: Seq<usize>,
    sample: A::Real,
    odd: bool,
    mid: SimModel<A>,
    p: A::Real,
    post: SimModel<A>,
)
    requires
        rd.exact(),
        pre.wf(),
        normalized(rd, pre),
        pre.allocated(ids),
        0 as real <= rd.val(sample) < 1 as real,
        measure_step(pre, ids, sample, odd, mid),
        flush_step(mid, ids, FlushLevel::HRxRy, post),
        probability(post.state, locations(post.ids, ids), p),
    ensures
        mid.ids == pre.ids,
        forall|i: int| 0 <= i < ids.len() ==> mid.nothing_queued(#[trigger] ids[i]),
        forall|k: Set<nat>| #[trigger]
            mid.state.contains_key(k) ==> odd_parity(k, positions(locations(mid.ids, ids))) == odd,
        normalized(rd, mid),
        rd.val(p) == if odd {
            1 as real
        } else {
            0 as real
        },
{
    let order = law_qubits_can_be_listed(pre);
    law_measured_queues(pre, ids, sample, odd, mid);
    law_measured_parity(pre, ids, sample, odd, mid);
    law_measure_keeps_weight(rd, pre, ids, sample, odd, mid);
    law_outcome_possible(rd, pre, ids, sample, odd, mid, order);
    law_measured_probability(rd, pre, ids, sample, odd, mid, p, post, order);
}

/// A new simulation is normalized.
pub proof fn law_started_weight<A: Amplitude>(rd: Reading<A>, s: SimModel<A>)
    requires
        rd.exact(),
        started(s),
    ensures
        normalized(rd, s),
{
    let v = choose|v: A| #[trigger]
        one(v) && s.state == Map::<Set<nat>, A>::empty().insert(Set::empty(), v);
    assert forall|order: Seq<usize>| #[trigger] enumerates(order, s.ids.dom()) implies weight(
        rd.logical(s, order),
        places(s.ids, order),
    ) == 1 as real by {
        assert(order.len() == 0) by {
            if order.len() > 0 {
                assert(order.to_set().contains(order[0]));
            }
        }
        assert(s.state.contains_key(Set::empty()));
        assert(rd.num(v) == Cx::one());
        real_units(1 as real);
        real_units(0 as real);
    }
}

/// The places that are left without one of the qubits.
proof fn lemma_place_taken(
    ids: Map<usize, usize>,
    order: Seq<usize>,
    id: usize,
    rest: Seq<usize>,
) -> (i: int)
    requires
        ids_apart(ids),
        ids.contains_key(id),
        enumerates(order, ids.dom()),
        enumerates(rest, ids.dom().remove(id)),
    ensures
        0 <= i < order.len(),
        order[i] == id,
        !places(ids, rest).contains(ids[id] as nat),
        places(ids, rest).no_duplicates(),
        places(ids, order).no_duplicates(),
        places(ids, rest).len() == places(ids, order).remove(i).len(),
        places(ids, order).remove(i).no_duplicates(),
        forall|x: nat| #[trigger]
            places(ids, rest).contains(x) == places(ids, order).remove(i).contains(x),
{
    let (l, m) = (places(ids, order), places(ids, rest));
    lemma_places(ids, order);
    assert(order.contains(id));
    let i = choose|i: int| 0 <= i < order.len() && order[i] == id;
    let taken = l.remove(i);
    let loc = ids[id] as nat;
    assert forall|q: usize| #[trigger] rest.contains(q) == (ids.contains_key(q) && q != id) by {
        assert(rest.to_set().contains(q) == rest.contains(q));
    }
    assert forall|a: int, b: int|
        0 <= a < m.len() && 0 <= b < m.len() && a != b implies m[a] != m[b] by {
        assert(rest.contains(rest[a]) && rest.contains(rest[b]));
        assert(ids.contains_key(rest[a]) && ids.contains_key(rest[b]));
    }
    if m.contains(loc) {
        let a = choose|a: int| 0 <= a < m.len() && m[a] == loc;
        assert(rest.contains(rest[a]));
        assert(ids.contains_key(rest[a]) && ids.contains_key(id));
    }
    assert forall|x: nat| #[trigger] m.contains(x) == taken.contains(x) by {
        if m.contains(x) {
            let a = choose|a: int| 0 <= a < m.len() && m[a] == x;
            assert(rest.contains(rest[a]));
            assert(order.contains(rest[a]));
            let b = choose|b: int| 0 <= b < order.len() && order[b] == rest[a];
            if b < i {
                assert(taken[b] == x);
            } else {
                assert(taken[b - 1] == x);
            }
        }
        if taken.contains(x) {
            let a = choose|a: int| 0 <= a < taken.len() && taken[a] == x;
            let b = if a < i {
                a
            } else {
                a + 1
            };
            assert(l[b] == x);
            assert(order[b] != order[i]);
            assert(order.contains(order[b]));
            assert(rest.contains(order[b]));
            let c = choose|c: int| 0 <= c < rest.len() && rest[c] == order[b];
            assert(m[c] == x);
        }
    }
    assert(order.remove(i).no_duplicates());
    assert(order.remove(i).to_set() =~= rest.to_set()) by {
        assert forall|q: usize| order.remove(i).contains(q) == rest.contains(q) by {
            if order.remove(i).contains(q) {
                let a = choose|a: int| 0 <= a < order.remove(i).len() && order.remove(i)[a] == q;
                let b = if a < i {
                    a
                } else {
                    a + 1
                };
                assert(order[b] == q);
                assert(order[b] != order[i]);
                assert(order.contains(q));
            }
            if rest.contains(q) {
                assert(order.contains(q));
                let b = choose|b: int| 0 <= b < order.len() && order[b] == q;
                if b < i {
                    assert(order.remove(i)[b] == q);
                } else {
                    assert(order.remove(i)[b - 1] == q);
                }
            }
        }
    }
    order.remove(i).unique_seq_to_set();
    rest.unique_seq_to_set();
    i
}

/// Allocation keeps the state normalized.
pub proof fn law_allocate_keeps_weight<A: Amplitude>(
    rd: Reading<A>,
    pre: SimModel<A>,
    id: usize,
    post: SimModel<A>,
)
    requires
        rd.exact(),
        pre.wf(),
        post.wf(),
        normalized(rd, pre),
        allocate_step(pre, id, post),
    ensures
        normalized(rd, post),
{
    let loc = post.ids[id] as nat;
    assert(pre.ids.dom() =~= post.ids.dom().remove(id));
    assert forall|order: Seq<usize>| #[trigger] enumerates(order, post.ids.dom()) implies weight(
        rd.logical(post, order),
        places(post.ids, order),
    ) == 1 as real by {
        lemma_places(post.ids, order);
        assert(order.contains(id));
        let n = choose|n: int| 0 <= n < order.len() && order[n] == id;
        let rest = order.remove(n);
        lemma_rest_enumerates(order, n, post.ids.dom());
        assert(enumerates(rest, pre.ids.dom()));
        let i = lemma_place_taken(post.ids, order, id, rest);
        let psi = rd.vector(post.state);
        let f = weights(every(), psi);
        let (l, m) = (places(post.ids, order), places(post.ids, rest));
        assert(m =~= places(pre.ids, rest)) by {
            assert forall|a: int| 0 <= a < rest.len() implies places(pre.ids, rest)[a]
                == places(post.ids, rest)[a] by {
                assert(rest.to_set().contains(rest[a]));
                assert(pre.ids.contains_key(rest[a]));
            }
        }
        lemma_vector_weight(rd, post, order);
        lemma_vector_weight(rd, pre, rest);
        total_split(f, l, i, Set::empty());
        assert(Set::<nat>::empty().remove(loc) =~= Set::<nat>::empty());
        total_order(f, l.remove(i), m, Set::empty());
        total_order(f, l.remove(i), m, Set::empty().insert(loc));
        // No entry has the new bit set.
        let zero = point(Set::empty(), 0 as real);
        assert forall|j: Set<nat>| j.contains(loc) == Set::<nat>::empty().insert(loc).contains(
            loc,
        ) implies #[trigger] f(j) == zero(j) by {
            if pre.state.contains_key(j) {
                assert(in_use(pre.ids, loc));
                let q = choose|q: usize| #[trigger] pre.ids.contains_key(q) && pre.ids[q] == loc;
                assert(post.ids.contains_key(q) && post.ids.contains_key(id));
                assert(q != id);
            }
            real_units(0 as real);
        }
        total_agree(f, zero, loc, m, Set::empty().insert(loc));
        total_zero(zero, m, Set::empty().insert(loc));
    }
}

proof fn lemma_rest_enumerates(order: Seq<usize>, n: int, all: Set<usize>)
    requires
        enumerates(order, all),
        0 <= n < order.len(),
    ensures
        enumerates(order.remove(n), all.remove(order[n])),
{
    let rest = order.remove(n);
    assert forall|q: usize| rest.contains(q) == all.remove(order[n]).contains(q) by {
        assert(order.to_set().contains(q) == order.contains(q));
        if rest.contains(q) {
            let a = choose|a: int| 0 <= a < rest.len() && rest[a] == q;
            let b = if a < n {
                a
            } else {
                a + 1
            };
            assert(order[b] == q);
        }
        if order.contains(q) && q != order[n] {
            let b = choose|b: int| 0 <= b < order.len() && order[b] == q;
            if b < n {
                assert(rest[b] == q);
            } else {
                assert(rest[b - 1] == q);
            }
        }
    }
    assert(rest.to_set() =~= all.remove(order[n]));
}

/// The release of a qubit keeps the state normalized, for any sample from zero
/// up to one.
pub proof fn law_release_keeps_weight<A: Amplitude>(
    rd: Reading<A>,
    pre: SimModel<A>,
    id: usize,
    sample: A::Real,
    post: SimModel<A>,
)
    requires
        rd.exact(),
        pre.wf(),
        post.wf(),
        normalized(rd, pre),
        pre.ids.contains_key(id),
        0 as real <= rd.val(sample) < 1 as real,
        release_step(pre, id, sample, post),
    ensures
        normalized(rd, post),
{
    let (odd, mid) = choose|odd: bool, mid: SimModel<A>| #[trigger]
        measure_step(pre, just(id), sample, odd, mid) && post == (SimModel {
            state: if odd {
                cleared(mid.state, mid.ids[id] as nat)
            } else {
                mid.state
            },
            ids: mid.ids.remove(id),
            ..mid
        });
    law_measure_keeps_weight(rd, pre, just(id), sample, odd, mid);
    law_measured_queues(pre, just(id), sample, odd, mid);
    lemma_measured_bit(pre, id, sample, odd, mid);
    let loc = mid.ids[id] as nat;
    assert forall|rest: Seq<usize>| #[trigger] enumerates(rest, post.ids.dom()) implies weight(
        rd.logical(post, rest),
        places(post.ids, rest),
    ) == 1 as real by {
        let order = rest.push(id);
        lemma_one_more(rest, id, mid.ids.dom());
        let i = lemma_place_taken(mid.ids, order, id, rest);
        let (l, m) = (places(mid.ids, order), places(mid.ids, rest));
        assert(m =~= places(post.ids, rest)) by {
            assert forall|a: int| 0 <= a < rest.len() implies places(post.ids, rest)[a]
                == places(mid.ids, rest)[a] by {
                assert(rest.to_set().contains(rest[a]));
                assert(post.ids.contains_key(rest[a]));
            }
        }
        let none = Set::<nat>::empty();
        let f = weights(every(), rd.vector(mid.state));
        let g = weights(every(), rd.vector(post.state));
        let zero = point(none, 0 as real);
        lemma_vector_weight(rd, mid, order);
        lemma_vector_weight(rd, post, rest);
        total_split(f, l, i, none);
        assert(none.remove(loc) =~= none);
        total_order(f, l.remove(i), m, none);
        total_order(f, l.remove(i), m, none.insert(loc));
        real_units(0 as real);
        if odd {
            assert forall|j: Set<nat>| !j.contains(loc) implies #[trigger] g(j) == f(
                j.insert(loc),
            ) by {}
            total_shifted(f, g, loc, m, none);
            assert forall|j: Set<nat>| j.contains(loc) == none.contains(loc) implies #[trigger] f(j)
                == zero(j) by {}
            total_agree(f, zero, loc, m, none);
            total_zero(zero, m, none);
        } else {
            assert forall|j: Set<nat>| j.contains(loc) == none.insert(loc).contains(
                loc,
            ) implies #[trigger] f(j) == zero(j) by {}
            total_agree(f, zero, loc, m, none.insert(loc));
            total_zero(zero, m, none.insert(loc));
        }
    }
}

/// After the measurement of one qubit, its bit is the result in every entry.
pub(crate) proof fn lemma_measured_bit<A: Amplitude>(
    pre: SimModel<A>,
    id: usize,
    sample: A::Real,
    odd: bool,
    post: SimModel<A>,
)
    requires
        measure_step(pre, just(id), sample, odd, post),
    ensures
        forall|k: Set<nat>| #[trigger]
            post.state.contains_key(k) ==> k.contains(post.ids[id] as nat) == odd,
{
    let mid = choose|mid: SimModel<A>| #[trigger]
        flush_step(pre, just(id), FlushLevel::HRxRy, mid) && post == (SimModel {
            state: post.state,
            ..mid
        }) && measured(mid.state, locations(mid.ids, just(id)), sample, odd, post.state);
    assert(locations(mid.ids, just(id)) =~= just(mid.ids[id]));
    lemma_collapsed_entries(mid.state, just(mid.ids[id]), odd, post.state);
    assert forall|k: Set<nat>| #[trigger] post.state.contains_key(k) implies k.contains(
        post.ids[id] as nat,
    ) == odd by {
        lemma_parity_of_one(k, mid.ids[id]);
    }
}

/// A list of all the qubits, from one of all but the last.
pub(crate) proof fn lemma_one_more(rest: Seq<usize>, id: usize, all: Set<usize>)
    requires
        all.contains(id),
        enumerates(rest, all.remove(id)),
    ensures
        enumerates(rest.push(id), all),
{
    let order = rest.push(id);
    assert forall|q: usize| order.contains(q) == all.contains(q) by {
        assert(rest.to_set().contains(q) == rest.contains(q));
        assert(order[rest.len() as int] == id);
        if rest.contains(q) {
            let a = choose|a: int| 0 <= a < rest.len() && rest[a] == q;
            assert(order[a] == q);
        }
        if order.contains(q) && q != id {
            let a = choose|a: int| 0 <= a < order.len() && order[a] == q;
            assert(rest[a] == q);
        }
    }
    assert(order.to_set() =~= all);
    assert forall|a: int, b: int|
        0 <= a < order.len() && 0 <= b < order.len() && a != b implies order[a] != order[b] by {
        if a < rest.len() {
            assert(rest.to_set().contains(rest[a]));
        }
        if b < rest.len() {
            assert(rest.to_set().contains(rest[b]));
        }
    }
}

/// The release of a qubit that has just been allocated gives back the state
/// vector too, for any sample that is not below zero.
pub proof fn law_allocate_then_release_state<A: Amplitude>(
    rd: Reading<A>,
    pre: SimModel<A>,
    id: usize,
    mid: SimModel<A>,
    sample: A::Real,
    post: SimModel<A>,
)
    requires
        rd.exact(),
        pre.wf(),
        mid.wf(),
        normalized(rd, pre),
        0 as real <= rd.val(sample),
        allocate_step(pre, id, mid),
        release_step(mid, id, sample, post),
    ensures
        post == (SimModel { state: post.state, ..pre }),
        rd.vector(post.state) == rd.vector(pre.state),
{
    law_allocate_then_release(pre, id, mid, sample, post);
    law_new_qubit_is_zero(pre, id, mid);
    law_allocate_keeps_weight(rd, pre, id, mid);
    let (odd, after) = choose|odd: bool, after: SimModel<A>| #[trigger]
        measure_step(mid, just(id), sample, odd, after) && post == (SimModel {
            state: if odd {
                cleared(after.state, after.ids[id] as nat)
            } else {
                after.state
            },
            ids: after.ids.remove(id),
            ..after
        });
    lemma_measured_new(mid, id, sample, odd, after);
    let loc = mid.ids[id];
    let mask = positions(just(loc));
    let order = law_qubits_can_be_listed(mid);
    let locs = places(mid.ids, order);
    let psi = rd.vector(mid.state);
    let p = choose|p: A::Real| #[trigger]
        probability(mid.state, just(loc), p) && real_less(sample, p, odd);
    assert(real_zero(p));
    assert(!odd);
    let list = choose|list: Seq<(Set<nat>, A)>| #[trigger]
        lists(list, mid.state) && tally(list, mask, true, p);
    lemma_tally_state(rd, mid, list, mask, true, p, order);
    lemma_vector_weight(rd, mid, order);
    lemma_both_parities(psi, mask, locs);
    let factor = lemma_collapsed_vector(rd, mid, just(loc), false, after.state, order);
    real_units(factor * factor);
    lemma_positive_unit(factor);
    let l = rd.vector(after.state);
    assert forall|k: Set<nat>| #[trigger] l(k) == psi(k) by {
        lemma_parity_of_one(k, loc);
        times_units(psi(k));
        times_units(Cx::one());
        if mid.state.contains_key(k) {
            assert(!k.contains(loc as nat));
        }
    }
    assert(l =~= psi);
}

/// A positive number whose square is one.
proof fn lemma_positive_unit(x: real)
    by (nonlinear_arith)
    requires
        x > 0 as real,
        x * x == 1 as real,
    ensures
        x == 1 as real,
{
}

} // verus!
