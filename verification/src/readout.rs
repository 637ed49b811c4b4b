//! The laws of what is read from a simulation, and of what only renames or adds
//! qubits.
use crate::applied::{gate_applied, law_flush_changes_nothing, nothing_applied};
use crate::arith::Amplitude;
use crate::bookkeeping::law_measured_queues;
use crate::exact::{times_units, Cx};
use crate::flushing::{law_flush_empties_queues, law_flush_keeps_wf};
use crate::fxmap::enumerates;
use crate::gates::{after_identity, identity};
use crate::logical::{act_identity, fold, lemma_order, lemma_targets};
use crate::matrix::{
    act, act_after, phase_act, phase_transitive, same_up_to_phase, times_vector, Mat2, Vector,
};
use crate::model::{ids_apart, in_use, locations, FlushLevel, SimModel};
use crate::normalization::{lemma_measured_bit, lemma_one_more};
use crate::reading::Reading;
use crate::steps::{
    allocate_step, cleared, dump_step, flush_step, has_amplitude, just, measure_step, no_controls,
    ones, other_of, release_step, same_for_qubits, swap_ids_step,
};
use vstd::prelude::*;

verus! {

/// There is a list of all the qubits, so that what holds for every such list is
/// never said of nothing.
pub proof fn law_qubits_can_be_listed<A: Amplitude>(s: SimModel<A>) -> (order: Seq<usize>)
    requires
        s.wf(),
    ensures
        enumerates(order, s.ids.dom()),
{
    lemma_listed(s.ids.dom())
}

proof fn lemma_listed(all: Set<usize>) -> (order: Seq<usize>)
    requires
        all.finite(),
    ensures
        enumerates(order, all),
    decreases all.len(),
{
    if all.len() == 0 {
        let order = Seq::<usize>::empty();
        assert(order.to_set() =~= all);
        order
    } else {
        let q = all.choose();
        let rest = lemma_listed(all.remove(q));
        lemma_one_more(rest, q, all);
        rest.push(q)
    }
}

/// The basis state in which exactly the given qubits are one.
pub open spec fn basis_state(ids: Map<usize, usize>, qubits: Set<usize>) -> Set<nat> {
    Set::new(
        |loc: nat|
            exists|id: usize| #[trigger]
                ids.contains_key(id) && qubits.contains(id) && ids[id] == loc,
    )
}

/// Where nothing is queued, the qubits are in the state that the state vector
/// gives.
pub proof fn law_nothing_queued<A: Amplitude>(rd: Reading<A>, s: SimModel<A>, order: Seq<usize>)
    requires
        forall|i: int| 0 <= i < order.len() ==> s.nothing_queued(#[trigger] order[i]),
    ensures
        rd.logical(s, order) == rd.vector(s.state),
{
    lemma_fold_nothing(rd, s, order, rd.vector(s.state));
}

proof fn lemma_fold_nothing<A: Amplitude>(
    rd: Reading<A>,
    s: SimModel<A>,
    order: Seq<usize>,
    psi: Vector,
)
    requires
        forall|i: int| 0 <= i < order.len() ==> s.nothing_queued(#[trigger] order[i]),
    ensures
        fold(|q: usize| rd.queued(s, q), s.ids, order, psi) == psi,
    decreases order.len(),
{
    if order.len() > 0 {
        let rest = order.drop_last();
        let q = order.last();
        assert(order[order.len() - 1] == q);
        assert(s.nothing_queued(q));
        assert forall|i: int| 0 <= i < rest.len() implies s.nothing_queued(#[trigger] rest[i]) by {
            assert(rest[i] == order[i]);
        }
        lemma_fold_nothing(rd, s, rest, psi);
        after_identity(identity());
        act_identity(no_controls(), s.ids[q] as nat, psi);
    }
}

/// The basis state of some qubits is the only one in which they are one.
pub(crate) proof fn lemma_basis_state(ids: Map<usize, usize>, qubits: Set<usize>, k: Set<nat>)
    requires
        ids_apart(ids),
        qubits.subset_of(ids.dom()),
        forall|loc: nat| #[trigger] k.contains(loc) ==> in_use(ids, loc),
    ensures
        (ones(k, ids) == qubits) == (k == basis_state(ids, qubits)),
{
    let b = basis_state(ids, qubits);
    assert(ones(b, ids) =~= qubits) by {
        assert forall|id: usize| ones(b, ids).contains(id) == qubits.contains(id) by {
            if ones(b, ids).contains(id) {
                let other = choose|other: usize| #[trigger]
                    ids.contains_key(other) && qubits.contains(other) && ids[other] == ids[id];
                assert(ids.contains_key(other) && ids.contains_key(id));
            }
        }
    }
    if ones(k, ids) == qubits {
        assert(k =~= b) by {
            assert forall|loc: nat| k.contains(loc) == b.contains(loc) by {
                if k.contains(loc) {
                    assert(in_use(ids, loc));
                    let id = choose|id: usize| #[trigger] ids.contains_key(id) && ids[id] == loc;
                    assert(ones(k, ids).contains(id));
                }
                if b.contains(loc) {
                    let id = choose|id: usize| #[trigger]
                        ids.contains_key(id) && qubits.contains(id) && ids[id] == loc;
                    assert(ones(k, ids).contains(id));
                }
            }
        }
    }
}

/// The amplitude of the basis state in which exactly the given qubits are one
/// is the same in both.
proof fn lemma_same_amplitude<A: Amplitude>(
    rd: Reading<A>,
    a: SimModel<A>,
    b: SimModel<A>,
    qubits: Set<usize>,
)
    requires
        a.wf(),
        b.wf(),
        same_for_qubits(a, b),
        qubits.subset_of(a.ids.dom()),
    ensures
        rd.vector(a.state)(basis_state(a.ids, qubits)) == rd.vector(b.state)(
            basis_state(b.ids, qubits),
        ),
{
    let (ka, kb) = (basis_state(a.ids, qubits), basis_state(b.ids, qubits));
    lemma_found(a, qubits);
    lemma_found(b, qubits);
    if a.state.contains_key(ka) {
        assert(has_amplitude(a, qubits, a.state[ka]));
        assert(has_amplitude(b, qubits, a.state[ka]));
    }
    if b.state.contains_key(kb) {
        assert(has_amplitude(b, qubits, b.state[kb]));
        assert(has_amplitude(a, qubits, b.state[kb]));
    }
}

/// Where the amplitude of some qubits is found.
pub(crate) proof fn lemma_found<A: Amplitude>(s: SimModel<A>, qubits: Set<usize>)
    requires
        s.wf(),
        qubits.subset_of(s.ids.dom()),
    ensures
        forall|v: A| #[trigger]
            has_amplitude(s, qubits, v) == (s.state.contains_key(basis_state(s.ids, qubits))
                && s.state[basis_state(s.ids, qubits)] == v),
{
    let b = basis_state(s.ids, qubits);
    assert forall|loc: nat| #[trigger] b.contains(loc) implies in_use(s.ids, loc) by {
        let id = choose|id: usize| #[trigger]
            s.ids.contains_key(id) && qubits.contains(id) && s.ids[id] == loc;
    }
    lemma_basis_state(s.ids, qubits, b);
    assert forall|v: A| #[trigger] has_amplitude(s, qubits, v) == (s.state.contains_key(b)
        && s.state[b] == v) by {
        if has_amplitude(s, qubits, v) {
            let k = choose|k: Set<nat>| #[trigger]
                s.state.contains_key(k) && ones(k, s.ids) == qubits && s.state[k] == v;
            lemma_basis_state(s.ids, qubits, k);
        }
    }
}

/// What a dump shows are the amplitudes of the state that the qubits are in, up
/// to a phase, wherever the qubits were before and are then, in arithmetic that
/// does not round.
pub proof fn law_dump<A: Amplitude>(
    rd: Reading<A>,
    pre: SimModel<A>,
    post: SimModel<A>,
    order: Seq<usize>,
) -> (z: Cx)
    requires
        rd.exact(),
        pre.wf(),
        post.wf(),
        dump_step(pre, post),
        enumerates(order, pre.ids.dom()),
    ensures
        z.is_phase(),
        forall|qubits: Set<usize>| #[trigger]
            qubits.subset_of(pre.ids.dom()) ==> rd.vector(post.state)(
                basis_state(post.ids, qubits),
            ) == z.times(rd.logical(pre, order)(basis_state(pre.ids, qubits))),
{
    let (qubits, mid) = choose|qubits: Seq<usize>, mid: SimModel<A>| #[trigger]
        enumerates(qubits, pre.ids.dom()) && #[trigger] flush_step(
            pre,
            qubits,
            FlushLevel::HRxRy,
            mid,
        ) && same_for_qubits(mid, post) && post == (SimModel {
            state: post.state,
            ids: post.ids,
            ..mid
        });
    lemma_order(pre.ids, qubits);
    lemma_order(pre.ids, order);
    assert forall|i: int| 0 <= i < qubits.len() implies pre.ids.contains_key(
        #[trigger] qubits[i],
    ) by {
        assert(qubits.contains(qubits[i]));
    }
    law_flush_changes_nothing(rd, pre, qubits, FlushLevel::HRxRy, mid);
    law_flush_empties_queues(pre, qubits, mid);
    law_flush_keeps_wf(pre, qubits, FlushLevel::HRxRy, mid);
    assert forall|i: int| 0 <= i < order.len() implies mid.nothing_queued(#[trigger] order[i]) by {
        assert(order.contains(order[i]));
        assert(qubits.contains(order[i]));
        let n = choose|n: int| 0 <= n < qubits.len() && qubits[n] == order[i];
        assert(mid.nothing_queued(qubits[n]));
    }
    law_nothing_queued(rd, mid, order);
    let z = choose|z: Cx| #[trigger]
        z.is_phase() && rd.logical(mid, order) == times_vector(z, rd.logical(pre, order));
    assert forall|some: Set<usize>| #[trigger] some.subset_of(pre.ids.dom()) implies rd.vector(
        post.state,
    )(basis_state(post.ids, some)) == z.times(
        rd.logical(pre, order)(basis_state(pre.ids, some)),
    ) by {
        lemma_same_amplitude(rd, mid, post, some);
    }
    z
}

/// The list with two qubits exchanged.
pub open spec fn renamed(order: Seq<usize>, a: usize, b: usize) -> Seq<usize> {
    order.map_values(|q: usize| other_of(q, a, b))
}

/// Exchanging the identifiers of two qubits exchanges what is queued on them
/// too: at every location the state is what it was.
pub proof fn law_swap_ids_renames<A: Amplitude>(
    rd: Reading<A>,
    pre: SimModel<A>,
    a: usize,
    b: usize,
    post: SimModel<A>,
    order: Seq<usize>,
)
    requires
        pre.ids.contains_key(a),
        pre.ids.contains_key(b),
        swap_ids_step(pre, a, b, post),
        forall|i: int| 0 <= i < order.len() ==> pre.ids.contains_key(#[trigger] order[i]),
    ensures
        rd.logical(post, renamed(order, a, b)) == rd.logical(pre, order),
{
    lemma_renamed(rd, pre, a, b, post, order, rd.vector(pre.state));
}

proof fn lemma_renamed<A: Amplitude>(
    rd: Reading<A>,
    pre: SimModel<A>,
    a: usize,
    b: usize,
    post: SimModel<A>,
    order: Seq<usize>,
    psi: Vector,
)
    requires
        pre.ids.contains_key(a),
        pre.ids.contains_key(b),
        swap_ids_step(pre, a, b, post),
        forall|i: int| 0 <= i < order.len() ==> pre.ids.contains_key(#[trigger] order[i]),
    ensures
        fold(|q: usize| rd.queued(post, q), post.ids, renamed(order, a, b), psi) == fold(
            |q: usize| rd.queued(pre, q),
            pre.ids,
            order,
            psi,
        ),
    decreases order.len(),
{
    if order.len() > 0 {
        let rest = order.drop_last();
        let q = order.last();
        let r = other_of(q, a, b);
        assert(order[order.len() - 1] == q);
        assert forall|i: int| 0 <= i < rest.len() implies pre.ids.contains_key(
            #[trigger] rest[i],
        ) by {
            assert(rest[i] == order[i]);
        }
        lemma_renamed(rd, pre, a, b, post, rest, psi);
        assert(renamed(order, a, b).drop_last() =~= renamed(rest, a, b));
        assert(renamed(order, a, b).last() == r);
        assert(post.ids[r] == pre.ids[q]);
        assert(rd.queued(post, r) == rd.queued(pre, q));
    }
}

/// A new qubit leaves the others in their state.
pub proof fn law_allocate_adds<A: Amplitude>(
    rd: Reading<A>,
    pre: SimModel<A>,
    id: usize,
    post: SimModel<A>,
    order: Seq<usize>,
)
    requires
        pre.wf(),
        allocate_step(pre, id, post),
        enumerates(order, pre.ids.dom()),
    ensures
        rd.logical(post, order.push(id)) == rd.logical(pre, order),
{
    let psi = rd.vector(pre.state);
    lemma_order(pre.ids, order);
    assert forall|i: int| 0 <= i < order.len() implies pre.ids.contains_key(
        #[trigger] order[i],
    ) by {
        assert(order.contains(order[i]));
    }
    lemma_other_ids(rd, pre, post, order, psi);
    let all = order.push(id);
    assert(all.drop_last() =~= order);
    assert(all.last() == id);
    after_identity(identity());
    act_identity(no_controls(), post.ids[id] as nat, rd.logical(pre, order));
}

/// Only the locations of the qubits in the list matter.
proof fn lemma_other_ids<A: Amplitude>(
    rd: Reading<A>,
    a: SimModel<A>,
    b: SimModel<A>,
    order: Seq<usize>,
    psi: Vector,
)
    requires
        b == (SimModel { ids: b.ids, ..a }),
        forall|i: int| 0 <= i < order.len() ==> a.ids[#[trigger] order[i]] == b.ids[order[i]],
    ensures
        fold(|q: usize| rd.queued(b, q), b.ids, order, psi) == fold(
            |q: usize| rd.queued(a, q),
            a.ids,
            order,
            psi,
        ),
    decreases order.len(),
{
    if order.len() > 0 {
        let rest = order.drop_last();
        let q = order.last();
        assert(order[order.len() - 1] == q);
        assert forall|i: int| 0 <= i < rest.len() implies a.ids[#[trigger] rest[i]]
            == b.ids[rest[i]] by {
            assert(rest[i] == order[i]);
        }
        lemma_other_ids(rd, a, b, rest, psi);
        assert(rd.queued(b, q) == rd.queued(a, q));
    }
}

/// The vector of the other qubits where the bit at the location is `bit`.
pub open spec fn without_qubit(psi: Vector, loc: nat, bit: bool) -> Vector {
    |k: Set<nat>|
        if k.contains(loc) {
            Cx::zero()
        } else if bit {
            psi(k.insert(loc))
        } else {
            psi(k)
        }
}

/// A gate on another qubit does not care.
proof fn lemma_without_past(m: Mat2, other: nat, psi: Vector, loc: nat, bit: bool)
    requires
        other != loc,
    ensures
        act(m, no_controls(), other, without_qubit(psi, loc, bit)) == without_qubit(
            act(m, no_controls(), other, psi),
            loc,
            bit,
        ),
{
    let l = act(m, no_controls(), other, without_qubit(psi, loc, bit));
    let r = without_qubit(act(m, no_controls(), other, psi), loc, bit);
    assert forall|k: Set<nat>| #[trigger] l(k) == r(k) by {
        times_units(m.a);
        times_units(m.b);
        times_units(m.c);
        times_units(m.d);
        assert(k.insert(loc).remove(other) =~= k.remove(other).insert(loc));
        assert(k.insert(loc).insert(other) =~= k.insert(other).insert(loc));
    }
    assert(l =~= r);
}

/// See [`lemma_without_past`], for everything that is queued on other qubits.
proof fn lemma_without_fold<A: Amplitude>(
    rd: Reading<A>,
    a: SimModel<A>,
    b: SimModel<A>,
    order: Seq<usize>,
    psi: Vector,
    loc: nat,
    bit: bool,
)
    requires
        b == (SimModel { state: b.state, ids: b.ids, ..a }),
        forall|i: int|
            0 <= i < order.len() ==> a.ids[#[trigger] order[i]] == b.ids[order[i]]
                && a.ids[order[i]] != loc,
    ensures
        fold(|q: usize| rd.queued(b, q), b.ids, order, without_qubit(psi, loc, bit))
            == without_qubit(fold(|q: usize| rd.queued(a, q), a.ids, order, psi), loc, bit),
    decreases order.len(),
{
    if order.len() > 0 {
        let rest = order.drop_last();
        let q = order.last();
        assert(order[order.len() - 1] == q);
        assert forall|i: int| 0 <= i < rest.len() implies a.ids[#[trigger] rest[i]]
            == b.ids[rest[i]] && a.ids[rest[i]] != loc by {
            assert(rest[i] == order[i]);
        }
        lemma_without_fold(rd, a, b, rest, psi, loc, bit);
        assert(rd.queued(b, q) == rd.queued(a, q));
        let inner = fold(|q: usize| rd.queued(a, q), a.ids, rest, psi);
        lemma_without_past(rd.queued(a, q), a.ids[q] as nat, inner, loc, bit);
    }
}

/// A release measures the qubit and leaves the others in the state that goes
/// with the result.
pub proof fn law_release_leaves_others<A: Amplitude>(
    rd: Reading<A>,
    pre: SimModel<A>,
    id: usize,
    sample: A::Real,
    post: SimModel<A>,
    rest: Seq<usize>,
) -> (r: (bool, SimModel<A>))
    requires
        pre.wf(),
        pre.ids.contains_key(id),
        release_step(pre, id, sample, post),
        enumerates(rest, post.ids.dom()),
    ensures
        measure_step(pre, just(id), sample, r.0, r.1),
        enumerates(rest.push(id), pre.ids.dom()),
        rd.logical(post, rest) == without_qubit(
            rd.logical(r.1, rest.push(id)),
            pre.ids[id] as nat,
            r.0,
        ),
{
    let (odd, mid) = choose|odd: bool, mid: SimModel<A>| #[trigger]
        measure_step(pre, just(id), sample, odd, mid) && post == (SimModel {
            state: if odd {
                cleared(mid.state, mid.ids[id] as nat)
            } else {
                mid.state
            },
            ids: mid.ids.remove(id),
            ..mid
        });
    assert(just(id)[0] == id);
    law_measured_queues(pre, just(id), sample, odd, mid);
    lemma_measured_bit(pre, id, sample, odd, mid);
    let loc = mid.ids[id] as nat;
    let order = rest.push(id);
    lemma_one_more(rest, id, mid.ids.dom());
    assert(order.drop_last() =~= rest);
    assert(order.last() == id);
    assert(mid.nothing_queued(id));
    after_identity(identity());
    let psi = rd.vector(mid.state);
    let inner = fold(|q: usize| rd.queued(mid, q), mid.ids, rest, psi);
    act_identity(no_controls(), loc, inner);
    assert forall|i: int| 0 <= i < rest.len() implies mid.ids[#[trigger] rest[i]]
        == post.ids[rest[i]] && mid.ids[rest[i]] != loc by {
        assert(rest.to_set().contains(rest[i]));
        assert(post.ids.contains_key(rest[i]));
        assert(mid.ids.contains_key(rest[i]) && mid.ids.contains_key(id));
    }
    let l = rd.vector(post.state);
    let r = without_qubit(psi, loc, odd);
    assert forall|k: Set<nat>| #[trigger] l(k) == r(k) by {
        if mid.state.contains_key(k) {
            assert(k.contains(loc) == odd);
        }
    }
    assert(l =~= r);
    lemma_without_fold(rd, mid, post, rest, psi, loc, odd);
    (odd, mid)
}

/// A gate followed by one that undoes it, on the same qubits, leaves them in
/// the state in which they were.
pub proof fn law_gate_undone<A: Amplitude>(
    rd: Reading<A>,
    pre: SimModel<A>,
    ctls: Seq<usize>,
    target: usize,
    m: Mat2,
    mid: SimModel<A>,
    n: Mat2,
    post: SimModel<A>,
)
    requires
        ids_apart(pre.ids),
        pre.applicable(ctls, target),
        gate_applied(rd, pre, ctls, target, m, mid),
        gate_applied(rd, mid, ctls, target, n, post),
        n.after(m) == identity(),
    ensures
        nothing_applied(rd, pre, post),
{
    lemma_targets(pre, ctls, target);
    let (locs, loc) = (locations(pre.ids, ctls), pre.ids[target] as nat);
    assert forall|order: Seq<usize>| #[trigger]
        enumerates(order, pre.ids.dom()) implies same_up_to_phase(
        rd.logical(post, order),
        rd.logical(pre, order),
    ) by {
        let psi = rd.logical(pre, order);
        phase_act(n, locs, loc, rd.logical(mid, order), act(m, locs, loc, psi));
        act_after(n, m, locs, loc, psi);
        act_identity(locs, loc, psi);
        phase_transitive(
            rd.logical(post, order),
            act(n, locs, loc, rd.logical(mid, order)),
            psi,
        );
    }
}

} // verus!
