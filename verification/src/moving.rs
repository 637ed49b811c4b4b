//! The laws of what only moves amplitudes, in any arithmetic: no amplitude
//! changes.
use crate::arith::{one, Amplitude};
use crate::exact::Cx;
use crate::flushing::{law_flush_empties_queues, law_flush_keeps_wf};
use crate::fxmap::enumerates;
use crate::model::{FlushLevel, SimModel};
use crate::reading::Reading;
use crate::readout::{basis_state, lemma_found};
use crate::steps::{
    allocate_step, both, cleared, dump_step, exchanged, flush_step, has_amplitude, just,
    measure_step, release_step, same_for_qubits, started, state_exchanged, swap_ids_step,
    swap_state_step,
};
use vstd::prelude::*;

verus! {

/// Whether both states have the same entry under these basis states, or none.
pub open spec fn same_under<A: Amplitude>(
    a: Map<Set<nat>, A>,
    j: Set<nat>,
    b: Map<Set<nat>, A>,
    k: Set<nat>,
) -> bool {
    &&& a.contains_key(j) == b.contains_key(k)
    &&& a.contains_key(j) ==> a[j] == b[k]
}

/// A new simulation is in the basis state without ones.
pub proof fn law_start_vector<A: Amplitude>(
    rd: Reading<A>,
    e: real,
    d: real,
    s: SimModel<A>,
    k: Set<nat>,
)
    requires
        rd.rounds(e, d),
        started(s),
    ensures
        rd.vector(s.state)(k) == if k == Set::<nat>::empty() {
            Cx::one()
        } else {
            Cx::zero()
        },
        s.nothing_queued(0),
{
}

/// The allocation of a qubit leaves the amplitudes, what is queued, and the other
/// qubits where they are.
pub proof fn law_allocate_moves_nothing<A: Amplitude>(pre: SimModel<A>, id: usize, post: SimModel<A>)
    requires
        allocate_step(pre, id, post),
    ensures
        post.state == pre.state,
        post.h == pre.h,
        post.rx == pre.rx,
        post.ry == pre.ry,
        !pre.ids.contains_key(id),
        forall|q: usize| #[trigger]
            post.ids.contains_key(q) == (q == id || pre.ids.contains_key(q)),
        forall|q: usize| #[trigger] pre.ids.contains_key(q) ==> post.ids[q] == pre.ids[q],
{
    assert(!pre.ids.dom().contains(id));
}

/// The release of a qubit measures it, and then moves the entries in which it is
/// one to the basis states in which it is zero, if that is what was measured. The
/// other qubits stay where they are.
pub proof fn law_release_moves<A: Amplitude>(
    pre: SimModel<A>,
    id: usize,
    sample: A::Real,
    post: SimModel<A>,
) -> (r: (bool, SimModel<A>))
    requires
        release_step(pre, id, sample, post),
    ensures
        measure_step(pre, just(id), sample, r.0, r.1),
        !r.0 ==> post.state == r.1.state,
        r.0 ==> forall|k: Set<nat>| #[trigger]
            post.state.contains_key(k) ==> !k.contains(r.1.ids[id] as nat),
        r.0 ==> forall|k: Set<nat>|
            !k.contains(r.1.ids[id] as nat) ==> #[trigger] same_under(
                post.state,
                k,
                r.1.state,
                k.insert(r.1.ids[id] as nat),
            ),
        post.h == r.1.h,
        post.rx == r.1.rx,
        post.ry == r.1.ry,
        forall|q: usize| #[trigger]
            post.ids.contains_key(q) == (q != id && r.1.ids.contains_key(q)),
        forall|q: usize| #[trigger] post.ids.contains_key(q) ==> post.ids[q] == r.1.ids[q],
{
    choose|odd: bool, mid: SimModel<A>| #[trigger]
        measure_step(pre, just(id), sample, odd, mid) && post == (SimModel {
            state: if odd {
                cleared(mid.state, mid.ids[id] as nat)
            } else {
                mid.state
            },
            ids: mid.ids.remove(id),
            ..mid
        })
}

/// Exchanging the states at two locations flushes what is queued under these
/// numbers, and then moves each entry to the basis state with both bits exchanged.
pub proof fn law_swap_state_moves<A: Amplitude>(
    pre: SimModel<A>,
    a: usize,
    b: usize,
    post: SimModel<A>,
) -> (mid: SimModel<A>)
    requires
        a != b,
        swap_state_step(pre, a, b, post),
    ensures
        flush_step(pre, both(a, b), FlushLevel::HRxRy, mid),
        post == (SimModel { state: post.state, ..mid }),
        forall|j: Set<nat>, k: Set<nat>|
            j.contains(a as nat) == k.contains(b as nat) && j.contains(b as nat) == k.contains(
                a as nat,
            ) && (forall|i: nat| i != a as nat && i != b as nat ==> (#[trigger] j.contains(i))
                == k.contains(i)) ==> #[trigger] same_under(post.state, j, mid.state, k),
{
    let mid = choose|mid: SimModel<A>| #[trigger]
        flush_step(pre, both(a, b), FlushLevel::HRxRy, mid) && post == (SimModel {
            state: state_exchanged(mid.state, a as nat, b as nat),
            ..mid
        });
    assert forall|j: Set<nat>, k: Set<nat>|
        j.contains(a as nat) == k.contains(b as nat) && j.contains(b as nat) == k.contains(a as nat)
            && (forall|i: nat| i != a as nat && i != b as nat ==> (#[trigger] j.contains(i))
            == k.contains(i)) implies #[trigger] same_under(post.state, j, mid.state, k) by {
        let x = exchanged(j, a as nat, b as nat);
        assert forall|i: nat| x.contains(i) == k.contains(i) by {
            if i != a as nat && i != b as nat {
                assert(j.contains(i) == k.contains(i));
            }
        }
        assert(x =~= k);
    }
    mid
}

/// Exchanging the identifiers of two qubits moves no amplitude: the qubits take
/// each other's location and what is queued on it along.
pub proof fn law_swap_ids_moves<A: Amplitude>(
    pre: SimModel<A>,
    a: usize,
    b: usize,
    post: SimModel<A>,
    q: usize,
)
    requires
        pre.ids.contains_key(a),
        pre.ids.contains_key(b),
        swap_ids_step(pre, a, b, post),
    ensures
        post.state == pre.state,
        ({
            let r = if q == a {
                b
            } else if q == b {
                a
            } else {
                q
            };
            &&& post.ids.contains_key(q) == pre.ids.contains_key(r)
            &&& pre.ids.contains_key(r) ==> post.ids[q] == pre.ids[r]
            &&& post.h.contains(q as nat) == pre.h.contains(r as nat)
            &&& post.rx.contains_key(q) == pre.rx.contains_key(r)
            &&& pre.rx.contains_key(r) ==> post.rx[q] == pre.rx[r]
            &&& post.ry.contains_key(q) == pre.ry.contains_key(r)
            &&& pre.ry.contains_key(r) ==> post.ry[q] == pre.ry[r]
        }),
{
}

/// A dump flushes all qubits in some order, and then moves the entry of each basis
/// state along with the qubits that are one in it.
pub proof fn law_dump_moves<A: Amplitude>(
    pre: SimModel<A>,
    post: SimModel<A>,
) -> (r: (Seq<usize>, SimModel<A>))
    requires
        pre.wf(),
        post.wf(),
        dump_step(pre, post),
    ensures
        enumerates(r.0, pre.ids.dom()),
        flush_step(pre, r.0, FlushLevel::HRxRy, r.1),
        post.ids.dom() == pre.ids.dom(),
        post.h == r.1.h,
        post.rx == r.1.rx,
        post.ry == r.1.ry,
        forall|qubits: Set<usize>|
            qubits.subset_of(pre.ids.dom()) ==> #[trigger] same_under(
                post.state,
                basis_state(post.ids, qubits),
                r.1.state,
                basis_state(r.1.ids, qubits),
            ),
{
    let (order, mid) = choose|order: Seq<usize>, mid: SimModel<A>| #[trigger]
        enumerates(order, pre.ids.dom()) && #[trigger] flush_step(
            pre,
            order,
            FlushLevel::HRxRy,
            mid,
        ) && same_for_qubits(mid, post) && post == (SimModel {
            state: post.state,
            ids: post.ids,
            ..mid
        });
    law_flush_keeps_wf(pre, order, FlushLevel::HRxRy, mid);
    law_flush_empties_queues(pre, order, mid);
    assert forall|qubits: Set<usize>| qubits.subset_of(pre.ids.dom()) implies #[trigger] same_under(
        post.state,
        basis_state(post.ids, qubits),
        mid.state,
        basis_state(mid.ids, qubits),
    ) by {
        lemma_found(post, qubits);
        lemma_found(mid, qubits);
        let (j, k) = (basis_state(post.ids, qubits), basis_state(mid.ids, qubits));
        if post.state.contains_key(j) {
            assert(has_amplitude(post, qubits, post.state[j]));
            assert(has_amplitude(mid, qubits, post.state[j]));
        }
        if mid.state.contains_key(k) {
            assert(has_amplitude(mid, qubits, mid.state[k]));
            assert(has_amplitude(post, qubits, mid.state[k]));
        }
    }
    (order, mid)
}

} // verus!
