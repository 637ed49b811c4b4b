//! The laws of probabilities and measurement, in arithmetic that does not
//! round.
use crate::applied::law_flush_changes_nothing;
use crate::arith::{real_less, real_recip, real_sqrt, scaled, Amplitude};
use crate::bits::{odd_parity, positions};
use crate::bookkeeping::law_measured_queues;
use crate::exact::{real_assoc, real_comm, real_units, times_comm, times_front, times_units, Cx};
use crate::flushing::{law_flush_empties_queues, law_flush_keeps_wf};
use crate::fxmap::{enumerates, lists};
use crate::gates::{after_identity, identity};
use crate::logical::{act_identity, fold, fold_times, lemma_order, spread};
use crate::matrix::{act, act_after, same_up_to_phase, times_vector, Mat2, Vector};
use crate::model::{ids_apart, in_use, kept, locations, FlushLevel, SimModel};
use crate::norms::{norm2, norm2_times, queued_unitary, times_conj};
use crate::reading::Reading;
use crate::steps::{
    collapsed, collapsed_entry, flush_step, measure_step, measured, no_controls, norm_added,
    normalizer, probability, tally,
};
use crate::totals::{
    agree_outside, blind, point, total, total_linear, total_point, total_same, total_zero,
    unitary_total, weights,
};
use vstd::prelude::*;

verus! {

/// Whether the parity of the bits of the mask is `odd`, as a choice of basis
/// states.
pub open spec fn parity_is(mask: Set<nat>, odd: bool) -> spec_fn(Set<nat>) -> bool {
    |k: Set<nat>| odd_parity(k, mask) == odd
}

/// The locations of the qubits in the list.
pub open spec fn places(ids: Map<usize, usize>, order: Seq<usize>) -> Seq<nat> {
    order.map_values(|q: usize| ids[q] as nat)
}

/// The sum of the squared absolute values of the amplitudes of all the basis
/// states in which the parity of the bits of the mask is `odd`.
pub open spec fn parity_weight(
    psi: Vector,
    mask: Set<nat>,
    odd: bool,
    places: Seq<nat>,
) -> real {
    total(weights(parity_is(mask, odd), psi), places, Set::empty())
}

/// What a list of entries holds under a basis state.
spec fn entry_of<A: Amplitude>(rd: Reading<A>, list: Seq<(Set<nat>, A)>, k: Set<nat>) -> Cx
    decreases list.len(),
{
    if list.len() == 0 {
        Cx::zero()
    } else if list.last().0 == k {
        rd.num(list.last().1)
    } else {
        entry_of(rd, list.drop_last(), k)
    }
}

/// Whether no two entries of the list are under the same basis state.
spec fn keys_apart<A: Amplitude>(list: Seq<(Set<nat>, A)>) -> bool {
    forall|i: int, j: int|
        0 <= i < j < list.len() ==> (#[trigger] list[i]).0 != (#[trigger] list[j]).0
}

proof fn lemma_entry_found<A: Amplitude>(
    rd: Reading<A>,
    list: Seq<(Set<nat>, A)>,
    k: Set<nat>,
    i: int,
)
    requires
        keys_apart(list),
        0 <= i < list.len(),
        list[i].0 == k,
    ensures
        entry_of(rd, list, k) == rd.num(list[i].1),
    decreases list.len(),
{
    if i < list.len() - 1 {
        let rest = list.drop_last();
        assert(list[i].0 != list[list.len() - 1].0);
        assert forall|a: int, b: int| 0 <= a < b < rest.len() implies (#[trigger] rest[a]).0 != (
        #[trigger] rest[b]).0 by {
            assert(rest[a] == list[a] && rest[b] == list[b]);
        }
        assert(rest[i] == list[i]);
        lemma_entry_found(rd, rest, k, i);
    }
}

proof fn lemma_entry_missing<A: Amplitude>(
    rd: Reading<A>,
    list: Seq<(Set<nat>, A)>,
    k: Set<nat>,
)
    requires
        forall|i: int| 0 <= i < list.len() ==> (#[trigger] list[i]).0 != k,
    ensures
        entry_of(rd, list, k) == Cx::zero(),
    decreases list.len(),
{
    if list.len() > 0 {
        let rest = list.drop_last();
        assert(list[list.len() - 1] == list.last());
        assert forall|i: int| 0 <= i < rest.len() implies (#[trigger] rest[i]).0 != k by {
            assert(rest[i] == list[i]);
        }
        lemma_entry_missing(rd, rest, k);
    }
}

/// The sum of the squared absolute values of the entries in the list whose
/// parity is `odd`.
pub(crate) open spec fn list_weight<A: Amplitude>(
    rd: Reading<A>,
    list: Seq<(Set<nat>, A)>,
    mask: Set<nat>,
    odd: bool,
) -> real
    decreases list.len(),
{
    if list.len() == 0 {
        0 as real
    } else if odd_parity(list.last().0, mask) == odd {
        list_weight(rd, list.drop_last(), mask, odd) + norm2(rd.num(list.last().1))
    } else {
        list_weight(rd, list.drop_last(), mask, odd)
    }
}

/// The sum over a list of entries is the sum over all basis states.
proof fn lemma_list_weight<A: Amplitude>(
    rd: Reading<A>,
    list: Seq<(Set<nat>, A)>,
    mask: Set<nat>,
    odd: bool,
    locs: Seq<nat>,
)
    requires
        keys_apart(list),
        locs.no_duplicates(),
        forall|i: int|
            0 <= i < list.len() ==> agree_outside(
                (#[trigger] list[i]).0,
                Set::empty(),
                locs,
            ),
    ensures
        list_weight(rd, list, mask, odd) == parity_weight(
            |k: Set<nat>| entry_of(rd, list, k),
            mask,
            odd,
            locs,
        ),
    decreases list.len(),
{
    let none = Set::<nat>::empty();
    let h = weights(parity_is(mask, odd), |k: Set<nat>| entry_of(rd, list, k));
    real_units(0 as real);
    if list.len() == 0 {
        let zero = point(none, 0 as real);
        total_point(none, 0 as real, locs, none);
        total_same(h, zero, locs, none);
    } else {
        let rest = list.drop_last();
        let (key, v) = list.last();
        let f = weights(parity_is(mask, odd), |k: Set<nat>| entry_of(rd, rest, k));
        let w = if odd_parity(key, mask) == odd {
            norm2(rd.num(v))
        } else {
            0 as real
        };
        let n = list.len() - 1;
        assert(list[n] == list.last());
        assert forall|i: int, j: int| 0 <= i < j < rest.len() implies (#[trigger] rest[i]).0 != (
        #[trigger] rest[j]).0 by {
            assert(rest[i] == list[i] && rest[j] == list[j]);
        }
        assert forall|i: int| 0 <= i < rest.len() implies (#[trigger] rest[i]).0 != key
            && agree_outside(rest[i].0, none, locs) by {
            assert(rest[i] == list[i]);
            assert(list[i].0 != list[n].0);
        }
        lemma_entry_missing(rd, rest, key);
        let g = point(key, w);
        assert forall|j: Set<nat>| #[trigger] h(j) == f(j) + (1 as real) * g(j) by {
            real_units(g(j));
            if j == key {
                assert(norm2(Cx::zero()) == 0 as real);
            }
        }
        total_linear(f, g, h, 1 as real, locs, none);
        total_point(key, w, locs, none);
        assert(agree_outside(list[n].0, none, locs));
        real_units(w);
        lemma_list_weight(rd, rest, mask, odd, locs);
    }
}

/// A tally over a list of entries is the sum over them.
proof fn lemma_tally<A: Amplitude>(
    rd: Reading<A>,
    list: Seq<(Set<nat>, A)>,
    mask: Set<nat>,
    odd: bool,
    t: A::Real,
)
    requires
        rd.exact(),
        tally(list, mask, odd, t),
    ensures
        rd.val(t) == list_weight(rd, list, mask, odd),
    decreases list.len(),
{
    if list.len() > 0 {
        let rest = list.drop_last();
        if odd_parity(list.last().0, mask) == odd {
            let s = choose|s: A::Real|
                tally(rest, mask, odd, s) && #[trigger] norm_added(s, list.last().1, t);
            lemma_tally(rd, rest, mask, odd, s);
        } else {
            lemma_tally(rd, rest, mask, odd, t);
        }
    }
}

/// See [`lemma_tally`], for a list of all entries of a state.
pub(crate) proof fn lemma_tally_state<A: Amplitude>(
    rd: Reading<A>,
    s: SimModel<A>,
    list: Seq<(Set<nat>, A)>,
    mask: Set<nat>,
    odd: bool,
    t: A::Real,
    order: Seq<usize>,
)
    requires
        rd.exact(),
        s.wf(),
        enumerates(order, s.ids.dom()),
        lists(list, s.state),
        tally(list, mask, odd, t),
    ensures
        rd.val(t) == parity_weight(rd.vector(s.state), mask, odd, places(s.ids, order)),
{
    lemma_tally(rd, list, mask, odd, t);
    lemma_list_state(rd, s, list, mask, odd, order);
}

/// A list of all entries has one for each of them.
proof fn lemma_list_len<A: Amplitude>(list: Seq<(Set<nat>, A)>, state: Map<Set<nat>, A>)
    requires
        lists(list, state),
    ensures
        list.len() == state.dom().len(),
{
    let keys = list.map_values(|e: (Set<nat>, A)| e.0);
    assert(keys.no_duplicates()) by {
        assert forall|i: int, j: int|
            0 <= i < keys.len() && 0 <= j < keys.len() && i != j implies keys[i] != keys[j] by {
            if i < j {
                assert(list[i].0 != list[j].0);
            } else {
                assert(list[j].0 != list[i].0);
            }
        }
    }
    keys.unique_seq_to_set();
    assert(keys.to_set() =~= state.dom()) by {
        assert forall|k: Set<nat>| keys.contains(k) == state.contains_key(k) by {
            if keys.contains(k) {
                let i = choose|i: int| 0 <= i < keys.len() && keys[i] == k;
                assert(state.contains_key(list[i].0));
            }
            if state.contains_key(k) {
                let i = choose|i: int| 0 <= i < list.len() && (#[trigger] list[i]).0 == k;
                assert(keys[i] == k);
            }
        }
    }
}

/// See [`lemma_list_weight`], for a list of all entries of a state.
pub(crate) proof fn lemma_list_state<A: Amplitude>(
    rd: Reading<A>,
    s: SimModel<A>,
    list: Seq<(Set<nat>, A)>,
    mask: Set<nat>,
    odd: bool,
    order: Seq<usize>,
)
    requires
        s.wf(),
        enumerates(order, s.ids.dom()),
        lists(list, s.state),
    ensures
        list_weight(rd, list, mask, odd) == parity_weight(
            rd.vector(s.state),
            mask,
            odd,
            places(s.ids, order),
        ),
        list.len() == s.state.dom().len(),
{
    lemma_list_len(list, s.state);
    let locs = places(s.ids, order);
    lemma_places(s.ids, order);
    assert forall|i: int| 0 <= i < list.len() implies agree_outside(
        (#[trigger] list[i]).0,
        Set::empty(),
        locs,
    ) by {
        let key = list[i].0;
        assert(s.state.contains_key(key));
        assert forall|x: nat| !locs.contains(x) implies #[trigger] key.contains(x)
            == Set::<nat>::empty().contains(x) by {
            if key.contains(x) {
                assert(in_use(s.ids, x));
                let q = choose|q: usize| #[trigger] s.ids.contains_key(q) && s.ids[q] == x;
                assert(order.contains(q));
                let n = choose|n: int| 0 <= n < order.len() && order[n] == q;
                assert(locs[n] == x);
            }
        }
    }
    lemma_list_weight(rd, list, mask, odd, locs);
    let l = |k: Set<nat>| entry_of(rd, list, k);
    let r = rd.vector(s.state);
    assert forall|k: Set<nat>| #[trigger] l(k) == r(k) by {
        if s.state.contains_key(k) {
            let i = choose|i: int| 0 <= i < list.len() && (#[trigger] list[i]).0 == k;
            lemma_entry_found(rd, list, k, i);
        } else {
            assert forall|i: int| 0 <= i < list.len() implies (#[trigger] list[i]).0 != k by {
                assert(s.state.contains_key(list[i].0));
            }
            lemma_entry_missing(rd, list, k);
        }
    }
    assert(l =~= r);
}

/// The locations of all the qubits.
pub(crate) proof fn lemma_places(ids: Map<usize, usize>, order: Seq<usize>)
    requires
        ids_apart(ids),
        enumerates(order, ids.dom()),
    ensures
        places(ids, order).no_duplicates(),
        spread(ids, order),
        forall|q: usize| #[trigger] order.contains(q) == ids.contains_key(q),
        forall|q: usize| #[trigger]
            ids.contains_key(q) ==> places(ids, order).contains(ids[q] as nat),
{
    lemma_order(ids, order);
    let locs = places(ids, order);
    assert forall|q: usize| #[trigger] ids.contains_key(q) implies locs.contains(
        ids[q] as nat,
    ) by {
        assert(order.contains(q));
        let n = choose|n: int| 0 <= n < order.len() && order[n] == q;
        assert(locs[n] == ids[q] as nat);
    }
    assert forall|i: int, j: int|
        0 <= i < locs.len() && 0 <= j < locs.len() && i != j implies locs[i] != locs[j] by {
        assert(ids[order[i]] != ids[order[j]]);
    }
}

/// The parity does not depend on a bit outside the mask.
pub(crate) proof fn lemma_parity_blind(mask: Set<nat>, odd: bool, loc: nat)
    requires
        !mask.contains(loc),
    ensures
        blind(parity_is(mask, odd), loc),
{
    let chosen = parity_is(mask, odd);
    assert forall|k: Set<nat>| chosen(k.remove(loc)) == #[trigger] chosen(k.insert(loc)) by {
        assert(k.remove(loc).intersect(mask) =~= k.insert(loc).intersect(mask));
    }
}

/// What is queued on a qubit keeps a sum over a choice that does not depend on
/// the qubit.
proof fn lemma_queued_weight<A: Amplitude>(
    rd: Reading<A>,
    s: SimModel<A>,
    q: usize,
    chosen: spec_fn(Set<nat>) -> bool,
    psi: Vector,
    locs: Seq<nat>,
)
    requires
        rd.exact(),
        blind(chosen, s.ids[q] as nat),
        locs.no_duplicates(),
        locs.contains(s.ids[q] as nat),
    ensures
        total(
            weights(chosen, act(rd.queued(s, q), no_controls(), s.ids[q] as nat, psi)),
            locs,
            Set::empty(),
        ) == total(weights(chosen, psi), locs, Set::empty()),
{
    let none = Set::<nat>::empty();
    let loc = s.ids[q] as nat;
    let (y, x, h) = (rd.queued_ry(s, q), rd.queued_rx(s, q), rd.queued_h(s, q));
    queued_unitary(rd.root_half, rd.cos_half(s.rx[q]), rd.sin_half(s.rx[q]));
    queued_unitary(rd.root_half, rd.cos_half(s.ry[q]), rd.sin_half(s.ry[q]));
    let a = act(h, no_controls(), loc, psi);
    let b = act(x, no_controls(), loc, a);
    act_after(x, h, no_controls(), loc, psi);
    act_after(y, x.after(h), no_controls(), loc, psi);
    unitary_total(chosen, h, no_controls(), loc, psi, locs, none);
    unitary_total(chosen, x, no_controls(), loc, a, locs, none);
    unitary_total(chosen, y, no_controls(), loc, b, locs, none);
}

/// What is queued on other qubits keeps a sum.
pub(crate) proof fn lemma_logical_weight<A: Amplitude>(
    rd: Reading<A>,
    s: SimModel<A>,
    chosen: spec_fn(Set<nat>) -> bool,
    order: Seq<usize>,
    psi: Vector,
    locs: Seq<nat>,
)
    requires
        rd.exact(),
        locs.no_duplicates(),
        forall|i: int|
            0 <= i < order.len() ==> locs.contains(s.ids[#[trigger] order[i]] as nat) && (rd.queued(
                s,
                order[i],
            ) == identity() || blind(chosen, s.ids[order[i]] as nat)),
    ensures
        total(
            weights(chosen, fold(|q: usize| rd.queued(s, q), s.ids, order, psi)),
            locs,
            Set::empty(),
        ) == total(weights(chosen, psi), locs, Set::empty()),
    decreases order.len(),
{
    if order.len() > 0 {
        let rest = order.drop_last();
        let q = order.last();
        assert(order[order.len() - 1] == q);
        assert forall|i: int| 0 <= i < rest.len() implies locs.contains(
            s.ids[#[trigger] rest[i]] as nat,
        ) && (rd.queued(s, rest[i]) == identity() || blind(chosen, s.ids[rest[i]] as nat)) by {
            assert(rest[i] == order[i]);
        }
        lemma_logical_weight(rd, s, chosen, rest, psi, locs);
        let inner = fold(|q: usize| rd.queued(s, q), s.ids, rest, psi);
        if rd.queued(s, q) == identity() {
            act_identity(no_controls(), s.ids[q] as nat, inner);
        } else {
            lemma_queued_weight(rd, s, q, chosen, inner, locs);
        }
    }
}

/// A phase keeps a sum.
pub(crate) proof fn lemma_phase_weight(
    chosen: spec_fn(Set<nat>) -> bool,
    a: Vector,
    b: Vector,
    locs: Seq<nat>,
)
    requires
        same_up_to_phase(a, b),
    ensures
        total(weights(chosen, a), locs, Set::empty()) == total(
            weights(chosen, b),
            locs,
            Set::empty(),
        ),
{
    let z = choose|z: Cx| #[trigger] z.is_phase() && a == times_vector(z, b);
    let f = weights(chosen, a);
    let g = weights(chosen, b);
    times_conj(z);
    assert forall|k: Set<nat>| #[trigger] f(k) == g(k) by {
        norm2_times(z, b(k));
        real_units(norm2(b(k)));
    }
    total_same(f, g, locs, Set::empty());
}

/// Which of the qubits a mask of locations speaks of.
proof fn lemma_mask<A: Amplitude>(s: SimModel<A>, ids: Seq<usize>, q: usize)
    requires
        ids_apart(s.ids),
        s.allocated(ids),
        s.ids.contains_key(q),
    ensures
        positions(locations(s.ids, ids)).contains(s.ids[q] as nat) == ids.contains(q),
{
    let locs = locations(s.ids, ids);
    let mask = positions(locs);
    if ids.contains(q) {
        let i = choose|i: int| 0 <= i < ids.len() && ids[i] == q;
        assert(locs[i] == s.ids[q]);
    }
    if mask.contains(s.ids[q] as nat) {
        let i = choose|i: int| 0 <= i < locs.len() && #[trigger] locs[i] == s.ids[q];
        assert(s.ids.contains_key(ids[i]));
        assert(ids[i] == q);
    }
}

/// The sum over a parity of flushed qubits is the same for the state vector and
/// for the state that the qubits are in.
proof fn lemma_flushed_weight<A: Amplitude>(
    rd: Reading<A>,
    s: SimModel<A>,
    ids: Seq<usize>,
    odd: bool,
    order: Seq<usize>,
)
    requires
        rd.exact(),
        ids_apart(s.ids),
        s.allocated(ids),
        forall|i: int| 0 <= i < ids.len() ==> s.nothing_queued(#[trigger] ids[i]),
        enumerates(order, s.ids.dom()),
    ensures
        parity_weight(
            rd.logical(s, order),
            positions(locations(s.ids, ids)),
            odd,
            places(s.ids, order),
        ) == parity_weight(
            rd.vector(s.state),
            positions(locations(s.ids, ids)),
            odd,
            places(s.ids, order),
        ),
{
    let mask = positions(locations(s.ids, ids));
    let locs = places(s.ids, order);
    lemma_places(s.ids, order);
    assert forall|i: int| 0 <= i < order.len() implies locs.contains(
        s.ids[#[trigger] order[i]] as nat,
    ) && (rd.queued(s, order[i]) == identity() || blind(
        parity_is(mask, odd),
        s.ids[order[i]] as nat,
    )) by {
        let q = order[i];
        assert(order.contains(q));
        lemma_untouched(rd, s, ids, q);
        if !mask.contains(s.ids[q] as nat) {
            lemma_parity_blind(mask, odd, s.ids[q] as nat);
        }
    }
    lemma_logical_weight(
        rd,
        s,
        parity_is(mask, odd),
        order,
        rd.vector(s.state),
        locs,
    );
}

/// Nothing is queued on a qubit, or the mask does not speak of it.
proof fn lemma_untouched<A: Amplitude>(rd: Reading<A>, s: SimModel<A>, ids: Seq<usize>, q: usize)
    requires
        ids_apart(s.ids),
        s.allocated(ids),
        s.ids.contains_key(q),
        forall|i: int| 0 <= i < ids.len() ==> s.nothing_queued(#[trigger] ids[i]),
    ensures
        rd.queued(s, q) == identity() || !positions(locations(s.ids, ids)).contains(
            s.ids[q] as nat,
        ),
{
    lemma_mask(s, ids, q);
    if ids.contains(q) {
        let n = choose|n: int| 0 <= n < ids.len() && ids[n] == q;
        assert(s.nothing_queued(ids[n]));
        after_identity(identity());
    }
}

/// The probability of an odd parity is the sum of the squared absolute values
/// of the amplitudes of all the basis states with that parity, in the state
/// that the qubits are in.
pub proof fn law_joint_probability<A: Amplitude>(
    rd: Reading<A>,
    pre: SimModel<A>,
    ids: Seq<usize>,
    p: A::Real,
    post: SimModel<A>,
    order: Seq<usize>,
)
    requires
        rd.exact(),
        pre.wf(),
        pre.allocated(ids),
        flush_step(pre, ids, FlushLevel::HRxRy, post),
        probability(post.state, locations(post.ids, ids), p),
        enumerates(order, pre.ids.dom()),
    ensures
        rd.val(p) == parity_weight(
            rd.logical(pre, order),
            positions(locations(pre.ids, ids)),
            true,
            places(pre.ids, order),
        ),
{
    let mask = positions(locations(post.ids, ids));
    law_flush_changes_nothing(rd, pre, ids, FlushLevel::HRxRy, post);
    law_flush_empties_queues(pre, ids, post);
    law_flush_keeps_wf(pre, ids, FlushLevel::HRxRy, post);
    let list = choose|list: Seq<(Set<nat>, A)>| #[trigger]
        lists(list, post.state) && tally(list, mask, true, p);
    lemma_tally_state(rd, post, list, mask, true, p, order);
    lemma_flushed_weight(rd, post, ids, true, order);
    lemma_phase_weight(
        parity_is(mask, true),
        rd.logical(post, order),
        rd.logical(pre, order),
        places(pre.ids, order),
    );
}

/// The vector without the amplitudes of the basis states of the other parity.
pub open spec fn projected(psi: Vector, mask: Set<nat>, odd: bool) -> Vector {
    |k: Set<nat>|
        if odd_parity(k, mask) == odd {
            psi(k)
        } else {
            Cx::zero()
        }
}

/// A gate commutes with the choice of a parity that it does not change.
proof fn lemma_project_past(m: Mat2, loc: nat, psi: Vector, mask: Set<nat>, odd: bool)
    requires
        !mask.contains(loc),
    ensures
        act(m, no_controls(), loc, projected(psi, mask, odd)) == projected(
            act(m, no_controls(), loc, psi),
            mask,
            odd,
        ),
{
    let l = act(m, no_controls(), loc, projected(psi, mask, odd));
    let r = projected(act(m, no_controls(), loc, psi), mask, odd);
    assert forall|k: Set<nat>| #[trigger] l(k) == r(k) by {
        assert(k.remove(loc).intersect(mask) =~= k.intersect(mask));
        assert(k.insert(loc).intersect(mask) =~= k.intersect(mask));
        times_units(m.a);
        times_units(m.b);
        times_units(m.c);
        times_units(m.d);
    }
    assert(l =~= r);
}

/// See [`lemma_project_past`], for everything that is queued.
proof fn lemma_project_fold<A: Amplitude>(
    rd: Reading<A>,
    s: SimModel<A>,
    mask: Set<nat>,
    odd: bool,
    order: Seq<usize>,
    psi: Vector,
)
    requires
        forall|i: int|
            0 <= i < order.len() ==> rd.queued(s, #[trigger] order[i]) == identity()
                || !mask.contains(s.ids[order[i]] as nat),
    ensures
        fold(|q: usize| rd.queued(s, q), s.ids, order, projected(psi, mask, odd)) == projected(
            fold(|q: usize| rd.queued(s, q), s.ids, order, psi),
            mask,
            odd,
        ),
    decreases order.len(),
{
    if order.len() > 0 {
        let rest = order.drop_last();
        let q = order.last();
        assert(order[order.len() - 1] == q);
        assert forall|i: int| 0 <= i < rest.len() implies rd.queued(s, #[trigger] rest[i])
            == identity() || !mask.contains(s.ids[rest[i]] as nat) by {
            assert(rest[i] == order[i]);
        }
        lemma_project_fold(rd, s, mask, odd, rest, psi);
        let inner = fold(|q: usize| rd.queued(s, q), s.ids, rest, psi);
        let loc = s.ids[q] as nat;
        if rd.queued(s, q) == identity() {
            act_identity(no_controls(), loc, inner);
            act_identity(no_controls(), loc, projected(inner, mask, odd));
        } else {
            lemma_project_past(rd.queued(s, q), loc, inner, mask, odd);
        }
    }
}

/// Whether the qubits are after a measurement of the parity of the bits of the
/// mask that gave `odd`: the amplitudes of the other parity are gone, and those
/// of this one are scaled so that their weight is one, up to a phase.
pub open spec fn parity_measured<A: Amplitude>(
    rd: Reading<A>,
    pre: SimModel<A>,
    mask: Set<nat>,
    odd: bool,
    factor: real,
    order: Seq<usize>,
    post: SimModel<A>,
) -> bool {
    let psi = rd.logical(pre, order);
    let weight = parity_weight(psi, mask, odd, places(pre.ids, order));
    &&& factor > 0 as real
    &&& factor * factor * weight == 1 as real
    &&& same_up_to_phase(
        rd.logical(post, order),
        times_vector(Cx::of(factor), projected(psi, mask, odd)),
    )
}

/// The factor by which a measurement scales.
proof fn lemma_factor_square(root: real, factor: real, weight: real)
    requires
        root >= 0 as real,
        root * root == weight,
        root * factor == 1 as real,
    ensures
        factor > 0 as real,
        factor * factor * weight == 1 as real,
{
    real_assoc(factor, factor, weight);
    real_assoc(factor, root, root);
    real_comm(factor, root);
    real_units(root);
    assert(factor * (root * root) == root);
    assert(factor > 0 as real) by (nonlinear_arith)
        requires
            root >= 0 as real,
            root * factor == 1 as real,
    ;
}

/// What a collapse does to the state vector.
pub(crate) proof fn lemma_collapsed_vector<A: Amplitude>(
    rd: Reading<A>,
    s: SimModel<A>,
    locs: Seq<usize>,
    odd: bool,
    post: Map<Set<nat>, A>,
    order: Seq<usize>,
) -> (factor: real)
    requires
        rd.exact(),
        s.wf(),
        enumerates(order, s.ids.dom()),
        collapsed(s.state, locs, odd, post),
        parity_weight(rd.vector(s.state), positions(locs), odd, places(s.ids, order)) > 0 as real,
    ensures
        factor > 0 as real,
        factor * factor * parity_weight(
            rd.vector(s.state),
            positions(locs),
            odd,
            places(s.ids, order),
        ) == 1 as real,
        rd.vector(post) == times_vector(
            Cx::of(factor),
            projected(rd.vector(s.state), positions(locs), odd),
        ),
{
    let mask = positions(locs);
    let pre = s.state;
    let (list, total, f) = choose|list: Seq<(Set<nat>, A)>, total: A::Real, f: A::Real| #[trigger]
        lists(list, pre) && #[trigger] tally(list, mask, odd, total) && #[trigger] normalizer(
            total,
            f,
        ) && forall|k: Set<nat>| #[trigger] collapsed_entry(pre, mask, odd, f, post, k);
    lemma_tally_state(rd, s, list, mask, odd, total, order);
    let root = choose|root: A::Real| #[trigger] real_sqrt(total, root) && real_recip(root, f);
    let factor = rd.val(f);
    real_units(rd.val(root));
    assert(rd.val(root) != 0 as real);
    lemma_factor_square(rd.val(root), factor, rd.val(total));
    let z = Cx::of(factor);
    let l = rd.vector(post);
    let r = times_vector(z, projected(rd.vector(pre), mask, odd));
    assert forall|k: Set<nat>| #[trigger] l(k) == r(k) by {
        assert(collapsed_entry(pre, mask, odd, f, post, k));
        times_units(z);
        if pre.contains_key(k) && odd_parity(k, mask) == odd {
            let v = choose|v: A| #[trigger] scaled(pre[k], f, v) && kept(v, k, post);
            times_comm(rd.num(pre[k]), z);
        }
    }
    assert(l =~= r);
    factor
}

/// A measurement leaves the amplitudes of the measured parity, scaled so that
/// their weight is one, and none of the other parity. Left out are outcomes of
/// weight zero, which no sample between zero and one leads to.
pub proof fn law_measure<A: Amplitude>(
    rd: Reading<A>,
    pre: SimModel<A>,
    ids: Seq<usize>,
    sample: A::Real,
    odd: bool,
    post: SimModel<A>,
    order: Seq<usize>,
) -> (factor: real)
    requires
        rd.exact(),
        pre.wf(),
        pre.allocated(ids),
        measure_step(pre, ids, sample, odd, post),
        enumerates(order, pre.ids.dom()),
        parity_weight(
            rd.logical(pre, order),
            positions(locations(pre.ids, ids)),
            odd,
            places(pre.ids, order),
        ) > 0 as real,
    ensures
        parity_measured(
            rd,
            pre,
            positions(locations(pre.ids, ids)),
            odd,
            factor,
            order,
            post,
        ),
{
    let mid = choose|mid: SimModel<A>| #[trigger]
        flush_step(pre, ids, FlushLevel::HRxRy, mid) && post == (SimModel {
            state: post.state,
            ..mid
        }) && measured(mid.state, locations(mid.ids, ids), sample, odd, post.state);
    let mask = positions(locations(mid.ids, ids));
    let locs = places(mid.ids, order);
    law_flush_changes_nothing(rd, pre, ids, FlushLevel::HRxRy, mid);
    law_flush_empties_queues(pre, ids, mid);
    law_flush_keeps_wf(pre, ids, FlushLevel::HRxRy, mid);
    lemma_flushed_weight(rd, mid, ids, odd, order);
    let (before, flushed) = (rd.logical(pre, order), rd.logical(mid, order));
    lemma_phase_weight(parity_is(mask, odd), flushed, before, locs);
    let factor = lemma_collapsed_vector(
        rd,
        mid,
        locations(mid.ids, ids),
        odd,
        post.state,
        order,
    );
    lemma_places(mid.ids, order);
    assert forall|i: int| 0 <= i < order.len() implies rd.queued(mid, #[trigger] order[i])
        == identity() || !mask.contains(mid.ids[order[i]] as nat) by {
        assert(order.contains(order[i]));
        lemma_untouched(rd, mid, ids, order[i]);
    }
    let z = Cx::of(factor);
    let psi = rd.vector(mid.state);
    let gates = |q: usize| rd.queued(mid, q);
    lemma_project_fold(rd, mid, mask, odd, order, psi);
    fold_times(gates, mid.ids, order, z, projected(psi, mask, odd));
    assert((|q: usize| rd.queued(post, q)) =~= gates);
    assert(rd.logical(post, order) == times_vector(z, projected(flushed, mask, odd)));
    lemma_phase_projected(flushed, before, mask, odd, z);
    factor
}

/// The choice of a parity and a factor keep a difference by a phase.
proof fn lemma_phase_projected(a: Vector, b: Vector, mask: Set<nat>, odd: bool, f: Cx)
    requires
        same_up_to_phase(a, b),
    ensures
        same_up_to_phase(
            times_vector(f, projected(a, mask, odd)),
            times_vector(f, projected(b, mask, odd)),
        ),
{
    let z = choose|z: Cx| #[trigger] z.is_phase() && a == times_vector(z, b);
    let l = times_vector(f, projected(a, mask, odd));
    let r = times_vector(z, times_vector(f, projected(b, mask, odd)));
    assert forall|k: Set<nat>| #[trigger] l(k) == r(k) by {
        times_front(f, z, b(k));
        times_units(f);
        times_units(z);
    }
    assert(l =~= r);
}

/// After a measurement the measured parity has the weight one, and the other
/// one the weight zero.
pub proof fn law_measured_weight<A: Amplitude>(
    rd: Reading<A>,
    pre: SimModel<A>,
    mask: Set<nat>,
    odd: bool,
    factor: real,
    order: Seq<usize>,
    post: SimModel<A>,
)
    requires
        parity_measured(rd, pre, mask, odd, factor, order, post),
    ensures
        parity_weight(rd.logical(post, order), mask, odd, places(pre.ids, order)) == 1 as real,
        parity_weight(rd.logical(post, order), mask, !odd, places(pre.ids, order)) == 0 as real,
{
    let none = Set::<nat>::empty();
    let locs = places(pre.ids, order);
    let psi = rd.logical(pre, order);
    let z = Cx::of(factor);
    let left = times_vector(z, projected(psi, mask, odd));
    lemma_phase_weight(parity_is(mask, odd), rd.logical(post, order), left, locs);
    lemma_phase_weight(parity_is(mask, !odd), rd.logical(post, order), left, locs);
    let zero = point(none, 0 as real);
    total_zero(zero, locs, none);
    // This parity is scaled.
    let g = weights(parity_is(mask, odd), psi);
    let h = weights(parity_is(mask, odd), left);
    let square = factor * factor;
    assert forall|k: Set<nat>| #[trigger] h(k) == zero(k) + square * g(k) by {
        norm2_times(z, psi(k));
        real_units(square);
        real_units(0 as real);
    }
    total_linear(zero, g, h, square, locs, none);
    // The other one is gone.
    let other = weights(parity_is(mask, !odd), left);
    assert forall|k: Set<nat>| #[trigger] other(k) == zero(k) by {
        times_units(z);
        real_units(0 as real);
    }
    total_same(other, zero, locs, none);
}

/// The probability of an odd parity right after its measurement is one if it
/// was odd, and zero if it was even. Left out is what [`law_measure`] leaves
/// out.
pub proof fn law_measured_probability<A: Amplitude>(
    rd: Reading<A>,
    pre: SimModel<A>,
    ids: Seq<usize>,
    sample: A::Real,
    odd: bool,
    mid: SimModel<A>,
    p: A::Real,
    post: SimModel<A>,
    order: Seq<usize>,
)
    requires
        rd.exact(),
        pre.wf(),
        pre.allocated(ids),
        measure_step(pre, ids, sample, odd, mid),
        flush_step(mid, ids, FlushLevel::HRxRy, post),
        probability(post.state, locations(post.ids, ids), p),
        enumerates(order, pre.ids.dom()),
        parity_weight(
            rd.logical(pre, order),
            positions(locations(pre.ids, ids)),
            odd,
            places(pre.ids, order),
        ) > 0 as real,
    ensures
        rd.val(p) == if odd {
            1 as real
        } else {
            0 as real
        },
{
    let mask = positions(locations(pre.ids, ids));
    let factor = law_measure(rd, pre, ids, sample, odd, mid, order);
    law_measured_weight(rd, pre, mask, odd, factor, order, mid);
    law_measured_queues(pre, ids, sample, odd, mid);
    law_joint_probability(rd, mid, ids, p, post, order);
}

/// A measurement that is repeated at once gives the same result, for any sample
/// from zero up to one. Left out is what [`law_measure`] leaves out.
pub proof fn law_measure_twice<A: Amplitude>(
    rd: Reading<A>,
    pre: SimModel<A>,
    ids: Seq<usize>,
    sample: A::Real,
    odd: bool,
    mid: SimModel<A>,
    sample_again: A::Real,
    odd_again: bool,
    post: SimModel<A>,
    order: Seq<usize>,
)
    requires
        rd.exact(),
        pre.wf(),
        pre.allocated(ids),
        measure_step(pre, ids, sample, odd, mid),
        measure_step(mid, ids, sample_again, odd_again, post),
        0 as real <= rd.val(sample_again) < 1 as real,
        enumerates(order, pre.ids.dom()),
        parity_weight(
            rd.logical(pre, order),
            positions(locations(pre.ids, ids)),
            odd,
            places(pre.ids, order),
        ) > 0 as real,
    ensures
        odd_again == odd,
{
    let flushed = choose|flushed: SimModel<A>| #[trigger]
        flush_step(mid, ids, FlushLevel::HRxRy, flushed) && post == (SimModel {
            state: post.state,
            ..flushed
        }) && measured(
            flushed.state,
            locations(flushed.ids, ids),
            sample_again,
            odd_again,
            post.state,
        );
    let p = choose|p: A::Real| #[trigger]
        probability(flushed.state, locations(flushed.ids, ids), p) && real_less(
            sample_again,
            p,
            odd_again,
        );
    law_measured_probability(rd, pre, ids, sample, odd, mid, p, flushed, order);
}

/// The outcome of a measurement is odd exactly if the sample is below the
/// weight of the basis states with odd parity.
pub proof fn law_outcome<A: Amplitude>(
    rd: Reading<A>,
    pre: SimModel<A>,
    ids: Seq<usize>,
    sample: A::Real,
    odd: bool,
    post: SimModel<A>,
    order: Seq<usize>,
)
    requires
        rd.exact(),
        pre.wf(),
        pre.allocated(ids),
        measure_step(pre, ids, sample, odd, post),
        enumerates(order, pre.ids.dom()),
    ensures
        odd == (rd.val(sample) < parity_weight(
            rd.logical(pre, order),
            positions(locations(pre.ids, ids)),
            true,
            places(pre.ids, order),
        )),
{
    let mid = choose|mid: SimModel<A>| #[trigger]
        flush_step(pre, ids, FlushLevel::HRxRy, mid) && post == (SimModel {
            state: post.state,
            ..mid
        }) && measured(mid.state, locations(mid.ids, ids), sample, odd, post.state);
    let p = choose|p: A::Real| #[trigger]
        probability(mid.state, locations(mid.ids, ids), p) && real_less(sample, p, odd);
    law_joint_probability(rd, pre, ids, p, mid, order);
}

} // verus!
