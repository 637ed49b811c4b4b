//! The laws that hold whatever the arithmetic: of qubits and their locations,
//! of what is queued, and of which entries the state has.
use crate::arith::{nearly_zero, real_zero, Amplitude};
use crate::bits::{odd_parity, positions, toggled};
use crate::flushing::{
    law_flush_empties_queues, law_flush_keeps_wf, lemma_flush_just, lemma_flush_nothing, same_queue,
};
use crate::fxmap::lists;
use crate::matrix::no_control;
use crate::model::{
    all_set, gate_entry, gate_on_state, image, image_value, in_use, kept, locations, mix_entry,
    mix_on_state, same_entry, FlushLevel, Mix, SimModel, Transform,
};
use crate::normalization::lemma_measured_bit;
use crate::sim::{lemma_collapsed_entries, lemma_parity_of_one};
use crate::state::{lemma_exchanged_twice, lemma_image_involution};
use crate::steps::{
    allocate_step, both, cleared, flush_step, h_step, just, measure_step, measured, probability,
    release_step, state_exchanged, swap_ids_step, swap_state_step, tally, used_locations,
};
use vstd::prelude::*;

verus! {

/// A new qubit is zero in every entry, and nothing is queued on it.
pub proof fn law_new_qubit_is_zero<A: Amplitude>(pre: SimModel<A>, id: usize, post: SimModel<A>)
    requires
        pre.wf(),
        allocate_step(pre, id, post),
    ensures
        !pre.ids.contains_key(id),
        post.ids.contains_key(id),
        post.nothing_queued(id),
        forall|k: Set<nat>| #[trigger]
            post.state.contains_key(k) ==> !k.contains(post.ids[id] as nat),
        forall|p: A::Real| #[trigger]
            probability(post.state, just(post.ids[id]), p) ==> real_zero(p),
{
    let loc = post.ids[id];
    assert forall|k: Set<nat>| #[trigger] post.state.contains_key(k) implies !k.contains(
        loc as nat,
    ) by {
        assert(!used_locations(pre.ids).contains(loc));
        if k.contains(loc as nat) {
            assert(in_use(pre.ids, loc as nat));
        }
    }
    assert forall|p: A::Real| #[trigger] probability(post.state, just(loc), p) implies real_zero(
        p,
    ) by {
        lemma_nothing_odd(post.state, just(loc), p);
    }
}

/// The probability of a parity that no entry has.
proof fn lemma_nothing_odd<A: Amplitude>(state: Map<Set<nat>, A>, locs: Seq<usize>, p: A::Real)
    requires
        probability(state, locs, p),
        locs.len() == 1,
        forall|k: Set<nat>| #[trigger] state.contains_key(k) ==> !k.contains(locs[0] as nat),
    ensures
        real_zero(p),
{
    let mask = positions(locs);
    let list = choose|list: Seq<(Set<nat>, A)>| #[trigger]
        lists(list, state) && tally(list, mask, true, p);
    assert(locs =~= just(locs[0]));
    assert forall|i: int| 0 <= i < list.len() implies !odd_parity(
        (#[trigger] list[i]).0,
        mask,
    ) by {
        assert(state.contains_key(list[i].0));
        lemma_parity_of_one(list[i].0, locs[0]);
    }
    lemma_empty_tally(list, mask, p);
}

proof fn lemma_empty_tally<A: Amplitude>(list: Seq<(Set<nat>, A)>, mask: Set<nat>, p: A::Real)
    requires
        tally(list, mask, true, p),
        forall|i: int| 0 <= i < list.len() ==> !odd_parity((#[trigger] list[i]).0, mask),
    ensures
        real_zero(p),
    decreases list.len(),
{
    if list.len() > 0 {
        let rest = list.drop_last();
        assert(list[list.len() - 1] == list.last());
        assert forall|i: int| 0 <= i < rest.len() implies !odd_parity(
            (#[trigger] rest[i]).0,
            mask,
        ) by {
            assert(rest[i] == list[i]);
        }
        lemma_empty_tally(rest, mask, p);
    }
}

/// After the release of a qubit its identifier is free, its location is zero in
/// every entry, and the other qubits are where they were, with what was queued
/// on them.
pub proof fn law_release<A: Amplitude>(
    pre: SimModel<A>,
    id: usize,
    sample: A::Real,
    post: SimModel<A>,
)
    requires
        pre.wf(),
        pre.ids.contains_key(id),
        release_step(pre, id, sample, post),
    ensures
        post.ids == pre.ids.remove(id),
        post.nothing_queued(id),
        forall|k: Set<nat>| #[trigger]
            post.state.contains_key(k) ==> !k.contains(pre.ids[id] as nat),
        forall|q: usize| q != id ==> #[trigger] same_queue(pre, post, q),
        forall|p: A::Real| #[trigger]
            probability(post.state, just(pre.ids[id]), p) ==> real_zero(p),
{
    let (odd, mid) = choose|odd: bool, mid: SimModel<A>| #[trigger]
        measure_step(pre, just(id), sample, odd, mid) && post == (SimModel {
            state: if odd {
                cleared(mid.state, mid.ids[id] as nat)
            } else {
                mid.state
            },
            ids: mid.ids.remove(id),
            ..mid
        });
    let flushed = choose|flushed: SimModel<A>| #[trigger]
        flush_step(pre, just(id), FlushLevel::HRxRy, flushed) && mid == (SimModel {
            state: mid.state,
            ..flushed
        }) && measured(flushed.state, locations(flushed.ids, just(id)), sample, odd, mid.state);
    lemma_flush_just(pre, id, flushed);
    lemma_measured_bit(pre, id, sample, odd, mid);
    assert forall|q: usize| q != id implies #[trigger] same_queue(pre, post, q) by {
        assert(same_queue(pre, flushed, q));
    }
    let loc = pre.ids[id];
    assert forall|p: A::Real| #[trigger] probability(post.state, just(loc), p) implies real_zero(
        p,
    ) by {
        assert(just(loc)[0] == loc);
        lemma_nothing_odd(post.state, just(loc), p);
    }
}

/// A qubit that is allocated after a release gets the identifier that became
/// free, or a lower one.
pub proof fn law_allocate_after_release<A: Amplitude>(
    pre: SimModel<A>,
    id: usize,
    sample: A::Real,
    mid: SimModel<A>,
    new_id: usize,
    post: SimModel<A>,
)
    requires
        pre.wf(),
        pre.ids.contains_key(id),
        release_step(pre, id, sample, mid),
        allocate_step(mid, new_id, post),
    ensures
        new_id <= id,
        (forall|q: usize| q < id ==> #[trigger] pre.ids.contains_key(q)) ==> new_id == id,
{
    law_release(pre, id, sample, mid);
    if new_id > id {
        assert(mid.ids.dom().contains(id));
    }
    if new_id < id && (forall|q: usize| q < id ==> #[trigger] pre.ids.contains_key(q)) {
        assert(pre.ids.contains_key(new_id));
        assert(mid.ids.contains_key(new_id));
    }
}

/// After a measurement every entry has the measured parity.
pub proof fn law_measured_parity<A: Amplitude>(
    pre: SimModel<A>,
    ids: Seq<usize>,
    sample: A::Real,
    odd: bool,
    post: SimModel<A>,
)
    requires
        measure_step(pre, ids, sample, odd, post),
    ensures
        forall|k: Set<nat>| #[trigger]
            post.state.contains_key(k) ==> odd_parity(k, positions(locations(post.ids, ids)))
                == odd,
{
    let mid = choose|mid: SimModel<A>| #[trigger]
        flush_step(pre, ids, FlushLevel::HRxRy, mid) && post == (SimModel {
            state: post.state,
            ..mid
        }) && measured(mid.state, locations(mid.ids, ids), sample, odd, post.state);
    lemma_collapsed_entries(mid.state, locations(mid.ids, ids), odd, post.state);
}

/// Flushing what has just been flushed changes nothing.
pub proof fn law_flush_twice<A: Amplitude>(
    pre: SimModel<A>,
    qubits: Seq<usize>,
    mid: SimModel<A>,
    level: FlushLevel,
    post: SimModel<A>,
)
    requires
        flush_step(pre, qubits, FlushLevel::HRxRy, mid),
        flush_step(mid, qubits, level, post),
    ensures
        post == mid,
{
    law_flush_empties_queues(pre, qubits, mid);
    lemma_flush_nothing(mid, qubits, level, post);
}

/// Two H gates on a qubit without queued rotations cancel, and the state is not
/// even looked at.
pub proof fn law_h_twice<A: Amplitude>(
    pre: SimModel<A>,
    target: usize,
    mid: SimModel<A>,
    post: SimModel<A>,
)
    requires
        !pre.rotation_queued(target),
        h_step(pre, target, mid),
        h_step(mid, target, post),
    ensures
        mid.state == pre.state,
        post == pre,
{
    assert(mid.rx == pre.rx && mid.ry == pre.ry && mid.ids == pre.ids);
    assert(post.h =~= pre.h);
}

/// Exchanging the identifiers of two qubits twice changes nothing.
pub proof fn law_swap_ids_twice<A: Amplitude>(
    pre: SimModel<A>,
    a: usize,
    b: usize,
    mid: SimModel<A>,
    post: SimModel<A>,
)
    requires
        swap_ids_step(pre, a, b, mid),
        swap_ids_step(mid, a, b, post),
    ensures
        post == pre,
{
    assert(post.ids =~= pre.ids);
    assert(post.rx =~= pre.rx);
    assert(post.ry =~= pre.ry);
    lemma_exchanged_twice(pre.h, a as nat, b as nat);
}

/// Exchanging the states at two locations twice gives back the flushed state.
pub proof fn law_swap_state_twice<A: Amplitude>(
    pre: SimModel<A>,
    a: usize,
    b: usize,
    mid: SimModel<A>,
    post: SimModel<A>,
)
    requires
        a != b,
        swap_state_step(pre, a, b, mid),
        swap_state_step(mid, a, b, post),
    ensures
        flush_step(pre, both(a, b), FlushLevel::HRxRy, post),
{
    let qubits = both(a, b);
    let flushed = choose|flushed: SimModel<A>| #[trigger]
        flush_step(pre, qubits, FlushLevel::HRxRy, flushed) && mid == (SimModel {
            state: state_exchanged(flushed.state, a as nat, b as nat),
            ..flushed
        });
    let again = choose|again: SimModel<A>| #[trigger]
        flush_step(mid, qubits, FlushLevel::HRxRy, again) && post == (SimModel {
            state: state_exchanged(again.state, a as nat, b as nat),
            ..again
        });
    law_flush_empties_queues(pre, qubits, flushed);
    assert forall|i: int| 0 <= i < qubits.len() implies mid.nothing_queued(#[trigger] qubits[i]) by {
        assert(flushed.nothing_queued(qubits[i]));
    }
    lemma_flush_nothing(mid, qubits, FlushLevel::HRxRy, again);
    let twice = state_exchanged(mid.state, a as nat, b as nat);
    assert forall|k: Set<nat>| #[trigger] twice.contains_key(k) == flushed.state.contains_key(k)
        && (twice.contains_key(k) ==> twice[k] == flushed.state[k]) by {
        lemma_exchanged_twice(k, a as nat, b as nat);
    }
    assert(twice =~= flushed.state);
}

/// An X gate on the state, with or without controls, undoes itself as long as
/// no amplitude counts as zero.
pub proof fn law_flip_twice<A: Amplitude>(
    pre: Map<Set<nat>, A>,
    ctls: Seq<usize>,
    target: nat,
    mid: Map<Set<nat>, A>,
    post: Map<Set<nat>, A>,
)
    requires
        no_control(ctls, target),
        forall|k: Set<nat>| #[trigger] pre.contains_key(k) ==> !nearly_zero(pre[k], true),
        gate_on_state(pre, ctls, target, Transform::X, mid),
        gate_on_state(mid, ctls, target, Transform::X, post),
    ensures
        post == pre,
{
    let x = Transform::<A>::X;
    assert forall|k: Set<nat>| #[trigger] post.contains_key(k) == pre.contains_key(k) && (
    post.contains_key(k) ==> post[k] == pre[k]) by {
        let from = image(k, ctls, target, x);
        lemma_image_involution(k, ctls, target, x);
        assert(gate_entry(pre, ctls, target, x, mid, from));
        assert(gate_entry(mid, ctls, target, x, post, k));
    }
    assert(post =~= pre);
}

/// A gate leaves the entries in which some control is zero, but for those that
/// count as zero already.
pub proof fn law_gate_guarded<A: Amplitude>(
    pre: Map<Set<nat>, A>,
    ctls: Seq<usize>,
    target: nat,
    gate: Transform<A>,
    post: Map<Set<nat>, A>,
    k: Set<nat>,
)
    requires
        gate_on_state(pre, ctls, target, gate, post),
        !all_set(k, ctls),
    ensures
        pre.contains_key(k) ==> kept(pre[k], k, post),
        !pre.contains_key(k) ==> !post.contains_key(k),
{
    assert(gate_entry(pre, ctls, target, gate, post, k));
}

/// A mixing gate leaves the entries in which some control is zero.
pub proof fn law_mix_guarded<A: Amplitude>(
    pre: Map<Set<nat>, A>,
    ctls: Seq<usize>,
    target: nat,
    mix: Mix<A>,
    post: Map<Set<nat>, A>,
    k: Set<nat>,
)
    requires
        mix_on_state(pre, ctls, target, mix, post),
        !all_set(k, ctls),
    ensures
        same_entry(pre, post, k),
{
    assert(mix_entry(pre, ctls, target, mix, post, k));
}

/// A gate that works entry by entry does not make the state larger, and keeps
/// its size if no new amplitude counts as zero.
pub proof fn law_gate_keeps_size<A: Amplitude>(
    pre: Map<Set<nat>, A>,
    ctls: Seq<usize>,
    target: nat,
    gate: Transform<A>,
    post: Map<Set<nat>, A>,
)
    requires
        pre.dom().finite(),
        no_control(ctls, target),
        gate_on_state(pre, ctls, target, gate, post),
    ensures
        post.dom().finite(),
        post.dom().len() <= pre.dom().len(),
        (forall|k: Set<nat>, v: A|
            pre.contains_key(k) && #[trigger] image_value(pre, k, ctls, target, gate, v)
                ==> !nearly_zero(v, true)) ==> post.dom().len() == pre.dom().len(),
{
    let turn = |k: Set<nat>| image(k, ctls, target, gate);
    let images = pre.dom().map(turn);
    assert forall|a: Set<nat>, b: Set<nat>| #[trigger] turn(a) == #[trigger] turn(b) implies a
        == b by {
        lemma_image_involution(a, ctls, target, gate);
        lemma_image_involution(b, ctls, target, gate);
    }
    pre.dom().lemma_map_finite(turn);
    vstd::set_lib::lemma_map_size(pre.dom(), images, turn);
    assert(post.dom().subset_of(images)) by {
        assert forall|k: Set<nat>| post.dom().contains(k) implies images.contains(k) by {
            assert(gate_entry(pre, ctls, target, gate, post, k));
            let from = turn(k);
            lemma_image_involution(k, ctls, target, gate);
            assert(pre.dom().contains(from) && turn(from) == k);
        }
    }
    vstd::set_lib::lemma_len_subset(post.dom(), images);
    if forall|k: Set<nat>, v: A|
        pre.contains_key(k) && #[trigger] image_value(pre, k, ctls, target, gate, v)
            ==> !nearly_zero(v, true) {
        assert forall|k: Set<nat>| images.contains(k) implies post.dom().contains(k) by {
            assert(gate_entry(pre, ctls, target, gate, post, k));
            let from = choose|from: Set<nat>| pre.dom().contains(from) && k == turn(from);
            lemma_image_involution(from, ctls, target, gate);
        }
        assert(post.dom() =~= images);
    }
}

/// A mixing gate at most doubles the size of the state.
pub proof fn law_mix_at_most_doubles<A: Amplitude>(
    pre: Map<Set<nat>, A>,
    ctls: Seq<usize>,
    target: nat,
    mix: Mix<A>,
    post: Map<Set<nat>, A>,
)
    requires
        pre.dom().finite(),
        mix_on_state(pre, ctls, target, mix, post),
    ensures
        post.dom().finite(),
        post.dom().len() <= 2 * pre.dom().len(),
{
    let turn = |k: Set<nat>| toggled(k, target);
    let images = pre.dom().map(turn);
    assert forall|a: Set<nat>, b: Set<nat>| #[trigger] turn(a) == #[trigger] turn(b) implies a
        == b by {
        assert(toggled(turn(a), target) =~= a && toggled(turn(b), target) =~= b);
    }
    pre.dom().lemma_map_finite(turn);
    vstd::set_lib::lemma_map_size(pre.dom(), images, turn);
    let both = pre.dom().union(images);
    assert(post.dom().subset_of(both)) by {
        assert forall|k: Set<nat>| post.dom().contains(k) implies both.contains(k) by {
            assert(mix_entry(pre, ctls, target, mix, post, k));
            if k.contains(target) {
                assert(k.insert(target) =~= k);
            } else {
                assert(k.remove(target) =~= k);
            }
            if !pre.contains_key(k) {
                let other = turn(k);
                assert(turn(other) =~= k);
                assert(pre.dom().contains(other));
            }
        }
    }
    vstd::set_lib::lemma_len_union(pre.dom(), images);
    vstd::set_lib::lemma_len_subset(post.dom(), both);
}

/// Right after a measurement nothing is queued on the measured qubits, which
/// are where they were.
pub proof fn law_measured_queues<A: Amplitude>(
    pre: SimModel<A>,
    ids: Seq<usize>,
    sample: A::Real,
    odd: bool,
    post: SimModel<A>,
)
    requires
        pre.wf(),
        pre.allocated(ids),
        measure_step(pre, ids, sample, odd, post),
    ensures
        post.wf(),
        post.ids == pre.ids,
        forall|i: int| 0 <= i < ids.len() ==> post.nothing_queued(#[trigger] ids[i]),
        forall|q: usize| !ids.contains(q) ==> #[trigger] same_queue(pre, post, q),
{
    let mid = choose|mid: SimModel<A>| #[trigger]
        flush_step(pre, ids, FlushLevel::HRxRy, mid) && post == (SimModel {
            state: post.state,
            ..mid
        }) && measured(mid.state, locations(mid.ids, ids), sample, odd, post.state);
    law_flush_empties_queues(pre, ids, mid);
    law_flush_keeps_wf(pre, ids, FlushLevel::HRxRy, mid);
    lemma_collapsed_entries(mid.state, locations(mid.ids, ids), odd, post.state);
    assert forall|i: int| 0 <= i < ids.len() implies post.nothing_queued(#[trigger] ids[i]) by {
        assert(mid.nothing_queued(ids[i]));
    }
    assert forall|q: usize| !ids.contains(q) implies #[trigger] same_queue(pre, post, q) by {
        assert(same_queue(pre, mid, q));
    }
}

/// The release of a qubit that has just been allocated gives back the
/// identifiers, their locations and everything queued.
pub proof fn law_allocate_then_release<A: Amplitude>(
    pre: SimModel<A>,
    id: usize,
    mid: SimModel<A>,
    sample: A::Real,
    post: SimModel<A>,
)
    requires
        pre.wf(),
        mid.wf(),
        allocate_step(pre, id, mid),
        release_step(mid, id, sample, post),
    ensures
        post == (SimModel { state: post.state, ..pre }),
{
    law_new_qubit_is_zero(pre, id, mid);
    let (odd, after) = choose|odd: bool, after: SimModel<A>| #[trigger]
        measure_step(mid, just(id), sample, odd, after) && post == (SimModel {
            state: if odd {
                cleared(after.state, after.ids[id] as nat)
            } else {
                after.state
            },
            ids: after.ids.remove(id),
            ..after
        });
    lemma_measured_new(mid, id, sample, odd, after);
    assert(post.ids =~= pre.ids);
}

/// A measurement of a qubit on which nothing is queued flushes nothing.
pub(crate) proof fn lemma_measured_new<A: Amplitude>(
    pre: SimModel<A>,
    id: usize,
    sample: A::Real,
    odd: bool,
    post: SimModel<A>,
)
    requires
        pre.nothing_queued(id),
        measure_step(pre, just(id), sample, odd, post),
    ensures
        post == (SimModel { state: post.state, ..pre }),
        measured(pre.state, just(pre.ids[id]), sample, odd, post.state),
{
    let flushed = choose|flushed: SimModel<A>| #[trigger]
        flush_step(pre, just(id), FlushLevel::HRxRy, flushed) && post == (SimModel {
            state: post.state,
            ..flushed
        }) && measured(flushed.state, locations(flushed.ids, just(id)), sample, odd, post.state);
    assert forall|i: int| 0 <= i < just(id).len() implies pre.nothing_queued(
        #[trigger] just(id)[i],
    ) by {}
    lemma_flush_nothing(pre, just(id), FlushLevel::HRxRy, flushed);
    assert(locations(pre.ids, just(id)) =~= just(pre.ids[id]));
}

} // verus!
