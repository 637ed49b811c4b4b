//! The operations on the sparse state: a hash map from basis states to
//! amplitudes.
use crate::arith::{
    complex, imaginary_unit, norm_square, product, real_half, real_sqrt, real_sum, real_zero,
    scaled, Amplitude, Real,
};
use crate::bits::{big_bit, big_clone, big_set_bit, bits_of, mask_of, odd_parity, parity, toggled};
use crate::fxmap::{basis_entries, basis_get, basis_insert, basis_list, basis_map, basis_new, lists};
use crate::matrix::{lemma_controls_kept, no_control};
use crate::model::{
    all_set, factor_of, finished, flips, gate_entry, gate_on_state, image, image_value, kept,
    kept_finished, lone_value, mix_entry, mix_on_state, pair_value, phase_of_angle, rz_factor,
    same_entry, signed_half, signed_unit, transformed, weighted_sum, Mix, Transform,
};
use crate::steps::{
    cleared, collapsed, collapsed_entry, exchanged, norm_added, normalizer, probability,
    state_exchanged, tally,
};
use num_bigint::BigUint;
use rustc_hash::FxHashMap;
use vstd::prelude::*;

verus! {

/// The sparse state: an amplitude for each basis state that has one.
pub type SparseState<A> = FxHashMap<BigUint, A>;

/// Whether the bits at all the given locations are one.
pub fn all_bits(index: &BigUint, ctls: &[usize]) -> (r: bool)
    ensures
        r == all_set(bits_of(*index), ctls@),
{
    for n in 0..ctls.len()
        invariant
            forall|i: int| 0 <= i < n ==> bits_of(*index).contains(#[trigger] ctls@[i] as nat),
    {
        if !big_bit(index, ctls[n]) {
            return false;
        }
    }
    true
}

/// The imaginary unit, or its opposite if `negative`.
pub(crate) fn unit<A: Amplitude>(negative: bool) -> (r: A)
    ensures
        signed_unit(negative, r),
{
    let u = A::i();
    assert(imaginary_unit(u));
    if negative {
        u.negate()
    } else {
        u
    }
}

/// Performs the Pauli-X transformation on a single state.
pub fn x_transform<A: Amplitude>(entry: (BigUint, A), target: usize) -> (r: (BigUint, A))
    ensures
        bits_of(r.0) == toggled(bits_of(entry.0), target as nat),
        transformed(Transform::X, bits_of(entry.0).contains(target as nat), entry.1, r.1),
{
    let (mut index, val) = entry;
    let bit = big_bit(&index, target);
    big_set_bit(&mut index, target, !bit);
    (index, val)
}

/// Performs the Pauli-Y transformation on a single state.
pub fn y_transform<A: Amplitude>(entry: (BigUint, A), target: usize) -> (r: (BigUint, A))
    ensures
        bits_of(r.0) == toggled(bits_of(entry.0), target as nat),
        transformed(Transform::Y, bits_of(entry.0).contains(target as nat), entry.1, r.1),
{
    let (mut index, val) = entry;
    let bit = big_bit(&index, target);
    big_set_bit(&mut index, target, !bit);
    let factor = unit::<A>(bit);
    assert(factor_of(Transform::Y, bit, factor));
    (index, val.times(factor))
}

/// Performs a phase transformation (a rotation in the computational basis) on
/// a single state.
pub fn phase_transform<A: Amplitude>(phase: A, entry: (BigUint, A), target: usize) -> (r: (
    BigUint,
    A,
))
    ensures
        r.0 == entry.0,
        transformed(
            Transform::Phase(phase),
            bits_of(entry.0).contains(target as nat),
            entry.1,
            r.1,
        ),
{
    let (index, val) = entry;
    let bit = big_bit(&index, target);
    let factor = if bit {
        phase
    } else {
        A::one()
    };
    assert(factor_of(Transform::Phase(phase), bit, factor));
    (index, val.times(factor))
}

/// Performs the Rz transformation with the given angle on a single state.
pub fn rz_transform<A: Amplitude>(entry: (BigUint, A), theta: A::Real, target: usize) -> (r: (
    BigUint,
    A,
))
    ensures
        r.0 == entry.0,
        transformed(
            Transform::Rz(theta),
            bits_of(entry.0).contains(target as nat),
            entry.1,
            r.1,
        ),
{
    let (index, val) = entry;
    let bit = big_bit(&index, target);
    let half = theta.half();
    assert(real_half(theta, half));
    let angle = if bit {
        half
    } else {
        half.negate()
    };
    assert(signed_half(theta, bit, angle));
    let zero = A::Real::zero();
    let c = A::new(zero, angle);
    assert(complex(zero, angle, c));
    let factor = c.exp();
    assert(phase_of_angle(angle, factor));
    assert(rz_factor(theta, bit, factor));
    assert(factor_of(Transform::Rz(theta), bit, factor));
    (index, val.times(factor))
}

/// Applies a gate that works entry by entry to a single entry.
fn transform_entry<A: Amplitude>(gate: &Transform<A>, entry: (BigUint, A), target: usize) -> (r: (
    BigUint,
    A,
))
    ensures
        bits_of(r.0) == (if flips(*gate) {
            toggled(bits_of(entry.0), target as nat)
        } else {
            bits_of(entry.0)
        }),
        transformed(*gate, bits_of(entry.0).contains(target as nat), entry.1, r.1),
{
    match gate {
        Transform::X => x_transform(entry, target),
        Transform::Y => y_transform(entry, target),
        Transform::Phase(phase) => phase_transform(*phase, entry, target),
        Transform::Rz(theta) => rz_transform(entry, *theta, target),
    }
}

/// Whether one of the first `n` entries of the list is under `k`.
spec fn seen<A>(list: Seq<(Set<nat>, A)>, n: int, k: Set<nat>) -> bool {
    exists|i: int| 0 <= i < n && (#[trigger] list[i]).0 == k
}

/// The entry of the list at place `n` is the only one under its basis state.
proof fn lemma_seen_next<A>(list: Seq<(Set<nat>, A)>, m: Map<Set<nat>, A>, n: int, k: Set<nat>)
    requires
        lists(list, m),
        0 <= n < list.len(),
    ensures
        seen(list, n + 1, k) == (seen(list, n, k) || k == list[n].0),
        k == list[n].0 ==> !seen(list, n, k),
        m.contains_key(list[n].0),
        m[list[n].0] == list[n].1,
{
    if seen(list, n + 1, k) && !seen(list, n, k) {
        let i = choose|i: int| 0 <= i < n + 1 && (#[trigger] list[i]).0 == k;
        assert(i == n);
    }
    if seen(list, n, k) {
        let i = choose|i: int| 0 <= i < n && (#[trigger] list[i]).0 == k;
        assert(list[i].0 == k);
    }
}

/// At the end of the list every entry has been seen.
proof fn lemma_seen_all<A>(list: Seq<(Set<nat>, A)>, m: Map<Set<nat>, A>, k: Set<nat>)
    requires
        lists(list, m),
    ensures
        seen(list, list.len() as int, k) == m.contains_key(k),
{
}

/// A gate that works entry by entry takes different basis states to different
/// ones: applied twice it gives back the first.
pub(crate) proof fn lemma_image_involution<A: Amplitude>(
    k: Set<nat>,
    ctls: Seq<usize>,
    target: nat,
    gate: Transform<A>,
)
    requires
        no_control(ctls, target),
    ensures
        image(image(k, ctls, target, gate), ctls, target, gate) == k,
        all_set(image(k, ctls, target, gate), ctls) == all_set(k, ctls),
{
    lemma_controls_kept(k, ctls, target);
    assert(toggled(toggled(k, target), target) =~= k);
}

/// What the loop over the entries has left under `k` after `n` entries.
spec fn gate_entry_so_far<A: Amplitude>(
    pre: Map<Set<nat>, A>,
    list: Seq<(Set<nat>, A)>,
    n: int,
    ctls: Seq<usize>,
    target: nat,
    gate: Transform<A>,
    post: Map<Set<nat>, A>,
    k: Set<nat>,
) -> bool {
    if seen(list, n, image(k, ctls, target, gate)) {
        gate_entry(pre, ctls, target, gate, post, k)
    } else {
        !post.contains_key(k)
    }
}

/// Utility for performing an update of the state vector with the given target
/// and controls, where each new entry can be calculated from one entry alone.
/// This covers the multicontrolled gates except for H, Rx, and Ry.
pub fn controlled_gate<A: Amplitude>(
    state: &SparseState<A>,
    ctls: &[usize],
    target: usize,
    gate: &Transform<A>,
) -> (post: SparseState<A>)
    requires
        no_control(ctls@, target as nat),
    ensures
        gate_on_state(basis_map(*state), ctls@, target as nat, *gate, basis_map(post)),
{
    let entries = basis_entries(state);
    let mut post: SparseState<A> = basis_new();
    let ghost pre = basis_map(*state);
    let ghost list = basis_list(entries@);
    let mut n: usize = 0;
    while n < entries.len()
        invariant
            n <= entries.len(),
            no_control(ctls@, target as nat),
            list == basis_list(entries@),
            lists(list, pre),
            forall|k: Set<nat>| #[trigger]
                gate_entry_so_far(
                    pre,
                    list,
                    n as int,
                    ctls@,
                    target as nat,
                    *gate,
                    basis_map(post),
                    k,
                ),
        decreases entries.len() - n,
    {
        let ghost before = basis_map(post);
        let ghost from = list[n as int].0;
        let ghost to = image(from, ctls@, target as nat, *gate);
        let index = big_clone(&entries[n].0);
        let value = entries[n].1;
        let (k, v) = if all_bits(&index, ctls) {
            transform_entry(gate, (index, value), target)
        } else {
            (index, value)
        };
        proof {
            lemma_seen_next(list, pre, n as int, from);
            assert(bits_of(k) == to);
            assert(image_value(pre, from, ctls@, target as nat, *gate, v));
        }
        if !v.is_nearly_zero() {
            basis_insert(&mut post, k, v);
        } else {
            assert(!before.contains_key(to)) by {
                lemma_image_involution(from, ctls@, target as nat, *gate);
                assert(gate_entry_so_far(
                    pre,
                    list,
                    n as int,
                    ctls@,
                    target as nat,
                    *gate,
                    before,
                    to,
                ));
            }
        }
        proof {
            let after = basis_map(post);
            assert(kept(v, to, after));
            assert forall|k: Set<nat>| #[trigger]
                gate_entry_so_far(
                    pre,
                    list,
                    n + 1,
                    ctls@,
                    target as nat,
                    *gate,
                    after,
                    k,
                ) by {
                let origin = image(k, ctls@, target as nat, *gate);
                lemma_image_involution(k, ctls@, target as nat, *gate);
                lemma_image_involution(from, ctls@, target as nat, *gate);
                lemma_seen_next(list, pre, n as int, origin);
                assert(gate_entry_so_far(
                    pre,
                    list,
                    n as int,
                    ctls@,
                    target as nat,
                    *gate,
                    before,
                    k,
                ));
                if k == to {
                    assert(origin == from);
                } else {
                    assert(origin != from);
                    assert(after.contains_key(k) == before.contains_key(k));
                    if seen(list, n as int, origin) {
                        if pre.contains_key(origin) {
                            let w = choose|w: A| #[trigger]
                                image_value(pre, origin, ctls@, target as nat, *gate, w) && kept(
                                    w,
                                    k,
                                    before,
                                );
                            assert(kept(w, k, after));
                        }
                    }
                }
            }
        }
        n += 1;
    }
    proof {
        assert forall|k: Set<nat>| #[trigger]
            gate_entry(pre, ctls@, target as nat, *gate, basis_map(post), k) by {
            lemma_seen_all(list, pre, image(k, ctls@, target as nat, *gate));
            assert(gate_entry_so_far(
                pre,
                list,
                list.len() as int,
                ctls@,
                target as nat,
                *gate,
                basis_map(post),
                k,
            ));
        }
    }
    post
}

/// What a mixing gate makes of an entry whose partner has none.
fn lone<A: Amplitude>(mix: &Mix<A>, from: bool, to: bool, v: A) -> (r: A)
    ensures
        lone_value(*mix, from, to, v, r),
{
    match mix {
        Mix::Hadamard(factor) => {
            let u = v.scale(*factor);
            assert(scaled(v, *factor, u));
            if from && to {
                u.negate()
            } else {
                u
            }
        },
        Mix::Rotation { m00, m01, m10 } => {
            if from == to {
                v.times(*m00)
            } else if from {
                v.times(*m01)
            } else {
                v.times(*m10)
            }
        },
    }
}

/// The sum of two products.
fn weigh<A: Amplitude>(a: A, x: A, b: A, y: A) -> (r: A)
    ensures
        weighted_sum(a, x, b, y, r),
{
    let u = a.times(x);
    let w = b.times(y);
    assert(product(a, x, u) && product(b, y, w));
    u.plus(w)
}

/// What a mixing gate makes of two entries, before the last scaling.
fn pair<A: Amplitude>(mix: &Mix<A>, to: bool, v0: A, v1: A) -> (r: A)
    ensures
        pair_value(*mix, to, v0, v1, r),
{
    match mix {
        Mix::Hadamard(_) => {
            if to {
                v0.minus(v1)
            } else {
                v0.plus(v1)
            }
        },
        Mix::Rotation { m00, m01, m10 } => {
            if to {
                weigh(v0, *m10, v1, *m00)
            } else {
                weigh(v0, *m00, v1, *m01)
            }
        },
    }
}

/// The last scaling of a mixing gate.
fn finish<A: Amplitude>(mix: &Mix<A>, v: A) -> (r: A)
    ensures
        finished(*mix, v, r),
{
    match mix {
        Mix::Hadamard(factor) => v.scale(*factor),
        Mix::Rotation { .. } => v,
    }
}

/// The entry from which the loop over the entries makes what it leaves under
/// `k`: of two that are mixed, the one with target bit zero if there is one.
spec fn leader<A>(
    pre: Map<Set<nat>, A>,
    ctls: Seq<usize>,
    target: nat,
    k: Set<nat>,
) -> Set<nat> {
    if !all_set(k, ctls) {
        k
    } else if pre.contains_key(k.remove(target)) {
        k.remove(target)
    } else {
        k.insert(target)
    }
}

/// What the loop over the entries has left under `k` after `n` entries.
spec fn mix_entry_so_far<A: Amplitude>(
    pre: Map<Set<nat>, A>,
    list: Seq<(Set<nat>, A)>,
    n: int,
    ctls: Seq<usize>,
    target: nat,
    mix: Mix<A>,
    post: Map<Set<nat>, A>,
    k: Set<nat>,
) -> bool {
    if seen(list, n, leader(pre, ctls, target, k)) {
        mix_entry(pre, ctls, target, mix, post, k)
    } else {
        !post.contains_key(k)
    }
}

/// What a mixing gate leaves under `k` depends on nothing but the entry there.
proof fn lemma_mix_entry_local<A: Amplitude>(
    pre: Map<Set<nat>, A>,
    ctls: Seq<usize>,
    target: nat,
    mix: Mix<A>,
    a: Map<Set<nat>, A>,
    b: Map<Set<nat>, A>,
    k: Set<nat>,
)
    requires
        mix_entry(pre, ctls, target, mix, a, k),
        same_entry(a, b, k),
    ensures
        mix_entry(pre, ctls, target, mix, b, k),
{
    let k0 = k.remove(target);
    let k1 = k.insert(target);
    if all_set(k, ctls) && pre.contains_key(k0) && pre.contains_key(k1) {
        let v = choose|v: A| #[trigger]
            pair_value(mix, k.contains(target), pre[k0], pre[k1], v) && kept_finished(mix, v, k, a);
        assert(kept_finished(mix, v, k, b));
    }
}

/// Utility for applying a gate that mixes the entries which differ in the
/// target bit only. Note that this can increase the size of the state vector by
/// introducing new non-zero states or decrease the size by bringing some states
/// to zero.
pub fn mix_pairs<A: Amplitude>(
    state: &SparseState<A>,
    ctls: &[usize],
    target: usize,
    mix: &Mix<A>,
) -> (post: SparseState<A>)
    requires
        no_control(ctls@, target as nat),
    ensures
        mix_on_state(basis_map(*state), ctls@, target as nat, *mix, basis_map(post)),
{
    let entries = basis_entries(state);
    let mut post: SparseState<A> = basis_new();
    let ghost pre = basis_map(*state);
    let ghost list = basis_list(entries@);
    let ghost t = target as nat;
    let mut n: usize = 0;
    while n < entries.len()
        invariant
            n <= entries.len(),
            no_control(ctls@, target as nat),
            t == target as nat,
            pre == basis_map(*state),
            list == basis_list(entries@),
            lists(list, pre),
            forall|k: Set<nat>| #[trigger]
                mix_entry_so_far(pre, list, n as int, ctls@, t, *mix, basis_map(post), k),
        decreases entries.len() - n,
    {
        let ghost before = basis_map(post);
        let ghost from = list[n as int].0;
        let index = &entries[n].0;
        let value = entries[n].1;
        let ghost k0 = from.remove(t);
        let ghost k1 = from.insert(t);
        proof {
            lemma_seen_next(list, pre, n as int, from);
            assert(bits_of(*index) == from);
        }
        if all_bits(index, ctls) {
            let bit = big_bit(index, target);
            let mut zero_bit_index = big_clone(index);
            big_set_bit(&mut zero_bit_index, target, false);
            let mut one_bit_index = big_clone(index);
            big_set_bit(&mut one_bit_index, target, true);
            let flipped = if bit {
                basis_get(state, &zero_bit_index)
            } else {
                basis_get(state, &one_bit_index)
            };
            assert(from =~= if bit {
                k1
            } else {
                k0
            });
            match flipped {
                None => {
                    // There is no superposition for this state: create the additional state.
                    let v0 = lone(mix, bit, false, value);
                    let v1 = lone(mix, bit, true, value);
                    basis_insert(&mut post, zero_bit_index, v0);
                    basis_insert(&mut post, one_bit_index, v1);
                },
                Some(flipped_value) => {
                    // There is a superposition already: calculate the updates of both entries,
                    // once, when the one with target bit zero comes up.
                    if !bit {
                        assert(mix_entry_so_far(pre, list, n as int, ctls@, t, *mix, before, k0));
                        assert(mix_entry_so_far(pre, list, n as int, ctls@, t, *mix, before, k1));
                        let v0 = pair(mix, false, value, flipped_value);
                        if !v0.is_nearly_zero() {
                            basis_insert(&mut post, zero_bit_index, finish(mix, v0));
                        }
                        let v1 = pair(mix, true, value, flipped_value);
                        if !v1.is_nearly_zero() {
                            basis_insert(&mut post, one_bit_index, finish(mix, v1));
                        }
                    }
                },
            }
        } else {
            basis_insert(&mut post, big_clone(index), value);
        }
        proof {
            let after = basis_map(post);
            assert forall|k: Set<nat>| #[trigger]
                mix_entry_so_far(pre, list, n + 1, ctls@, t, *mix, after, k) by {
                let lead = leader(pre, ctls@, t, k);
                lemma_seen_next(list, pre, n as int, lead);
                lemma_controls_kept(k, ctls@, target as nat);
                lemma_controls_kept(from, ctls@, target as nat);
                assert(mix_entry_so_far(pre, list, n as int, ctls@, t, *mix, before, k));
                if lead == from {
                    assert(!before.contains_key(k));
                    if all_set(k, ctls@) {
                        assert(k =~= if k.contains(t) {
                            k1
                        } else {
                            k0
                        });
                        assert(k.remove(t) =~= k0);
                        assert(k.insert(t) =~= k1);
                    }
                    assert(mix_entry(pre, ctls@, t, *mix, after, k));
                } else {
                    if k == k0 || k == k1 {
                        assert(k0.insert(t) =~= k1);
                        assert(k1.remove(t) =~= k0);
                        assert(k0.remove(t) =~= k0);
                        assert(k1.insert(t) =~= k1);
                    }
                    assert(same_entry(before, after, k));
                    if mix_entry(pre, ctls@, t, *mix, before, k) {
                        lemma_mix_entry_local(pre, ctls@, t, *mix, before, after, k);
                    }
                }
            }
        }
        n += 1;
    }
    proof {
        assert forall|k: Set<nat>| #[trigger]
            mix_entry(pre, ctls@, t, *mix, basis_map(post), k) by {
            lemma_seen_all(list, pre, leader(pre, ctls@, t, k));
            assert(mix_entry_so_far(
                pre,
                list,
                list.len() as int,
                ctls@,
                t,
                *mix,
                basis_map(post),
                k,
            ));
            if all_set(k, ctls@) && !pre.contains_key(leader(pre, ctls@, t, k)) {
                assert(!pre.contains_key(k.remove(t)) && !pre.contains_key(k.insert(t)));
            }
        }
    }
    post
}

/// The sum of the squared norms of the entries whose parity is `odd`.
fn tally_norms<A: Amplitude>(entries: &Vec<(BigUint, A)>, mask: &BigUint, odd: bool) -> (total:
    A::Real)
    ensures
        tally(basis_list(entries@), bits_of(*mask), odd, total),
{
    let ghost list = basis_list(entries@);
    let ghost m = bits_of(*mask);
    let mut total = A::Real::zero();
    assert(real_zero(total));
    let mut n: usize = 0;
    while n < entries.len()
        invariant
            n <= entries.len(),
            list == basis_list(entries@),
            m == bits_of(*mask),
            tally(list.take(n as int), m, odd, total),
        decreases entries.len() - n,
    {
        let ghost done = list.take(n + 1);
        assert(done.drop_last() =~= list.take(n as int));
        assert(done.last() == list[n as int]);
        if parity(&entries[n].0, mask) == odd {
            let norm = entries[n].1.norm_sqr();
            let sum = total.plus(norm);
            assert(norm_square(entries[n as int].1, norm) && real_sum(total, norm, sum));
            assert(norm_added(total, done.last().1, sum));
            total = sum;
        }
        n += 1;
    }
    assert(list.take(list.len() as int) =~= list);
    total
}

/// Utility to get the sum of all probabilities where an odd number of the bits
/// at the given locations are set. This corresponds to the probability of
/// jointly measuring those qubits in the computational basis.
pub fn check_joint_probability<A: Amplitude>(state: &SparseState<A>, locs: &[usize]) -> (p: A::Real)
    ensures
        probability(basis_map(*state), locs@, p),
{
    let mask = mask_of(locs);
    let entries = basis_entries(state);
    tally_norms(&entries, &mask, true)
}

/// What the loop over the entries has left under `k` after `n` entries.
spec fn collapsed_so_far<A: Amplitude>(
    pre: Map<Set<nat>, A>,
    list: Seq<(Set<nat>, A)>,
    n: int,
    mask: Set<nat>,
    odd: bool,
    factor: A::Real,
    post: Map<Set<nat>, A>,
    k: Set<nat>,
) -> bool {
    if seen(list, n, k) {
        collapsed_entry(pre, mask, odd, factor, post, k)
    } else {
        !post.contains_key(k)
    }
}

/// Utility to collapse the joint probability of a particular set of locations
/// in the sparse state. The entries that do not correspond to the given boolean
/// value are removed, and then the whole state is normalized.
pub fn joint_collapse<A: Amplitude>(state: &SparseState<A>, locs: &[usize], val: bool) -> (post:
    SparseState<A>)
    ensures
        collapsed(basis_map(*state), locs@, val, basis_map(post)),
{
    let mask = mask_of(locs);
    let entries = basis_entries(state);
    let ghost pre = basis_map(*state);
    let ghost list = basis_list(entries@);
    let ghost m = bits_of(mask);
    let scaling_denominator = tally_norms(&entries, &mask, val);
    let root = scaling_denominator.sqrt();
    assert(real_sqrt(scaling_denominator, root));
    let scaling = root.recip();
    assert(normalizer(scaling_denominator, scaling));
    let mut post: SparseState<A> = basis_new();
    let mut n: usize = 0;
    while n < entries.len()
        invariant
            n <= entries.len(),
            list == basis_list(entries@),
            lists(list, pre),
            m == bits_of(mask),
            forall|k: Set<nat>| #[trigger]
                collapsed_so_far(pre, list, n as int, m, val, scaling, basis_map(post), k),
        decreases entries.len() - n,
    {
        let ghost before = basis_map(post);
        let ghost from = list[n as int].0;
        proof {
            lemma_seen_next(list, pre, n as int, from);
            assert(collapsed_so_far(pre, list, n as int, m, val, scaling, before, from));
        }
        if parity(&entries[n].0, &mask) == val {
            let scaled_value = entries[n].1.scale(scaling);
            assert(scaled(pre[from], scaling, scaled_value));
            if !scaled_value.is_nearly_zero() {
                basis_insert(&mut post, big_clone(&entries[n].0), scaled_value);
            }
            assert(kept(scaled_value, from, basis_map(post)));
        }
        proof {
            let after = basis_map(post);
            assert forall|k: Set<nat>| #[trigger]
                collapsed_so_far(pre, list, n + 1, m, val, scaling, after, k) by {
                lemma_seen_next(list, pre, n as int, k);
                assert(collapsed_so_far(pre, list, n as int, m, val, scaling, before, k));
                if k != from {
                    assert(same_entry(before, after, k));
                    if seen(list, n as int, k) && pre.contains_key(k) && odd_parity(k, m) == val {
                        let v = choose|v: A| #[trigger]
                            scaled(pre[k], scaling, v) && kept(v, k, before);
                        assert(kept(v, k, after));
                    }
                }
            }
        }
        n += 1;
    }
    proof {
        assert forall|k: Set<nat>| #[trigger]
            collapsed_entry(pre, m, val, scaling, basis_map(post), k) by {
            lemma_seen_all(list, pre, k);
            assert(collapsed_so_far(
                pre,
                list,
                list.len() as int,
                m,
                val,
                scaling,
                basis_map(post),
                k,
            ));
        }
    }
    post
}

/// Clears the bit at the location in every entry, where it is set in all.
pub fn clear_bit<A: Amplitude>(state: &SparseState<A>, loc: usize) -> (post: SparseState<A>)
    requires
        forall|k: Set<nat>| #[trigger]
            basis_map(*state).contains_key(k) ==> k.contains(loc as nat),
    ensures
        basis_map(post) == cleared(basis_map(*state), loc as nat),
{
    let entries = basis_entries(state);
    let ghost pre = basis_map(*state);
    let ghost list = basis_list(entries@);
    let ghost l = loc as nat;
    let mut post: SparseState<A> = basis_new();
    let mut n: usize = 0;
    while n < entries.len()
        invariant
            n <= entries.len(),
            list == basis_list(entries@),
            lists(list, pre),
            l == loc as nat,
            forall|k: Set<nat>| #[trigger] pre.contains_key(k) ==> k.contains(l),
            forall|k: Set<nat>| #[trigger]
                basis_map(post).contains_key(k) <==> !k.contains(l) && seen(
                    list,
                    n as int,
                    k.insert(l),
                ),
            forall|k: Set<nat>| #[trigger]
                basis_map(post).contains_key(k) ==> basis_map(post)[k] == pre[k.insert(l)],
        decreases entries.len() - n,
    {
        let ghost before = basis_map(post);
        let ghost from = list[n as int].0;
        let mut index = big_clone(&entries[n].0);
        big_set_bit(&mut index, loc, false);
        basis_insert(&mut post, index, entries[n].1);
        proof {
            lemma_seen_next(list, pre, n as int, from);
            assert(from.remove(l).insert(l) =~= from);
            assert forall|k: Set<nat>| #[trigger]
                basis_map(post).contains_key(k) <==> !k.contains(l) && seen(
                    list,
                    n + 1,
                    k.insert(l),
                ) by {
                lemma_seen_next(list, pre, n as int, k.insert(l));
                assert(before.contains_key(k) <==> !k.contains(l) && seen(
                    list,
                    n as int,
                    k.insert(l),
                ));
                if !k.contains(l) {
                    assert(k.insert(l).remove(l) =~= k);
                }
            }
        }
        n += 1;
    }
    proof {
        assert forall|k: Set<nat>| #[trigger]
            basis_map(post).contains_key(k) <==> cleared(pre, l).contains_key(k) by {
            lemma_seen_all(list, pre, k.insert(l));
        }
        assert(basis_map(post) =~= cleared(pre, l));
    }
    post
}

/// Exchanging two bits twice gives back the first.
pub(crate) proof fn lemma_exchanged_twice(k: Set<nat>, a: nat, b: nat)
    ensures
        exchanged(exchanged(k, a, b), a, b) == k,
{
    assert(exchanged(exchanged(k, a, b), a, b) =~= k);
}

/// Exchanges the bits at two locations in every entry.
pub fn exchange_bits<A: Amplitude>(state: &SparseState<A>, q1: usize, q2: usize) -> (post:
    SparseState<A>)
    requires
        q1 != q2,
    ensures
        basis_map(post) == state_exchanged(basis_map(*state), q1 as nat, q2 as nat),
{
    let entries = basis_entries(state);
    let ghost pre = basis_map(*state);
    let ghost list = basis_list(entries@);
    let ghost (a, b) = (q1 as nat, q2 as nat);
    let mut post: SparseState<A> = basis_new();
    let mut n: usize = 0;
    while n < entries.len()
        invariant
            n <= entries.len(),
            list == basis_list(entries@),
            lists(list, pre),
            q1 != q2,
            a == q1 as nat,
            b == q2 as nat,
            forall|k: Set<nat>| #[trigger]
                basis_map(post).contains_key(k) <==> seen(list, n as int, exchanged(k, a, b)),
            forall|k: Set<nat>| #[trigger]
                basis_map(post).contains_key(k) ==> basis_map(post)[k] == pre[exchanged(k, a, b)],
        decreases entries.len() - n,
    {
        let ghost before = basis_map(post);
        let ghost from = list[n as int].0;
        let mut index = big_clone(&entries[n].0);
        let (bit1, bit2) = (big_bit(&index, q1), big_bit(&index, q2));
        if bit1 != bit2 {
            big_set_bit(&mut index, q1, !bit1);
            big_set_bit(&mut index, q2, !bit2);
        }
        assert(bits_of(index) =~= exchanged(from, a, b));
        basis_insert(&mut post, index, entries[n].1);
        proof {
            lemma_seen_next(list, pre, n as int, from);
            lemma_exchanged_twice(from, a, b);
            assert forall|k: Set<nat>| #[trigger]
                basis_map(post).contains_key(k) <==> seen(list, n + 1, exchanged(k, a, b)) by {
                lemma_seen_next(list, pre, n as int, exchanged(k, a, b));
                lemma_exchanged_twice(k, a, b);
                assert(before.contains_key(k) <==> seen(list, n as int, exchanged(k, a, b)));
            }
        }
        n += 1;
    }
    proof {
        assert forall|k: Set<nat>| #[trigger]
            basis_map(post).contains_key(k) <==> state_exchanged(pre, a, b).contains_key(k) by {
            lemma_seen_all(list, pre, exchanged(k, a, b));
        }
        assert(basis_map(post) =~= state_exchanged(pre, a, b));
    }
    post
}

} // verus!
