//! The laws of what the words mean in which the other laws speak: controls,
//! parities, free identifiers and refusals, in terms of the qubits alone.
use crate::arith::Amplitude;
use crate::bits::{decimal, odd_parity, positions};
use crate::bookkeeping::{law_measured_parity, law_measured_queues};
use crate::ids::{first_missing, first_repeat, QubitError};
use crate::model::{all_set, ids_apart, locations, SimModel};
use crate::steps::{allocate_step, lowest_free, measure_step, used_locations};
use crate::texts::lemma_decimal_tells;
use vstd::prelude::*;

verus! {

/// The controls of a gate are all one in a basis state exactly if each of them
/// is, wherever it stands in the list.
pub proof fn law_controls<A: Amplitude>(s: SimModel<A>, ctls: Seq<usize>, k: Set<nat>)
    ensures
        all_set(k, locations(s.ids, ctls)) == (forall|q: usize| #[trigger]
            ctls.contains(q) ==> k.contains(s.ids[q] as nat)),
{
    let locs = locations(s.ids, ctls);
    if all_set(k, locs) {
        assert forall|q: usize| #[trigger] ctls.contains(q) implies k.contains(s.ids[q] as nat) by {
            let i = choose|i: int| 0 <= i < ctls.len() && ctls[i] == q;
            assert(k.contains(locs[i] as nat));
        }
    }
    if forall|q: usize| #[trigger] ctls.contains(q) ==> k.contains(s.ids[q] as nat) {
        assert forall|i: int| 0 <= i < locs.len() implies k.contains(#[trigger] locs[i] as nat) by {
            assert(ctls.contains(ctls[i]));
        }
    }
}

/// The qubits in the list that are one in a basis state.
pub open spec fn ones_among<A: Amplitude>(s: SimModel<A>, ids: Seq<usize>, k: Set<nat>) -> Set<
    usize,
> {
    ids.to_set().filter(|q: usize| k.contains(s.ids[q] as nat))
}

/// The joint parity of qubits is odd in a basis state exactly if an odd number of
/// them is one.
pub proof fn law_parity_counts<A: Amplitude>(s: SimModel<A>, ids: Seq<usize>, k: Set<nat>)
    requires
        ids_apart(s.ids),
        s.allocated(ids),
    ensures
        ones_among(s, ids, k).finite(),
        odd_parity(k, positions(locations(s.ids, ids))) == (ones_among(s, ids, k).len() % 2 == 1),
{
    let locs = locations(s.ids, ids);
    let ones = ones_among(s, ids, k);
    let place = |q: usize| s.ids[q] as nat;
    let bits = k.intersect(positions(locs));
    vstd::seq_lib::seq_to_set_is_finite(ids);
    ids.to_set().lemma_len_filter(|q: usize| k.contains(s.ids[q] as nat));
    assert(ones.map(place) =~= bits) by {
        assert forall|x: nat| ones.map(place).contains(x) == bits.contains(x) by {
            if ones.map(place).contains(x) {
                let q = choose|q: usize| ones.contains(q) && #[trigger] place(q) == x;
                assert(ids.contains(q));
                let i = choose|i: int| 0 <= i < ids.len() && ids[i] == q;
                assert(locs[i] == x);
            }
            if bits.contains(x) {
                let i = choose|i: int| 0 <= i < locs.len() && #[trigger] locs[i] == x;
                assert(ids.contains(ids[i]));
                assert(ones.contains(ids[i]) && place(ids[i]) == x);
            }
        }
    }
    assert forall|a: usize, b: usize|
        #![trigger place(a), place(b)]
        ones.contains(a) && ones.contains(b) && place(a) == place(b) implies a == b by {
        assert(ids.contains(a) && ids.contains(b));
        let i = choose|i: int| 0 <= i < ids.len() && ids[i] == a;
        let j = choose|j: int| 0 <= j < ids.len() && ids[j] == b;
        assert(s.ids.contains_key(ids[i]) && s.ids.contains_key(ids[j]));
    }
    vstd::set_lib::lemma_map_size(ones, bits, place);
}

/// After a joint measurement the number of measured qubits that are one is odd in
/// every entry if that was the result, and even in every entry if it was not.
pub proof fn law_measured_count<A: Amplitude>(
    pre: SimModel<A>,
    ids: Seq<usize>,
    sample: A::Real,
    odd: bool,
    post: SimModel<A>,
    k: Set<nat>,
)
    requires
        pre.wf(),
        pre.allocated(ids),
        measure_step(pre, ids, sample, odd, post),
        post.state.contains_key(k),
    ensures
        post.ids == pre.ids,
        odd == (ones_among(pre, ids, k).len() % 2 == 1),
{
    law_measured_queues(pre, ids, sample, odd, post);
    law_measured_parity(pre, ids, sample, odd, post);
    law_parity_counts(pre, ids, k);
}

/// A new qubit gets the lowest identifier that is free, and the lowest location.
pub proof fn law_allocate_lowest<A: Amplitude>(
    pre: SimModel<A>,
    id: usize,
    post: SimModel<A>,
    lower: usize,
)
    requires
        allocate_step(pre, id, post),
    ensures
        !pre.ids.contains_key(id),
        forall|i: usize| i < id ==> #[trigger] pre.ids.contains_key(i),
        post.ids.contains_key(id),
        forall|q: usize| #[trigger] pre.ids.contains_key(q) ==> pre.ids[q] != post.ids[id],
        lower < post.ids[id] ==> exists|q: usize| #[trigger]
            pre.ids.contains_key(q) && pre.ids[q] == lower,
{
    let loc = choose|loc: usize| #[trigger]
        lowest_free(used_locations(pre.ids), loc) && post.ids == pre.ids.insert(id, loc);
    assert(!pre.ids.dom().contains(id));
    assert forall|i: usize| i < id implies #[trigger] pre.ids.contains_key(i) by {
        assert(pre.ids.dom().contains(i));
    }
    assert(!used_locations(pre.ids).contains(loc));
    if lower < loc {
        assert(used_locations(pre.ids).contains(lower));
    }
}

/// An identifier that is refused as repeated stands at two places in the list,
/// and before the second of them nothing is repeated.
pub proof fn law_repeat_found(ids: Seq<usize>, id: usize) -> (r: (int, int))
    requires
        first_repeat(ids, id),
    ensures
        0 <= r.0 < r.1 < ids.len(),
        ids[r.0] == id,
        ids[r.1] == id,
        forall|i: int, j: int|
            0 <= i < j < r.1 ==> #[trigger] ids[i] != #[trigger] ids[j],
{
    let j = choose|i: int|
        0 <= i < ids.len() && #[trigger] ids[i] == id && ids.take(i).contains(id) && ids.take(
            i,
        ).no_duplicates();
    let front = ids.take(j);
    let i = choose|i: int| 0 <= i < front.len() && front[i] == id;
    assert(front[i] == ids[i]);
    assert forall|a: int, b: int| 0 <= a < b < j implies #[trigger] ids[a] != #[trigger] ids[b] by {
        assert(front[a] == ids[a] && front[b] == ids[b]);
    }
    (i, j)
}

/// An identifier that is refused as unknown stands in the list and is not that of
/// a qubit, and all before it are.
pub proof fn law_missing_found(map: Map<usize, usize>, ids: Seq<usize>, id: usize) -> (r: int)
    requires
        first_missing(map, ids, id),
    ensures
        0 <= r < ids.len(),
        ids[r] == id,
        !map.contains_key(id),
        forall|j: int| 0 <= j < r ==> map.contains_key(#[trigger] ids[j]),
{
    choose|i: int|
        0 <= i < ids.len() && #[trigger] ids[i] == id && !map.contains_key(id) && forall|j: int|
            0 <= j < i ==> map.contains_key(#[trigger] ids[j])
}

/// The text of an error tells the error.
pub proof fn law_message_tells(a: QubitError, b: QubitError)
    requires
        a.text() == b.text(),
    ensures
        a == b,
{
    reveal_strlit("Duplicate qubit id '");
    reveal_strlit("' found in application.");
    reveal_strlit("Unable to find qubit with id ");
    let (x, y) = (a.text(), b.text());
    assert(x[0] == y[0]);
    match a {
        QubitError::Duplicate(i) => {
            if let QubitError::Duplicate(j) = b {
                let n = x.len() - 23;
                assert(decimal(i as nat) =~= x.subrange(20, n));
                assert(decimal(j as nat) =~= y.subrange(20, n));
                lemma_decimal_tells(i as nat, j as nat);
            } else {
                assert(y[0] == "Unable to find qubit with id "@[0]);
                assert(x[0] == "Duplicate qubit id '"@[0]);
            }
        },
        QubitError::NotFound(i) => {
            if let QubitError::NotFound(j) = b {
                assert(decimal(i as nat) =~= x.skip(29));
                assert(decimal(j as nat) =~= y.skip(29));
                lemma_decimal_tells(i as nat, j as nat);
            } else {
                assert(x[0] == "Unable to find qubit with id "@[0]);
                assert(y[0] == "Duplicate qubit id '"@[0]);
            }
        },
    }
}

} // verus!
