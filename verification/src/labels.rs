//! The laws of the labels in a dump, and of dumps that are repeated.
use crate::arith::{im_part, re_part, real_text, Amplitude};
use crate::bits::value_of;
use crate::dump::{in_order, joined, shows_entries, shows_entry, shows_state};
use crate::flushing::{law_flush_empties_queues, lemma_flush_nothing};
use crate::fxmap::enumerates;
use crate::model::{in_use, FlushLevel, SimModel};
use crate::readout::{lemma_basis_state, lemma_found};
use crate::steps::{dump_step, flush_step, has_amplitude, ones, ordered, packed, same_for_qubits};
use vstd::arithmetic::power2::{lemma_pow2_pos, lemma_pow2_unfold, pow2};
use vstd::prelude::*;

verus! {

/// One more bit adds its power of two.
proof fn lemma_value_insert(bits: Set<nat>, i: nat)
    requires
        bits.finite(),
        !bits.contains(i),
    ensures
        value_of(bits.insert(i)) == value_of(bits) + pow2(i),
{
    let add_bit = |sum: nat, i: nat| sum + pow2(i);
    assert(vstd::set::fold::is_fun_commutative(add_bit));
    vstd::set::fold::lemma_fold_insert(bits, 0nat, add_bit, i);
}

proof fn lemma_value_remove(bits: Set<nat>, i: nat)
    requires
        bits.finite(),
        bits.contains(i),
    ensures
        value_of(bits) == value_of(bits.remove(i)) + pow2(i),
{
    assert(bits.remove(i).insert(i) =~= bits);
    lemma_value_insert(bits.remove(i), i);
}

/// A number is below any power of two that is above all its bits.
proof fn lemma_value_below(bits: Set<nat>, n: nat)
    requires
        bits.finite(),
        forall|i: nat| #[trigger] bits.contains(i) ==> i < n,
    ensures
        value_of(bits) < pow2(n),
    decreases n,
{
    lemma_pow2_pos(n);
    if n == 0 {
        assert(bits =~= Set::empty());
        vstd::set::fold::lemma_fold_empty(0nat, |sum: nat, i: nat| sum + pow2(i));
    } else {
        let top = (n - 1) as nat;
        lemma_pow2_unfold(n);
        lemma_value_below(bits.remove(top), top);
        if bits.contains(top) {
            lemma_value_remove(bits, top);
        } else {
            assert(bits.remove(top) =~= bits);
        }
    }
}

proof fn lemma_value_determines(a: Set<nat>, b: Set<nat>, n: nat)
    requires
        a.finite(),
        b.finite(),
        forall|i: nat| #[trigger] a.contains(i) ==> i < n,
        forall|i: nat| #[trigger] b.contains(i) ==> i < n,
        value_of(a) == value_of(b),
    ensures
        a == b,
    decreases n,
{
    if n == 0 {
        assert(a =~= b);
    } else {
        let top = (n - 1) as nat;
        let (c, d) = (a.remove(top), b.remove(top));
        lemma_value_below(c, top);
        lemma_value_below(d, top);
        if a.contains(top) {
            lemma_value_remove(a, top);
        } else {
            assert(c =~= a);
        }
        if b.contains(top) {
            lemma_value_remove(b, top);
        } else {
            assert(d =~= b);
        }
        lemma_value_determines(c, d, top);
        assert(a =~= b) by {
            assert forall|i: nat| a.contains(i) == b.contains(i) by {
                if i != top {
                    assert(c.contains(i) == d.contains(i));
                }
            }
        }
    }
}

/// A bound on the elements of a finite set.
proof fn lemma_bound(s: Set<nat>) -> (n: nat)
    requires
        s.finite(),
    ensures
        forall|i: nat| #[trigger] s.contains(i) ==> i < n,
    decreases s.len(),
{
    if s.len() == 0 {
        0
    } else {
        let x = s.choose();
        let m = lemma_bound(s.remove(x));
        let n = if x < m {
            m
        } else {
            x + 1
        };
        assert forall|i: nat| #[trigger] s.contains(i) implies i < n by {
            if i != x {
                assert(s.remove(x).contains(i));
            }
        }
        n
    }
}

/// Different basis states have different labels.
pub proof fn law_labels_differ(a: Set<nat>, b: Set<nat>)
    requires
        a.finite(),
        b.finite(),
        value_of(a) == value_of(b),
    ensures
        a == b,
{
    let (m, n) = (lemma_bound(a), lemma_bound(b));
    lemma_value_determines(
        a,
        b,
        if m < n {
            n
        } else {
            m
        },
    );
}

/// The basis states of a simulation have finitely many bits.
pub proof fn law_keys_finite<A: Amplitude>(s: SimModel<A>, k: Set<nat>)
    requires
        s.wf(),
        s.state.contains_key(k),
    ensures
        k.finite(),
{
    let place = |q: usize| s.ids[q] as nat;
    let used = s.ids.dom().map(place);
    s.ids.dom().lemma_map_finite(place);
    assert(k.subset_of(used)) by {
        assert forall|loc: nat| k.contains(loc) implies used.contains(loc) by {
            assert(in_use(s.ids, loc));
            let q = choose|q: usize| #[trigger] s.ids.contains_key(q) && s.ids[q] == loc;
            assert(s.ids.dom().contains(q) && place(q) == loc);
        }
    }
    vstd::set_lib::lemma_len_subset(k, used);
}

/// Whether all basis states of a sparse state have finitely many bits.
pub open spec fn keys_finite<A: Amplitude>(state: Map<Set<nat>, A>) -> bool {
    forall|k: Set<nat>| #[trigger] state.contains_key(k) ==> k.finite()
}

/// The labels in a dump increase strictly.
pub proof fn law_labels_increase<A: Amplitude>(
    keys: Seq<Set<nat>>,
    state: Map<Set<nat>, A>,
    i: int,
    j: int,
)
    requires
        keys_finite(state),
        in_order(keys, state),
        0 <= i < j < keys.len(),
    ensures
        value_of(keys[i]) < value_of(keys[j]),
{
    assert(keys.to_set().contains(keys[i]) && keys.to_set().contains(keys[j]));
    assert(state.contains_key(keys[i]) && state.contains_key(keys[j]));
    assert(value_of(keys[i]) <= value_of(keys[j]));
    if value_of(keys[i]) == value_of(keys[j]) {
        law_labels_differ(keys[i], keys[j]);
    }
}

/// There is only one order for the entries of a dump.
proof fn lemma_order_unique(a: Seq<Set<nat>>, b: Seq<Set<nat>>)
    requires
        a.no_duplicates(),
        b.no_duplicates(),
        a.to_set() == b.to_set(),
        forall|i: int| 0 <= i < a.len() ==> (#[trigger] a[i]).finite(),
        forall|i: int, j: int| #![trigger a[i], a[j]]
            0 <= i <= j < a.len() ==> value_of(a[i]) <= value_of(a[j]),
        forall|i: int, j: int| #![trigger b[i], b[j]]
            0 <= i <= j < b.len() ==> value_of(b[i]) <= value_of(b[j]),
    ensures
        a == b,
    decreases a.len(),
{
    a.unique_seq_to_set();
    b.unique_seq_to_set();
    if a.len() > 0 {
        let n = a.len() - 1;
        let (x, y) = (a[n], b[n]);
        assert(a.to_set().contains(x) && b.to_set().contains(y));
        assert(b.contains(x) && a.contains(y));
        let i = choose|i: int| 0 <= i < b.len() && b[i] == x;
        let j = choose|j: int| 0 <= j < a.len() && a[j] == y;
        assert(value_of(b[i]) <= value_of(b[n]) && value_of(a[j]) <= value_of(a[n]));
        law_labels_differ(x, y);
        let (c, d) = (a.drop_last(), b.drop_last());
        assert forall|i: int| 0 <= i < c.len() implies (#[trigger] c[i]).finite() by {
            assert(c[i] == a[i]);
        }
        assert(c.to_set() =~= d.to_set()) by {
            assert forall|k: Set<nat>| c.contains(k) == d.contains(k) by {
                assert(a.to_set().contains(k) == a.contains(k));
                assert(b.to_set().contains(k) == b.contains(k));
                if c.contains(k) {
                    let p = choose|p: int| 0 <= p < c.len() && c[p] == k;
                    assert(a[p] == k && a[p] != a[n]);
                    assert(b.contains(k));
                    let q = choose|q: int| 0 <= q < b.len() && b[q] == k;
                    assert(d[q] == k);
                }
                if d.contains(k) {
                    let p = choose|p: int| 0 <= p < d.len() && d[p] == k;
                    assert(b[p] == k && b[p] != b[n]);
                    assert(a.contains(k));
                    let q = choose|q: int| 0 <= q < a.len() && a[q] == k;
                    assert(c[q] == k);
                }
            }
        }
        lemma_order_unique(c, d);
        assert(a =~= c.push(x) && b =~= d.push(y));
    } else {
        assert(a =~= b);
    }
}

/// Whether the arithmetic shows the same number by the same text each time.
pub open spec fn shows_alike<A: Amplitude>() -> bool {
    &&& forall|v: A, r: A::Real, s: A::Real| #[trigger]
        re_part(v, r) && #[trigger] re_part(v, s) ==> r == s
    &&& forall|v: A, r: A::Real, s: A::Real| #[trigger]
        im_part(v, r) && #[trigger] im_part(v, s) ==> r == s
    &&& forall|v: A::Real, r: String, s: String| #[trigger]
        real_text(v, r) && #[trigger] real_text(v, s) ==> r@ == s@
}

/// A state has one text only, if numbers have.
pub proof fn law_one_text<A: Amplitude>(state: Map<Set<nat>, A>, x: Seq<char>, y: Seq<char>)
    requires
        shows_alike::<A>(),
        keys_finite(state),
        shows_state(state, x),
        shows_state(state, y),
    ensures
        x == y,
{
    let (a, s) = choose|keys: Seq<Set<nat>>, texts: Seq<Seq<char>>| #[trigger]
        in_order(keys, state) && #[trigger] shows_entries(state, keys, texts) && x == "{ "@
            + joined(texts) + " }\n"@;
    let (b, t) = choose|keys: Seq<Set<nat>>, texts: Seq<Seq<char>>| #[trigger]
        in_order(keys, state) && #[trigger] shows_entries(state, keys, texts) && y == "{ "@
            + joined(texts) + " }\n"@;
    assert forall|i: int| 0 <= i < a.len() implies (#[trigger] a[i]).finite() by {
        assert(a.to_set().contains(a[i]));
        assert(state.contains_key(a[i]));
    }
    lemma_order_unique(a, b);
    assert(s =~= t) by {
        assert forall|i: int| 0 <= i < s.len() implies s[i] == t[i] by {
            assert(shows_entry(a[i], state[a[i]], s[i]) && shows_entry(a[i], state[a[i]], t[i]));
        }
    }
}

/// There is only one way in which qubits can be in order at the lowest
/// locations.
proof fn lemma_places_unique(x: Map<usize, usize>, y: Map<usize, usize>, q: usize)
    requires
        x.dom() == y.dom(),
        ordered(x),
        packed(x),
        ordered(y),
        packed(y),
        x.contains_key(q),
    ensures
        x[q] == y[q],
    decreases x[q],
{
    assert(y.contains_key(q) == y.dom().contains(q));
    let (a, b) = (x[q] as nat, y[q] as nat);
    assert(in_use(x, a) && in_use(y, b));
    if b < a {
        // The qubit at that location in the one is there in the other too.
        assert(in_use(x, b));
        let r = choose|r: usize| #[trigger] x.contains_key(r) && x[r] == b;
        assert(y.dom().contains(r));
        lemma_places_unique(x, y, r);
        assert(y.contains_key(r) && y.contains_key(q));
        if r < q {
            assert(y[r] < y[q]);
        } else if q < r {
            assert(y[q] < y[r]);
        }
    } else if a < b {
        assert(in_use(y, a));
        let r = choose|r: usize| #[trigger] y.contains_key(r) && y[r] == a;
        assert(x.dom().contains(r));
        assert(x.contains_key(r) && x.contains_key(q));
        assert(y.contains_key(r) && y.contains_key(q));
        if q < r {
            assert(y[q] < y[r]);
        } else {
            assert(r < q);
            assert(x[r] < x[q]);
            lemma_places_unique(x, y, r);
        }
    }
}

/// A dump right after a dump leaves everything as it is. With
/// [`law_one_text`], it shows the same text.
pub proof fn law_dump_twice<A: Amplitude>(pre: SimModel<A>, mid: SimModel<A>, post: SimModel<A>)
    requires
        pre.wf(),
        mid.wf(),
        post.wf(),
        dump_step(pre, mid),
        dump_step(mid, post),
    ensures
        post == mid,
{
    let (list, flushed) = choose|list: Seq<usize>, flushed: SimModel<A>| #[trigger]
        enumerates(list, pre.ids.dom()) && #[trigger] flush_step(
            pre,
            list,
            FlushLevel::HRxRy,
            flushed,
        ) && same_for_qubits(flushed, mid) && mid == (SimModel {
            state: mid.state,
            ids: mid.ids,
            ..flushed
        });
    let (again, same) = choose|again: Seq<usize>, same: SimModel<A>| #[trigger]
        enumerates(again, mid.ids.dom()) && #[trigger] flush_step(
            mid,
            again,
            FlushLevel::HRxRy,
            same,
        ) && same_for_qubits(same, post) && post == (SimModel {
            state: post.state,
            ids: post.ids,
            ..same
        });
    law_flush_empties_queues(pre, list, flushed);
    assert forall|i: int| 0 <= i < again.len() implies mid.nothing_queued(#[trigger] again[i]) by {
        assert(again.to_set().contains(again[i]));
        assert(list.to_set().contains(again[i]));
        let n = choose|n: int| 0 <= n < list.len() && list[n] == again[i];
        assert(flushed.nothing_queued(list[n]));
    }
    lemma_flush_nothing(mid, again, FlushLevel::HRxRy, same);
    assert(post.ids =~= mid.ids) by {
        assert forall|q: usize| mid.ids.contains_key(q) implies post.ids[q] == mid.ids[q] by {
            lemma_places_unique(mid.ids, post.ids, q);
        }
    }
    assert forall|k: Set<nat>| #[trigger] mid.state.contains_key(k) implies post.state.contains_key(
        k,
    ) && post.state[k] == mid.state[k] by {
        lemma_same_entry(mid, post, k);
    }
    assert forall|k: Set<nat>| #[trigger] post.state.contains_key(k) implies mid.state.contains_key(
        k,
    ) by {
        lemma_same_entry(post, mid, k);
    }
    assert(post.state =~= mid.state);
}

/// A dump right after a dump shows the same text, if numbers have one text only.
pub proof fn law_second_dump_text<A: Amplitude>(
    pre: SimModel<A>,
    mid: SimModel<A>,
    post: SimModel<A>,
    first: Seq<char>,
    second: Seq<char>,
)
    requires
        shows_alike::<A>(),
        pre.wf(),
        mid.wf(),
        post.wf(),
        dump_step(pre, mid),
        shows_state(mid.state, first),
        dump_step(mid, post),
        shows_state(post.state, second),
    ensures
        second == first,
{
    law_dump_twice(pre, mid, post);
    assert forall|k: Set<nat>| #[trigger] mid.state.contains_key(k) implies k.finite() by {
        law_keys_finite(mid, k);
    }
    law_one_text(mid.state, first, second);
}

/// After a dump, the location of a qubit is the number of qubits with lower
/// identifiers.
pub proof fn law_dump_ranks<A: Amplitude>(pre: SimModel<A>, post: SimModel<A>, q: usize)
    requires
        post.wf(),
        dump_step(pre, post),
        post.ids.contains_key(q),
    ensures
        post.ids.dom().filter(|r: usize| r < q).len() == post.ids[q],
{
    let ids = post.ids;
    let lower = ids.dom().filter(|r: usize| r < q);
    let below = vstd::set_lib::set_int_range(0, ids[q] as int);
    let place = |r: usize| ids[r] as int;
    ids.dom().lemma_len_filter(|r: usize| r < q);
    vstd::set_lib::lemma_int_range(0, ids[q] as int);
    assert(in_use(ids, ids[q] as nat));
    assert forall|r: usize| #[trigger] lower.contains(r) implies below.contains(place(r)) by {
        assert(ids.contains_key(r));
    }
    assert forall|n: int| #[trigger] below.contains(n) implies exists|r: usize|
        lower.contains(r) && #[trigger] place(r) == n by {
        assert(in_use(ids, n as nat));
        let r = choose|r: usize| #[trigger] ids.contains_key(r) && ids[r] == n as nat;
        if q <= r {
            assert(ids[q] <= ids[r]);
        }
        assert(lower.contains(r) && place(r) == n);
    }
    assert forall|a: usize, b: usize|
        #![trigger place(a), place(b)]
        lower.contains(a) && lower.contains(b) && a != b implies place(a) != place(b) by {
        assert(ids.contains_key(a) && ids.contains_key(b));
    }
    assert(lower.map(place) =~= below);
    vstd::set_lib::lemma_map_size(lower, below, place);
}

proof fn lemma_same_entry<A: Amplitude>(a: SimModel<A>, b: SimModel<A>, k: Set<nat>)
    requires
        a.wf(),
        b.wf(),
        a.ids == b.ids,
        forall|qubits: Set<usize>, v: A| #[trigger]
            has_amplitude(a, qubits, v) <==> has_amplitude(b, qubits, v),
        a.state.contains_key(k),
    ensures
        b.state.contains_key(k),
        b.state[k] == a.state[k],
{
    let qubits = ones(k, a.ids);
    assert(qubits.subset_of(a.ids.dom()));
    assert forall|loc: nat| #[trigger] k.contains(loc) implies in_use(a.ids, loc) by {}
    lemma_basis_state(a.ids, qubits, k);
    lemma_found(b, qubits);
    assert(has_amplitude(a, qubits, a.state[k]));
    assert(has_amplitude(b, qubits, a.state[k]));
}

} // verus!
