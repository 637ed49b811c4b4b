//! The state that the qubits are in, once what is queued is taken into account.
use crate::arith::Amplitude;
use crate::controls::z_symmetric;
use crate::exact::{times_units, Cx};
use crate::fxmap::enumerates;
use crate::gates::{hadamard, identity, past_hadamard, pauli_x, pauli_z};
use crate::matrix::{
    act, act_after, act_elsewhere, act_past, act_scaled, act_times, no_control, times_vector, Mat2,
    Vector,
};
use crate::model::{all_set, ids_apart, locations, SimModel};
use crate::reading::Reading;
use crate::steps::{just, no_controls};
use vstd::prelude::*;

verus! {

impl<A: Amplitude> Reading<A> {
    /// The matrix of the H gate.
    pub open spec fn h(self) -> Mat2 {
        hadamard(self.root_half)
    }

    /// The queued H of a qubit.
    pub open spec fn queued_h(self, s: SimModel<A>, q: usize) -> Mat2 {
        if s.h.contains(q as nat) {
            self.h()
        } else {
            identity()
        }
    }

    /// The queued rotation about X of a qubit.
    pub open spec fn queued_rx(self, s: SimModel<A>, q: usize) -> Mat2 {
        if s.rx.contains_key(q) {
            self.rx(s.rx[q])
        } else {
            identity()
        }
    }

    /// The queued rotation about Y of a qubit.
    pub open spec fn queued_ry(self, s: SimModel<A>, q: usize) -> Mat2 {
        if s.ry.contains_key(q) {
            self.ry(s.ry[q])
        } else {
            identity()
        }
    }

    /// Everything queued on a qubit: first H, then the rotation about X, then
    /// the one about Y.
    pub open spec fn queued(self, s: SimModel<A>, q: usize) -> Mat2 {
        self.queued_ry(s, q).after(self.queued_rx(s, q).after(self.queued_h(s, q)))
    }

    /// The state that the qubits are in: the state vector, after everything
    /// queued on the qubits in the list.
    pub open spec fn logical(self, s: SimModel<A>, order: Seq<usize>) -> Vector {
        fold(|q: usize| self.queued(s, q), s.ids, order, self.vector(s.state))
    }
}

/// The vector after a gate on each of the qubits in the list, one by one.
pub open spec fn fold(
    gates: spec_fn(usize) -> Mat2,
    ids: Map<usize, usize>,
    order: Seq<usize>,
    psi: Vector,
) -> Vector
    decreases order.len(),
{
    if order.len() == 0 {
        psi
    } else {
        act(
            gates(order.last()),
            no_controls(),
            ids[order.last()] as nat,
            fold(gates, ids, order.drop_last(), psi),
        )
    }
}

/// Whether no qubit is in the list twice, and no two of them share a location.
pub open spec fn spread(ids: Map<usize, usize>, order: Seq<usize>) -> bool {
    &&& order.no_duplicates()
    &&& forall|i: int, j: int|
        0 <= i < order.len() && 0 <= j < order.len() && i != j ==> ids[#[trigger] order[i]]
            != ids[#[trigger] order[j]]
}

/// The gates without that on one qubit.
pub open spec fn without(gates: spec_fn(usize) -> Mat2, q: usize) -> spec_fn(usize) -> Mat2 {
    |r: usize|
        if r == q {
            identity()
        } else {
            gates(r)
        }
}

/// The matrix that changes nothing changes no vector.
pub(crate) proof fn act_identity(ctls: Seq<usize>, t: nat, psi: Vector)
    ensures
        act(identity(), ctls, t, psi) == psi,
{
    let l = act(identity(), ctls, t, psi);
    assert forall|k: Set<nat>| #[trigger] l(k) == psi(k) by {
        if k.contains(t) {
            assert(k.insert(t) =~= k);
        } else {
            assert(k.remove(t) =~= k);
        }
        times_units(psi(k.remove(t)));
        times_units(psi(k.insert(t)));
    }
    assert(l =~= psi);
}

proof fn lemma_spread_rest(ids: Map<usize, usize>, order: Seq<usize>)
    requires
        spread(ids, order),
        order.len() > 0,
    ensures
        spread(ids, order.drop_last()),
        forall|i: int|
            0 <= i < order.len() - 1 ==> #[trigger] order.drop_last()[i] != order.last()
                && ids[order.drop_last()[i]] != ids[order.last()],
{
    let rest = order.drop_last();
    assert forall|i: int, j: int|
        0 <= i < rest.len() && 0 <= j < rest.len() && i != j implies ids[#[trigger] rest[i]]
        != ids[#[trigger] rest[j]] by {
        assert(rest[i] == order[i] && rest[j] == order[j]);
    }
    assert forall|i: int| 0 <= i < order.len() - 1 implies #[trigger] rest[i] != order.last()
        && ids[rest[i]] != ids[order.last()] by {
        assert(rest[i] == order[i]);
        assert(order.last() == order[order.len() - 1]);
    }
}

/// Only the gates on the qubits in the list matter.
proof fn fold_same(
    a: spec_fn(usize) -> Mat2,
    b: spec_fn(usize) -> Mat2,
    ids: Map<usize, usize>,
    order: Seq<usize>,
    psi: Vector,
)
    requires
        forall|i: int| 0 <= i < order.len() ==> a(#[trigger] order[i]) == b(order[i]),
    ensures
        fold(a, ids, order, psi) == fold(b, ids, order, psi),
    decreases order.len(),
{
    if order.len() > 0 {
        let rest = order.drop_last();
        assert forall|i: int| 0 <= i < rest.len() implies a(#[trigger] rest[i]) == b(rest[i]) by {
            assert(rest[i] == order[i]);
        }
        fold_same(a, b, ids, rest, psi);
        assert(order[order.len() - 1] == order.last());
    }
}

/// A gate commutes with gates on qubits that it does not touch.
proof fn fold_past(
    gates: spec_fn(usize) -> Mat2,
    ids: Map<usize, usize>,
    order: Seq<usize>,
    u: Mat2,
    ctls: Seq<usize>,
    t: nat,
    psi: Vector,
)
    requires
        forall|i: int|
            0 <= i < order.len() ==> gates(#[trigger] order[i]) == identity() || (ids[order[i]] != t
                && no_control(ctls, ids[order[i]] as nat)),
    ensures
        fold(gates, ids, order, act(u, ctls, t, psi)) == act(
            u,
            ctls,
            t,
            fold(gates, ids, order, psi),
        ),
    decreases order.len(),
{
    if order.len() > 0 {
        let rest = order.drop_last();
        let q = order.last();
        assert forall|i: int| 0 <= i < rest.len() implies gates(#[trigger] rest[i]) == identity()
            || (ids[rest[i]] != t && no_control(ctls, ids[rest[i]] as nat)) by {
            assert(rest[i] == order[i]);
        }
        fold_past(gates, ids, rest, u, ctls, t, psi);
        assert(order[order.len() - 1] == q);
        let inner = fold(gates, ids, rest, psi);
        if gates(q) == identity() {
            act_identity(no_controls(), ids[q] as nat, inner);
            act_identity(no_controls(), ids[q] as nat, act(u, ctls, t, inner));
        } else {
            act_elsewhere(gates(q), ids[q] as nat, u, ctls, t, inner);
        }
    }
}

/// What is done on one qubit can be done last.
proof fn fold_out(
    gates: spec_fn(usize) -> Mat2,
    ids: Map<usize, usize>,
    order: Seq<usize>,
    q: usize,
    psi: Vector,
)
    requires
        spread(ids, order),
        order.contains(q),
    ensures
        fold(gates, ids, order, psi) == act(
            gates(q),
            no_controls(),
            ids[q] as nat,
            fold(without(gates, q), ids, order, psi),
        ),
    decreases order.len(),
{
    let rest = order.drop_last();
    let r = order.last();
    let others = without(gates, q);
    lemma_spread_rest(ids, order);
    if r == q {
        assert forall|i: int| 0 <= i < rest.len() implies gates(#[trigger] rest[i]) == others(
            rest[i],
        ) by {}
        fold_same(gates, others, ids, rest, psi);
        act_identity(no_controls(), ids[q] as nat, fold(others, ids, rest, psi));
    } else {
        let i = choose|i: int| 0 <= i < order.len() && order[i] == q;
        assert(rest[i] == q);
        fold_out(gates, ids, rest, q, psi);
        let inner = fold(others, ids, rest, psi);
        act_elsewhere(gates(r), ids[r] as nat, gates(q), no_controls(), ids[q] as nat, inner);
    }
}

/// A number can be drawn out.
pub(crate) proof fn fold_times(
    gates: spec_fn(usize) -> Mat2,
    ids: Map<usize, usize>,
    order: Seq<usize>,
    z: Cx,
    psi: Vector,
)
    ensures
        fold(gates, ids, order, times_vector(z, psi)) == times_vector(
            z,
            fold(gates, ids, order, psi),
        ),
    decreases order.len(),
{
    if order.len() > 0 {
        let q = order.last();
        fold_times(gates, ids, order.drop_last(), z, psi);
        act_times(
            gates(q),
            no_controls(),
            ids[q] as nat,
            z,
            fold(gates, ids, order.drop_last(), psi),
        );
    }
}

/// A list of all the qubits.
pub(crate) proof fn lemma_order(ids: Map<usize, usize>, order: Seq<usize>)
    requires
        ids_apart(ids),
        enumerates(order, ids.dom()),
    ensures
        spread(ids, order),
        forall|q: usize| #[trigger] order.contains(q) == ids.contains_key(q),
{
    assert forall|q: usize| #[trigger] order.contains(q) == ids.contains_key(q) by {
        assert(order.to_set().contains(q) == order.contains(q));
    }
    assert forall|i: int, j: int|
        0 <= i < order.len() && 0 <= j < order.len() && i != j implies ids[#[trigger] order[i]]
        != ids[#[trigger] order[j]] by {
        assert(order.contains(order[i]) && order.contains(order[j]));
        assert(ids.contains_key(order[i]) && ids.contains_key(order[j]));
    }
}

/// A gate `w` on the state of one qubit is a gate `u` on the state that the
/// qubits are in, if that is so of the matrices.
pub(crate) proof fn lemma_single<A: Amplitude>(
    rd: Reading<A>,
    pre: SimModel<A>,
    q: usize,
    w: Mat2,
    u: Mat2,
    z: Cx,
    post: SimModel<A>,
    order: Seq<usize>,
)
    requires
        ids_apart(pre.ids),
        enumerates(order, pre.ids.dom()),
        pre.ids.contains_key(q),
        post.ids == pre.ids,
        forall|r: usize| r != q ==> #[trigger] rd.queued(post, r) == rd.queued(pre, r),
        rd.vector(post.state) == act(w, no_controls(), pre.ids[q] as nat, rd.vector(pre.state)),
        rd.queued(post, q).after(w) == u.after(rd.queued(pre, q)).scaled(z),
    ensures
        rd.logical(post, order) == times_vector(
            z,
            act(u, no_controls(), pre.ids[q] as nat, rd.logical(pre, order)),
        ),
{
    let ids = pre.ids;
    let loc = ids[q] as nat;
    let before = |r: usize| rd.queued(pre, r);
    let after = |r: usize| rd.queued(post, r);
    let psi = rd.vector(pre.state);
    let inner = fold(without(before, q), ids, order, psi);
    lemma_order(ids, order);
    fold_out(before, ids, order, q, psi);
    fold_out(after, ids, order, q, rd.vector(post.state));
    assert forall|i: int| 0 <= i < order.len() implies without(after, q)(#[trigger] order[i])
        == without(before, q)(order[i]) by {
        assert(order[i] != q ==> rd.queued(post, order[i]) == rd.queued(pre, order[i]));
    }
    fold_same(without(after, q), without(before, q), ids, order, rd.vector(post.state));
    let n = choose|n: int| 0 <= n < order.len() && order[n] == q;
    assert(order.contains(q));
    assert forall|i: int| 0 <= i < order.len() implies without(before, q)(#[trigger] order[i])
        == identity() || (ids[order[i]] != loc && no_control(no_controls(), ids[order[i]] as nat)) by {
        if order[i] != q {
            assert(ids[order[i]] != ids[order[n]]);
        }
    }
    fold_past(without(before, q), ids, order, w, no_controls(), loc, psi);
    act_after(rd.queued(post, q), w, no_controls(), loc, inner);
    act_after(u, rd.queued(pre, q), no_controls(), loc, inner);
    act_scaled(u.after(rd.queued(pre, q)), loc, z, inner);
}

/// A gate `w` on the state under controls on which nothing is queued is the
/// gate `u` under these controls on the state that the qubits are in, if that
/// is so of the matrices.
pub(crate) proof fn lemma_controlled<A: Amplitude>(
    rd: Reading<A>,
    pre: SimModel<A>,
    ctls: Seq<usize>,
    q: usize,
    w: Mat2,
    u: Mat2,
    post: SimModel<A>,
    order: Seq<usize>,
)
    requires
        ids_apart(pre.ids),
        enumerates(order, pre.ids.dom()),
        pre.applicable(ctls, q),
        post == (SimModel { state: post.state, ..pre }),
        forall|i: int| 0 <= i < ctls.len() ==> rd.queued(pre, #[trigger] ctls[i]) == identity(),
        rd.vector(post.state) == act(
            w,
            locations(pre.ids, ctls),
            pre.ids[q] as nat,
            rd.vector(pre.state),
        ),
        rd.queued(pre, q).after(w) == u.after(rd.queued(pre, q)),
    ensures
        rd.logical(post, order) == act(
            u,
            locations(pre.ids, ctls),
            pre.ids[q] as nat,
            rd.logical(pre, order),
        ),
{
    let ids = pre.ids;
    let locs = locations(ids, ctls);
    let loc = ids[q] as nat;
    let gates = |r: usize| rd.queued(pre, r);
    let gates_after = |r: usize| rd.queued(post, r);
    let psi = rd.vector(pre.state);
    let inner = fold(without(gates, q), ids, order, psi);
    lemma_order(ids, order);
    lemma_targets(pre, ctls, q);
    fold_out(gates, ids, order, q, psi);
    fold_out(gates, ids, order, q, rd.vector(post.state));
    assert forall|i: int| 0 <= i < order.len() implies gates_after(#[trigger] order[i]) == gates(
        order[i],
    ) by {}
    fold_same(gates_after, gates, ids, order, rd.vector(post.state));
    let n = choose|n: int| 0 <= n < order.len() && order[n] == q;
    assert(order.contains(q));
    assert forall|i: int| 0 <= i < order.len() implies without(gates, q)(#[trigger] order[i])
        == identity() || (ids[order[i]] != loc && no_control(locs, ids[order[i]] as nat)) by {
        let r = order[i];
        if r != q {
            assert(ids[order[i]] != ids[order[n]]);
            if ctls.contains(r) {
                let j = choose|j: int| 0 <= j < ctls.len() && ctls[j] == r;
                assert(rd.queued(pre, ctls[j]) == identity());
            } else {
                assert forall|j: int| 0 <= j < locs.len() implies #[trigger] locs[j]
                    != ids[r] as nat by {
                    assert(ctls.push(q)[j] == ctls[j]);
                    assert(ids.contains_key(ctls[j]));
                    assert(order.contains(r));
                    assert(ids.contains_key(r));
                }
            }
        }
    }
    fold_past(without(gates, q), ids, order, w, locs, loc, psi);
    act_past(rd.queued(pre, q), w, u, locs, loc, inner);
}

/// Target and controls of a gate are allocated, and the target is none of the
/// controls.
pub(crate) proof fn lemma_targets<A: Amplitude>(s: SimModel<A>, ctls: Seq<usize>, q: usize)
    requires
        ids_apart(s.ids),
        s.applicable(ctls, q),
    ensures
        s.ids.contains_key(q),
        no_control(locations(s.ids, ctls), s.ids[q] as nat),
        forall|i: int| 0 <= i < ctls.len() ==> s.ids.contains_key(#[trigger] ctls[i]),
{
    let all = ctls.push(q);
    assert(all[ctls.len() as int] == q);
    assert forall|i: int| 0 <= i < ctls.len() implies s.ids.contains_key(#[trigger] ctls[i]) by {
        assert(all[i] == ctls[i]);
    }
    assert forall|i: int| 0 <= i < ctls.len() implies #[trigger] locations(s.ids, ctls)[i]
        != s.ids[q] as nat by {
        assert(all[i] == ctls[i]);
        assert(s.ids.contains_key(all[i]));
        assert(s.ids.contains_key(q));
    }
}

/// An X gate between two qubits with an H queued on each of them is an X gate
/// the other way round on the state.
pub(crate) proof fn lemma_reversed<A: Amplitude>(
    rd: Reading<A>,
    pre: SimModel<A>,
    c: usize,
    t: usize,
    post: SimModel<A>,
    order: Seq<usize>,
)
    requires
        ids_apart(pre.ids),
        enumerates(order, pre.ids.dom()),
        pre.ids.contains_key(c),
        pre.ids.contains_key(t),
        c != t,
        post == (SimModel { state: post.state, ..pre }),
        rd.queued(pre, c) == rd.h(),
        rd.queued(pre, t).after(pauli_z()) == pauli_x().after(rd.queued(pre, t)),
        rd.vector(post.state) == act(
            pauli_x(),
            just(pre.ids[t]),
            pre.ids[c] as nat,
            rd.vector(pre.state),
        ),
    ensures
        rd.logical(post, order) == act(
            pauli_x(),
            just(pre.ids[c]),
            pre.ids[t] as nat,
            rd.logical(pre, order),
        ),
{
    let ids = pre.ids;
    let (lc, lt) = (ids[c] as nat, ids[t] as nat);
    let gates = |r: usize| rd.queued(pre, r);
    let gates_after = |r: usize| rd.queued(post, r);
    let some = without(gates, t);
    let others = without(some, c);
    let psi = rd.vector(pre.state);
    let psi_after = rd.vector(post.state);
    let inner = fold(others, ids, order, psi);
    let on_c = act(rd.h(), no_controls(), lc, inner);
    lemma_order(ids, order);
    assert(order.contains(c) && order.contains(t));
    assert forall|i: int| 0 <= i < order.len() implies gates_after(#[trigger] order[i]) == gates(
        order[i],
    ) by {}
    fold_same(gates_after, gates, ids, order, psi_after);
    fold_out(gates, ids, order, t, psi);
    fold_out(gates, ids, order, t, psi_after);
    fold_out(some, ids, order, c, psi);
    fold_out(some, ids, order, c, psi_after);
    let (i, j) = (
        choose|i: int| 0 <= i < order.len() && order[i] == c,
        choose|j: int| 0 <= j < order.len() && order[j] == t,
    );
    assert forall|n: int| 0 <= n < order.len() implies others(#[trigger] order[n]) == identity()
        || (ids[order[n]] != lc && no_control(just(ids[t]), ids[order[n]] as nat)) by {
        if order[n] != c && order[n] != t {
            assert(ids[order[n]] != ids[order[i]] && ids[order[n]] != ids[order[j]]);
        }
    }
    fold_past(others, ids, order, pauli_x(), just(ids[t]), lc, psi);
    past_hadamard(rd.root_half);
    assert(ids[order[i]] != ids[order[j]]);
    act_past(rd.h(), pauli_x(), pauli_z(), just(ids[t]), lc, inner);
    assert forall|k: Set<nat>|
        #![trigger all_set(k, just(ids[t]))]
        #![trigger all_set(k, just(ids[c]))]
        (all_set(k, just(ids[t])) && k.contains(lc)) == (all_set(k, just(ids[c])) && k.contains(
            lt,
        )) by {
        assert(just(ids[t])[0] == ids[t]);
        assert(just(ids[c])[0] == ids[c]);
    }
    z_symmetric(just(ids[t]), lc, just(ids[c]), lt, on_c);
    act_past(rd.queued(pre, t), pauli_z(), pauli_x(), just(ids[c]), lt, on_c);
}

} // verus!
