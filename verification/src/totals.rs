//! Sums over all basis states of some locations.
use crate::exact::real_dist;
use crate::matrix::{act, lemma_controls_kept, no_control, Mat2, Vector};
use crate::norms::{norm2, unitary, unitary_keeps};
use vstd::prelude::*;

verus! {

/// The sum over all basis states that differ from `k` at the given locations
/// only.
pub open spec fn total(f: spec_fn(Set<nat>) -> real, locs: Seq<nat>, k: Set<nat>) -> real
    decreases locs.len(),
{
    if locs.len() == 0 {
        f(k)
    } else {
        total(f, locs.drop_last(), k.remove(locs.last())) + total(
            f,
            locs.drop_last(),
            k.insert(locs.last()),
        )
    }
}

/// The squared absolute values of the amplitudes of the chosen basis states.
pub open spec fn weights(
    chosen: spec_fn(Set<nat>) -> bool,
    psi: Vector,
) -> spec_fn(Set<nat>) -> real {
    |k: Set<nat>|
        if chosen(k) {
            norm2(psi(k))
        } else {
            0 as real
        }
}

/// Whether the choice of a basis state does not depend on the bit at the
/// location.
pub open spec fn blind(chosen: spec_fn(Set<nat>) -> bool, loc: nat) -> bool {
    forall|k: Set<nat>| chosen(k.remove(loc)) == #[trigger] chosen(k.insert(loc))
}

/// Whether two functions have the same sum over each pair of basis states that
/// differ at the location only.
spec fn same_pairs(
    f: spec_fn(Set<nat>) -> real,
    g: spec_fn(Set<nat>) -> real,
    loc: nat,
) -> bool {
    forall|k: Set<nat>| #[trigger] same_pair(f, g, loc, k)
}

spec fn same_pair(
    f: spec_fn(Set<nat>) -> real,
    g: spec_fn(Set<nat>) -> real,
    loc: nat,
    k: Set<nat>,
) -> bool {
    f(k.remove(loc)) + f(k.insert(loc)) == g(k.remove(loc)) + g(k.insert(loc))
}

proof fn lemma_swap_bits(k: Set<nat>, a: nat, b: nat)
    requires
        a != b,
    ensures
        k.remove(a).remove(b) == k.remove(b).remove(a),
        k.remove(a).insert(b) == k.insert(b).remove(a),
        k.insert(a).remove(b) == k.remove(b).insert(a),
        k.insert(a).insert(b) == k.insert(b).insert(a),
{
    assert(k.remove(a).remove(b) =~= k.remove(b).remove(a));
    assert(k.remove(a).insert(b) =~= k.insert(b).remove(a));
    assert(k.insert(a).remove(b) =~= k.remove(b).insert(a));
    assert(k.insert(a).insert(b) =~= k.insert(b).insert(a));
}

proof fn lemma_pairs_apart(
    f: spec_fn(Set<nat>) -> real,
    g: spec_fn(Set<nat>) -> real,
    loc: nat,
    locs: Seq<nat>,
    k: Set<nat>,
)
    requires
        same_pairs(f, g, loc),
        !locs.contains(loc),
    ensures
        total(f, locs, k.remove(loc)) + total(f, locs, k.insert(loc)) == total(
            g,
            locs,
            k.remove(loc),
        ) + total(g, locs, k.insert(loc)),
    decreases locs.len(),
{
    if locs.len() == 0 {
        assert(same_pair(f, g, loc, k));
    } else {
        let r = locs.last();
        let rest = locs.drop_last();
        assert(locs[locs.len() - 1] == r);
        assert(!rest.contains(loc)) by {
            if rest.contains(loc) {
                let i = choose|i: int| 0 <= i < rest.len() && rest[i] == loc;
                assert(locs[i] == loc);
            }
        }
        lemma_swap_bits(k, loc, r);
        lemma_pairs_apart(f, g, loc, rest, k.remove(r));
        lemma_pairs_apart(f, g, loc, rest, k.insert(r));
    }
}

/// Functions with the same sums over pairs have the same sum.
proof fn lemma_same_total(
    f: spec_fn(Set<nat>) -> real,
    g: spec_fn(Set<nat>) -> real,
    loc: nat,
    locs: Seq<nat>,
    k: Set<nat>,
)
    requires
        same_pairs(f, g, loc),
        locs.no_duplicates(),
        locs.contains(loc),
    ensures
        total(f, locs, k) == total(g, locs, k),
    decreases locs.len(),
{
    let r = locs.last();
    let rest = locs.drop_last();
    let n = choose|n: int| 0 <= n < locs.len() && locs[n] == loc;
    assert(locs[locs.len() - 1] == r);
    if r == loc {
        assert(!rest.contains(loc)) by {
            if rest.contains(loc) {
                let i = choose|i: int| 0 <= i < rest.len() && rest[i] == loc;
                assert(locs[i] == loc);
            }
        }
        lemma_pairs_apart(f, g, loc, rest, k);
    } else {
        assert(rest[n] == loc);
        lemma_same_total(f, g, loc, rest, k.remove(r));
        lemma_same_total(f, g, loc, rest, k.insert(r));
    }
}

/// A unitary gate keeps the sum over a choice that does not depend on its
/// target.
pub(crate) proof fn unitary_total(
    chosen: spec_fn(Set<nat>) -> bool,
    m: Mat2,
    ctls: Seq<usize>,
    loc: nat,
    psi: Vector,
    locs: Seq<nat>,
    k: Set<nat>,
)
    requires
        unitary(m),
        no_control(ctls, loc),
        blind(chosen, loc),
        locs.no_duplicates(),
        locs.contains(loc),
    ensures
        total(weights(chosen, act(m, ctls, loc, psi)), locs, k) == total(
            weights(chosen, psi),
            locs,
            k,
        ),
{
    let turned = act(m, ctls, loc, psi);
    let f = weights(chosen, turned);
    let g = weights(chosen, psi);
    assert forall|j: Set<nat>| #[trigger] same_pair(f, g, loc, j) by {
        let (j0, j1) = (j.remove(loc), j.insert(loc));
        assert(chosen(j0) == chosen(j1));
        assert(j0.remove(loc) =~= j0 && j0.insert(loc) =~= j1);
        assert(j1.remove(loc) =~= j0 && j1.insert(loc) =~= j1);
        lemma_controls_kept(j, ctls, loc);
        unitary_keeps(m, psi(j0), psi(j1));
    }
    lemma_same_total(f, g, loc, locs, k);
}

/// Functions that agree have the same sum.
pub(crate) proof fn total_same(
    f: spec_fn(Set<nat>) -> real,
    g: spec_fn(Set<nat>) -> real,
    locs: Seq<nat>,
    k: Set<nat>,
)
    requires
        forall|j: Set<nat>| #[trigger] f(j) == g(j),
    ensures
        total(f, locs, k) == total(g, locs, k),
{
    assert(f =~= g);
}

/// The sum of a sum, and of a multiple.
pub(crate) proof fn total_linear(
    f: spec_fn(Set<nat>) -> real,
    g: spec_fn(Set<nat>) -> real,
    h: spec_fn(Set<nat>) -> real,
    z: real,
    locs: Seq<nat>,
    k: Set<nat>,
)
    requires
        forall|j: Set<nat>| #[trigger] h(j) == f(j) + z * g(j),
    ensures
        total(h, locs, k) == total(f, locs, k) + z * total(g, locs, k),
    decreases locs.len(),
{
    if locs.len() > 0 {
        let r = locs.last();
        let rest = locs.drop_last();
        total_linear(f, g, h, z, rest, k.remove(r));
        total_linear(f, g, h, z, rest, k.insert(r));
        real_dist(z, total(g, rest, k.remove(r)), total(g, rest, k.insert(r)));
    }
}

/// Whether two basis states agree outside the given locations.
pub open spec fn agree_outside(a: Set<nat>, b: Set<nat>, locs: Seq<nat>) -> bool {
    forall|x: nat| !locs.contains(x) ==> #[trigger] a.contains(x) == b.contains(x)
}

/// The function that is `w` at one basis state and zero elsewhere.
pub open spec fn point(key: Set<nat>, w: real) -> spec_fn(Set<nat>) -> real {
    |k: Set<nat>|
        if k == key {
            w
        } else {
            0 as real
        }
}

/// The sum of a function that is zero but at one basis state.
pub(crate) proof fn total_point(key: Set<nat>, w: real, locs: Seq<nat>, k: Set<nat>)
    requires
        locs.no_duplicates(),
    ensures
        total(point(key, w), locs, k) == if agree_outside(key, k, locs) {
            w
        } else {
            0 as real
        },
    decreases locs.len(),
{
    if locs.len() == 0 {
        if agree_outside(key, k, locs) {
            assert(key =~= k) by {
                assert forall|x: nat| key.contains(x) == k.contains(x) by {
                    assert(!locs.contains(x));
                }
            }
        }
    } else {
        let r = locs.last();
        let rest = locs.drop_last();
        assert(locs[locs.len() - 1] == r);
        assert(!rest.contains(r)) by {
            if rest.contains(r) {
                let i = choose|i: int| 0 <= i < rest.len() && rest[i] == r;
                assert(locs[i] == r);
            }
        }
        assert forall|x: nat| #[trigger] locs.contains(x) == (rest.contains(x) || x == r) by {
            if rest.contains(x) {
                let i = choose|i: int| 0 <= i < rest.len() && rest[i] == x;
                assert(locs[i] == x);
            }
            if locs.contains(x) && x != r {
                let i = choose|i: int| 0 <= i < locs.len() && locs[i] == x;
                assert(rest[i] == x);
            }
        }
        total_point(key, w, rest, k.remove(r));
        total_point(key, w, rest, k.insert(r));
        let near = if key.contains(r) {
            k.insert(r)
        } else {
            k.remove(r)
        };
        let far = if key.contains(r) {
            k.remove(r)
        } else {
            k.insert(r)
        };
        assert(!agree_outside(key, far, rest)) by {
            assert(key.contains(r) != far.contains(r));
        }
        assert(agree_outside(key, near, rest) == agree_outside(key, k, locs)) by {
            if agree_outside(key, k, locs) {
                assert forall|x: nat| !rest.contains(x) implies #[trigger] key.contains(x)
                    == near.contains(x) by {
                    assert(x != r ==> !locs.contains(x));
                }
            }
            if agree_outside(key, near, rest) {
                assert forall|x: nat| !locs.contains(x) implies #[trigger] key.contains(x)
                    == k.contains(x) by {
                    assert(!rest.contains(x));
                }
            }
        }
    }
}

/// The sum with one of the locations taken out of the list.
pub(crate) proof fn total_split(
    f: spec_fn(Set<nat>) -> real,
    locs: Seq<nat>,
    i: int,
    k: Set<nat>,
)
    requires
        locs.no_duplicates(),
        0 <= i < locs.len(),
    ensures
        total(f, locs, k) == total(f, locs.remove(i), k.remove(locs[i])) + total(
            f,
            locs.remove(i),
            k.insert(locs[i]),
        ),
    decreases locs.len(),
{
    let rest = locs.drop_last();
    let r = locs.last();
    let l = locs[i];
    let n = locs.len() - 1;
    if i == n {
        assert(locs.remove(i) =~= rest);
    } else {
        let left = locs.remove(i);
        assert(left.last() == r);
        assert(left.drop_last() =~= rest.remove(i));
        assert(rest[i] == l);
        assert(locs[i] != locs[n]);
        total_split(f, rest, i, k.remove(r));
        total_split(f, rest, i, k.insert(r));
        lemma_swap_bits(k, l, r);
    }
}

/// The sum does not depend on the order of the locations.
pub(crate) proof fn total_order(
    f: spec_fn(Set<nat>) -> real,
    a: Seq<nat>,
    b: Seq<nat>,
    k: Set<nat>,
)
    requires
        a.no_duplicates(),
        b.no_duplicates(),
        a.len() == b.len(),
        forall|x: nat| #[trigger] a.contains(x) == b.contains(x),
    ensures
        total(f, a, k) == total(f, b, k),
    decreases a.len(),
{
    if a.len() > 0 {
        let r = a.last();
        let rest = a.drop_last();
        assert(a[a.len() - 1] == r);
        assert(a.contains(r));
        assert(b.contains(r));
        let i = choose|i: int| 0 <= i < b.len() && b[i] == r;
        let left = b.remove(i);
        assert forall|x: nat| #[trigger] rest.contains(x) == left.contains(x) by {
            if rest.contains(x) {
                let n = choose|n: int| 0 <= n < rest.len() && rest[n] == x;
                assert(a[n] == x);
                assert(a[n] != a[a.len() - 1]);
                assert(a.contains(x));
                assert(b.contains(x));
                let m = choose|m: int| 0 <= m < b.len() && b[m] == x;
                if m < i {
                    assert(left[m] == x);
                } else {
                    assert(left[m - 1] == x);
                }
            }
            if left.contains(x) {
                let m = choose|m: int| 0 <= m < left.len() && left[m] == x;
                let o = if m < i {
                    m
                } else {
                    m + 1
                };
                assert(b[o] == x);
                assert(b[o] != b[i]);
                assert(a.contains(x));
                let n = choose|n: int| 0 <= n < a.len() && a[n] == x;
                assert(rest[n] == x);
            }
        }
        total_split(f, b, i, k);
        total_order(f, rest, left, k.remove(r));
        total_order(f, rest, left, k.insert(r));
    }
}

/// The sum over basis states with a bit set, as one over those without it.
pub(crate) proof fn total_shifted(
    f: spec_fn(Set<nat>) -> real,
    g: spec_fn(Set<nat>) -> real,
    loc: nat,
    locs: Seq<nat>,
    k: Set<nat>,
)
    requires
        !locs.contains(loc),
        !k.contains(loc),
        forall|j: Set<nat>| !j.contains(loc) ==> #[trigger] g(j) == f(j.insert(loc)),
    ensures
        total(f, locs, k.insert(loc)) == total(g, locs, k),
    decreases locs.len(),
{
    if locs.len() > 0 {
        let r = locs.last();
        let rest = locs.drop_last();
        assert(locs[locs.len() - 1] == r);
        assert(!rest.contains(loc)) by {
            if rest.contains(loc) {
                let i = choose|i: int| 0 <= i < rest.len() && rest[i] == loc;
                assert(locs[i] == loc);
            }
        }
        lemma_swap_bits(k, loc, r);
        total_shifted(f, g, loc, rest, k.remove(r));
        total_shifted(f, g, loc, rest, k.insert(r));
    }
}

/// The sum over basis states that agree on a bit only depends on those.
pub(crate) proof fn total_agree(
    f: spec_fn(Set<nat>) -> real,
    g: spec_fn(Set<nat>) -> real,
    loc: nat,
    locs: Seq<nat>,
    k: Set<nat>,
)
    requires
        !locs.contains(loc),
        forall|j: Set<nat>| j.contains(loc) == k.contains(loc) ==> #[trigger] f(j) == g(j),
    ensures
        total(f, locs, k) == total(g, locs, k),
    decreases locs.len(),
{
    if locs.len() > 0 {
        let r = locs.last();
        let rest = locs.drop_last();
        assert(locs[locs.len() - 1] == r);
        assert(!rest.contains(loc)) by {
            if rest.contains(loc) {
                let i = choose|i: int| 0 <= i < rest.len() && rest[i] == loc;
                assert(locs[i] == loc);
            }
        }
        total_agree(f, g, loc, rest, k.remove(r));
        total_agree(f, g, loc, rest, k.insert(r));
    }
}

/// The sum of a function that is zero wherever it counts.
pub(crate) proof fn total_zero(f: spec_fn(Set<nat>) -> real, locs: Seq<nat>, k: Set<nat>)
    requires
        forall|j: Set<nat>| #[trigger] f(j) == 0 as real,
    ensures
        total(f, locs, k) == 0 as real,
    decreases locs.len(),
{
    if locs.len() > 0 {
        total_zero(f, locs.drop_last(), k.remove(locs.last()));
        total_zero(f, locs.drop_last(), k.insert(locs.last()));
    }
}

} // verus!
