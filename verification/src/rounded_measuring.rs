//! The laws of probabilities and measurements where the arithmetic rounds.
use crate::arith::{norm_square, real_less, real_recip, real_sqrt, real_sum, scaled, Amplitude};
use crate::bits::{odd_parity, positions};
use crate::exact::{real_assoc, real_comm, real_dist, real_units, times_comm, times_units, Cx};
use crate::flushing::law_flush_keeps_wf;
use crate::fxmap::{enumerates, lists};
use crate::measuring::{lemma_list_state, list_weight, parity_weight, places};
use crate::model::{kept, locations, FlushLevel, SimModel};
use crate::norms::norm2;
use crate::reading::Reading;
use crate::rounding::{gap, gap_via, mag, mag_plus, real_mono, real_scale, size};
use crate::steps::{
    collapsed_entry, flush_step, measure_step, measured, norm_added, normalizer, probability, tally,
};
use vstd::prelude::*;

verus! {

/// The power of a number.
pub open spec fn power(x: real, n: nat) -> real
    decreases n,
{
    if n == 0 {
        1 as real
    } else {
        x * power(x, (n - 1) as nat)
    }
}

/// Powers of numbers around one.
proof fn lemma_power(e: real, n: nat)
    requires
        0 as real <= e,
        (100 as real) * e <= 1 as real,
    ensures
        power(1 as real + e, n) >= 1 as real,
        power(1 as real - e, n) > 0 as real,
        power(1 as real - e, n) <= 1 as real,
        n > 0 ==> power(1 as real + e, n) >= 1 as real + e,
        n > 0 ==> power(1 as real - e, n) <= 1 as real - e,
    decreases n,
{
    if n > 0 {
        lemma_power(e, (n - 1) as nat);
        let (u, l) = (power(1 as real + e, (n - 1) as nat), power(1 as real - e, (n - 1) as nat));
        real_scale(1 as real, u, 1 as real + e);
        real_units(1 as real + e);
        real_scale(l, 1 as real, 1 as real - e);
        real_units(1 as real - e);
        real_above(1 as real - e, l);
    }
}

proof fn real_above(x: real, y: real)
    by (nonlinear_arith)
    requires
        x > 0 as real,
        y > 0 as real,
    ensures
        x * y > 0 as real,
{
}

proof fn real_square(x: real)
    by (nonlinear_arith)
    ensures
        x * x >= 0 as real,
{
}

/// A tally is between two multiples of the sum over the entries.
proof fn lemma_tally_rounded<A: Amplitude>(
    rd: Reading<A>,
    e: real,
    d: real,
    list: Seq<(Set<nat>, A)>,
    mask: Set<nat>,
    odd: bool,
    t: A::Real,
)
    requires
        rd.rounds(e, d),
        tally(list, mask, odd, t),
    ensures
        list_weight(rd, list, mask, odd) >= 0 as real,
        power(1 as real - e, list.len() + 1) * list_weight(rd, list, mask, odd) <= rd.val(t),
        rd.val(t) <= power(1 as real + e, list.len() + 1) * list_weight(rd, list, mask, odd),
    decreases list.len(),
{
    let n = list.len();
    let w = list_weight(rd, list, mask, odd);
    let (l, u) = (power(1 as real - e, n + 1), power(1 as real + e, n + 1));
    lemma_power(e, n + 1);
    real_units(l);
    real_units(u);
    if n > 0 {
        let rest = list.drop_last();
        let v = list_weight(rd, rest, mask, odd);
        let (a, b) = (power(1 as real - e, n), power(1 as real + e, n));
        lemma_power(e, n);
        assert((n + 1 - 1) as nat == n);
        real_scale(a, 1 as real, a);
        real_scale(1 as real - e, 1 as real, a);
        real_scale(1 as real, 1 as real + e, b);
        real_units(a);
        real_units(b);
        if odd_parity(list.last().0, mask) == odd {
            let s = choose|s: A::Real|
                tally(rest, mask, odd, s) && #[trigger] norm_added(s, list.last().1, t);
            lemma_tally_rounded(rd, e, d, rest, mask, odd, s);
            let m = choose|m: A::Real| #[trigger]
                norm_square(list.last().1, m) && real_sum(s, m, t);
            let x = norm2(rd.num(list.last().1));
            real_square(rd.num(list.last().1).re);
            real_square(rd.num(list.last().1).im);
            lemma_sum_bounds(e, a, b, v, x, rd.val(s), rd.val(m), rd.val(t));
        } else {
            lemma_tally_rounded(rd, e, d, rest, mask, odd, t);
            real_scale(l, a, v);
            real_scale(b, u, v);
        }
    }
}

/// One more number in a sum.
proof fn lemma_sum_bounds(
    e: real,
    l: real,
    u: real,
    v: real,
    x: real,
    s: real,
    m: real,
    t: real,
)
    requires
        0 as real <= e,
        (100 as real) * e <= 1 as real,
        l > 0 as real,
        l <= 1 as real - e,
        1 as real + e <= u,
        0 as real <= v,
        0 as real <= x,
        l * v <= s <= u * v,
        size(m - x) <= e * x,
        size(t - (s + m)) <= e * size(s + m),
    ensures
        ((1 as real - e) * l) * (v + x) <= t,
        t <= ((1 as real + e) * u) * (v + x),
{
    real_scale(l, 1 as real - e, x);
    real_scale(1 as real + e, u, x);
    real_dist(x, 1 as real, e);
    real_units(x);
    real_comm(x, 1 as real - e);
    real_comm(x, 1 as real + e);
    real_comm(x, e);
    real_mono(0 as real, l, 0 as real, v);
    real_mono(0 as real, l, 0 as real, x);
    real_units(0 as real);
    let y = s + m;
    real_dist(l, v, x);
    real_dist(u, v, x);
    assert(l * (v + x) <= y <= u * (v + x));
    real_dist(y, 1 as real, e);
    real_units(y);
    real_comm(y, e);
    real_comm(y, 1 as real - e);
    real_comm(y, 1 as real + e);
    real_scale(l * (v + x), y, 1 as real - e);
    real_scale(y, u * (v + x), 1 as real + e);
    real_assoc(1 as real - e, l, v + x);
    real_assoc(1 as real + e, u, v + x);
}

/// The probability of an odd parity of the bits at any locations is the sum of the
/// squared absolute values of the amplitudes with that parity, but for the errors
/// of one operation for each entry and one more.
pub proof fn law_probability_rounded<A: Amplitude>(
    rd: Reading<A>,
    e: real,
    d: real,
    s: SimModel<A>,
    locs: Seq<usize>,
    p: A::Real,
    order: Seq<usize>,
)
    requires
        rd.rounds(e, d),
        s.wf(),
        probability(s.state, locs, p),
        enumerates(order, s.ids.dom()),
    ensures
        ({
            let weight = parity_weight(
                rd.vector(s.state),
                positions(locs),
                true,
                places(s.ids, order),
            );
            let count = s.state.dom().len() + 1;
            &&& weight >= 0 as real
            &&& power(1 as real - e, count) * weight <= rd.val(p)
            &&& rd.val(p) <= power(1 as real + e, count) * weight
        }),
{
    let mask = positions(locs);
    let list = choose|list: Seq<(Set<nat>, A)>| #[trigger]
        lists(list, s.state) && tally(list, mask, true, p);
    lemma_tally_rounded(rd, e, d, list, mask, true, p);
    lemma_list_state(rd, s, list, mask, true, order);
}

/// The probability of an odd parity is the sum of the squared absolute values of
/// the amplitudes with that parity, after the flush, but for the errors of one
/// operation for each entry and one more.
pub proof fn law_joint_probability_rounded<A: Amplitude>(
    rd: Reading<A>,
    e: real,
    d: real,
    pre: SimModel<A>,
    ids: Seq<usize>,
    p: A::Real,
    post: SimModel<A>,
    order: Seq<usize>,
)
    requires
        rd.rounds(e, d),
        pre.wf(),
        pre.allocated(ids),
        flush_step(pre, ids, FlushLevel::HRxRy, post),
        probability(post.state, locations(post.ids, ids), p),
        enumerates(order, pre.ids.dom()),
    ensures
        ({
            let weight = parity_weight(
                rd.vector(post.state),
                positions(locations(pre.ids, ids)),
                true,
                places(pre.ids, order),
            );
            let count = post.state.dom().len() + 1;
            &&& weight >= 0 as real
            &&& power(1 as real - e, count) * weight <= rd.val(p)
            &&& rd.val(p) <= power(1 as real + e, count) * weight
        }),
{
    law_flush_keeps_wf(pre, ids, FlushLevel::HRxRy, post);
    law_probability_rounded(rd, e, d, post, locations(post.ids, ids), p, order);
}

/// In any arithmetic, the outcome of a measurement is whether the sample is below
/// the very number that the probability of an odd parity is, for the same qubits
/// in the same state.
pub proof fn law_outcome_compares<A: Amplitude>(
    pre: SimModel<A>,
    ids: Seq<usize>,
    sample: A::Real,
    odd: bool,
    post: SimModel<A>,
) -> (r: (SimModel<A>, A::Real))
    requires
        measure_step(pre, ids, sample, odd, post),
    ensures
        flush_step(pre, ids, FlushLevel::HRxRy, r.0),
        probability(r.0.state, locations(r.0.ids, ids), r.1),
        real_less(sample, r.1, odd),
        post == (SimModel { state: post.state, ..r.0 }),
{
    let mid = choose|mid: SimModel<A>| #[trigger]
        flush_step(pre, ids, FlushLevel::HRxRy, mid) && post == (SimModel {
            state: post.state,
            ..mid
        }) && measured(mid.state, locations(mid.ids, ids), sample, odd, post.state);
    let p = choose|p: A::Real| #[trigger]
        probability(mid.state, locations(mid.ids, ids), p) && real_less(sample, p, odd);
    (mid, p)
}

proof fn lemma_no_weight<A: Amplitude>(
    rd: Reading<A>,
    list: Seq<(Set<nat>, A)>,
    mask: Set<nat>,
    odd: bool,
)
    requires
        forall|i: int| 0 <= i < list.len() ==> odd_parity((#[trigger] list[i]).0, mask) != odd,
    ensures
        list_weight(rd, list, mask, odd) == 0 as real,
    decreases list.len(),
{
    if list.len() > 0 {
        let rest = list.drop_last();
        assert(list[list.len() - 1] == list.last());
        assert forall|i: int| 0 <= i < rest.len() implies odd_parity((#[trigger] rest[i]).0, mask)
            != odd by {
            assert(rest[i] == list[i]);
        }
        lemma_no_weight(rd, rest, mask, odd);
    }
}

/// A measurement never gives odd if no entry has that parity after the flush, for
/// any sample that is not negative.
pub proof fn law_impossible_outcome<A: Amplitude>(
    rd: Reading<A>,
    e: real,
    d: real,
    pre: SimModel<A>,
    ids: Seq<usize>,
    sample: A::Real,
    odd: bool,
    post: SimModel<A>,
) -> (mid: SimModel<A>)
    requires
        rd.rounds(e, d),
        rd.val(sample) >= 0 as real,
        measure_step(pre, ids, sample, odd, post),
    ensures
        flush_step(pre, ids, FlushLevel::HRxRy, mid),
        (forall|k: Set<nat>| #[trigger]
            mid.state.contains_key(k) ==> !odd_parity(k, positions(locations(mid.ids, ids))))
            ==> !odd,
{
    let (mid, p) = law_outcome_compares(pre, ids, sample, odd, post);
    let mask = positions(locations(mid.ids, ids));
    if forall|k: Set<nat>| #[trigger] mid.state.contains_key(k) ==> !odd_parity(k, mask) {
        let list = choose|list: Seq<(Set<nat>, A)>| #[trigger]
            lists(list, mid.state) && tally(list, mask, true, p);
        lemma_tally_rounded(rd, e, d, list, mask, true, p);
        assert forall|i: int| 0 <= i < list.len() implies odd_parity((#[trigger] list[i]).0, mask)
            != true by {
            assert(mid.state.contains_key(list[i].0));
        }
        lemma_no_weight(rd, list, mask, true);
        real_units(power(1 as real + e, list.len() + 1));
    }
    mid
}

/// A measurement gives odd if the sample is below the weight of the odd parity
/// after the flush, and even if it is not, but for errors. It leaves the
/// amplitudes of the measured parity, all scaled by one factor that makes their
/// weight one, and none of the other parity, but for errors.
pub proof fn law_measure_rounded<A: Amplitude>(
    rd: Reading<A>,
    e: real,
    d: real,
    pre: SimModel<A>,
    ids: Seq<usize>,
    sample: A::Real,
    odd: bool,
    post: SimModel<A>,
    order: Seq<usize>,
) -> (r: (SimModel<A>, real))
    requires
        rd.rounds(e, d),
        pre.wf(),
        pre.allocated(ids),
        measure_step(pre, ids, sample, odd, post),
        enumerates(order, pre.ids.dom()),
    ensures
        flush_step(pre, ids, FlushLevel::HRxRy, r.0),
        post == (SimModel { state: post.state, ..r.0 }),
        ({
            let weight = parity_weight(
                rd.vector(r.0.state),
                positions(locations(pre.ids, ids)),
                true,
                places(pre.ids, order),
            );
            let count = r.0.state.dom().len() + 1;
            &&& rd.val(sample) < power(1 as real - e, count) * weight ==> odd
            &&& rd.val(sample) >= power(1 as real + e, count) * weight ==> !odd
        }),
        ({
            let mask = positions(locations(pre.ids, ids));
            let psi = rd.vector(r.0.state);
            let weight = parity_weight(psi, mask, odd, places(pre.ids, order));
            let count = r.0.state.dom().len() + 3;
            weight > 0 as real ==> {
                &&& r.1 > 0 as real
                &&& power(1 as real - e, count) * ((r.1 * r.1) * weight) <= (1 as real + e) * (
                1 as real + e)
                &&& power(1 as real + e, count) * ((r.1 * r.1) * weight) >= (1 as real - e) * (
                1 as real - e)
                &&& forall|k: Set<nat>|
                    if odd_parity(k, mask) == odd {
                        gap(#[trigger] rd.vector(post.state)(k), Cx::of(r.1).times(psi(k))) <= e * (
                        mag(psi(k)) * r.1) + d
                    } else {
                        rd.vector(post.state)(k) == Cx::zero()
                    }
            }
        }),
{
    let mid = choose|mid: SimModel<A>| #[trigger]
        flush_step(pre, ids, FlushLevel::HRxRy, mid) && post == (SimModel {
            state: post.state,
            ..mid
        }) && measured(mid.state, locations(mid.ids, ids), sample, odd, post.state);
    law_flush_keeps_wf(pre, ids, FlushLevel::HRxRy, mid);
    let chance = choose|p: A::Real| #[trigger]
        probability(mid.state, locations(mid.ids, ids), p) && real_less(sample, p, odd);
    law_joint_probability_rounded(rd, e, d, pre, ids, chance, mid, order);
    let mask = positions(locations(mid.ids, ids));
    let (list, total, f) = choose|list: Seq<(Set<nat>, A)>, total: A::Real, f: A::Real| #[trigger]
        lists(list, mid.state) && #[trigger] tally(list, mask, odd, total) && #[trigger] normalizer(
            total,
            f,
        ) && forall|k: Set<nat>| #[trigger]
            collapsed_entry(mid.state, mask, odd, f, post.state, k);
    lemma_tally_rounded(rd, e, d, list, mask, odd, total);
    lemma_list_state(rd, mid, list, mask, odd, order);
    let root = choose|root: A::Real| #[trigger] real_sqrt(total, root) && real_recip(root, f);
    let psi = rd.vector(mid.state);
    let weight = parity_weight(psi, mask, odd, places(pre.ids, order));
    let n = list.len();
    let factor = rd.val(f);
    if weight > 0 as real {
        lemma_power(e, n + 1);
        real_above(power(1 as real - e, n + 1), weight);
        lemma_normalizer(
            e,
            power(1 as real - e, n + 1),
            power(1 as real + e, n + 1),
            weight,
            rd.val(total),
            rd.val(root),
            factor,
        );
        assert(power(1 as real - e, n + 3) == (1 as real - e) * ((1 as real - e) * power(
            1 as real - e,
            n + 1,
        ))) by {
            assert((n + 3 - 1) as nat == n + 2 && (n + 2 - 1) as nat == n + 1);
            reveal_with_fuel(power, 3);
        }
        assert(power(1 as real + e, n + 3) == (1 as real + e) * ((1 as real + e) * power(
            1 as real + e,
            n + 1,
        ))) by {
            assert((n + 3 - 1) as nat == n + 2 && (n + 2 - 1) as nat == n + 1);
            reveal_with_fuel(power, 3);
        }
        let z = Cx::of(factor);
        assert forall|k: Set<nat>|
            if odd_parity(k, mask) == odd {
                gap(#[trigger] rd.vector(post.state)(k), z.times(psi(k))) <= e * (mag(psi(k))
                    * factor) + d
            } else {
                rd.vector(post.state)(k) == Cx::zero()
            } by {
            assert(collapsed_entry(mid.state, mask, odd, f, post.state, k));
            times_units(z);
            mag_plus(psi(k), psi(k));
            real_mono(0 as real, mag(psi(k)), 0 as real, factor);
            real_units(0 as real);
            real_mono(0 as real, e, 0 as real, mag(psi(k)) * factor);
            if odd_parity(k, mask) == odd {
                let x = z.times(psi(k));
                gap_via(x, x, x);
                if mid.state.contains_key(k) {
                    let v = choose|v: A| #[trigger]
                        scaled(mid.state[k], f, v) && kept(v, k, post.state);
                    times_comm(z, psi(k));
                    gap_via(rd.vector(post.state)(k), rd.num(v), x);
                    gap_via(rd.num(v), x, x);
                }
            }
        }
    }
    (mid, factor)
}

/// One over the square root of a sum that is a little off.
proof fn lemma_normalizer(
    e: real,
    l: real,
    u: real,
    w: real,
    t: real,
    r: real,
    f: real,
)
    requires
        0 as real <= e,
        (100 as real) * e <= 1 as real,
        l > 0 as real,
        u > 0 as real,
        w > 0 as real,
        l * w > 0 as real,
        l * w <= t <= u * w,
        t >= 0 as real ==> {
            &&& r >= 0 as real
            &&& (1 as real - e) * ((1 as real - e) * t) <= r * r
            &&& r * r <= (1 as real + e) * ((1 as real + e) * t)
        },
        r > 0 as real ==> size(r * f - 1 as real) <= e,
    ensures
        f > 0 as real,
        ((1 as real - e) * ((1 as real - e) * l)) * ((f * f) * w) <= (1 as real + e) * (1 as real
            + e),
        ((1 as real + e) * ((1 as real + e) * u)) * ((f * f) * w) >= (1 as real - e) * (1 as real
            - e),
{
    let (a, b) = (1 as real - e, 1 as real + e);
    real_above(a, t);
    real_above(a, a * t);
    real_units(0 as real);
    assert(r > 0 as real);
    let g = r * f;
    assert(a <= g <= b);
    if f <= 0 as real {
        real_scale(f, 0 as real, r);
        real_units(r);
    }
    real_mono(a, g, a, g);
    real_mono(g, b, g, b);
    // The square of r f is r squared times f squared.
    let q = f * f;
    real_above(f, f);
    lemma_squares(r, f);
    // From below: a a l w <= a a t <= r r.
    real_scale(l * w, t, a);
    real_scale(a * (l * w), a * t, a);
    real_scale(a * (a * (l * w)), r * r, q);
    // From above: r r <= b b t <= b b u w.
    real_scale(t, u * w, b);
    real_scale(b * t, b * (u * w), b);
    real_scale(r * r, b * (b * (u * w)), q);
    lemma_shift(a, l, w, q);
    lemma_shift(b, u, w, q);
}

proof fn lemma_squares(r: real, f: real)
    ensures
        (r * f) * (r * f) == (r * r) * (f * f),
{
    real_assoc(r * f, r, f);
    real_comm(r * f, r);
    real_assoc(r, r, f);
    real_assoc(r * r, f, f);
}

proof fn lemma_shift(a: real, l: real, w: real, q: real)
    ensures
        (a * (a * (l * w))) * q == (a * (a * l)) * (q * w),
{
    real_assoc(a, l, w);
    real_assoc(a, a * l, w);
    real_assoc(a * (a * l), w, q);
    real_comm(w, q);
}

} // verus!
