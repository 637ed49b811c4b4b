//! Basis states: unbounded bit strings held in a [`BigUint`].
use num_bigint::BigUint;
use num_traits::Zero;
use vstd::arithmetic::power2::pow2;
use vstd::prelude::*;

verus! {

/// The unbounded integers of the `num_bigint` crate.
#[verifier::external_type_specification]
#[verifier::external_body]
pub struct ExBigUint(num_bigint::BigUint);

/// The positions of the bits that are set in the binary form of a number.
pub uninterp spec fn bits_of(n: BigUint) -> Set<nat>;

/// The number whose set bits are `bits`.
pub open spec fn value_of(bits: Set<nat>) -> nat {
    bits.fold(0nat, |sum: nat, i: nat| sum + pow2(i))
}

/// The decimal digits of a number, most significant first.
pub open spec fn decimal(n: nat) -> Seq<char>
    decreases n,
{
    let digit = (('0' as nat) + n % 10) as char;
    if n < 10 {
        seq![digit]
    } else {
        decimal(n / 10).push(digit)
    }
}

/// `bits` with the bit at position `i` set to `value`.
pub open spec fn with_bit(bits: Set<nat>, i: nat, value: bool) -> Set<nat> {
    if value {
        bits.insert(i)
    } else {
        bits.remove(i)
    }
}

/// `bits` with the bit at position `i` flipped.
pub open spec fn toggled(bits: Set<nat>, i: nat) -> Set<nat> {
    with_bit(bits, i, !bits.contains(i))
}

/// Whether an odd number of the bits of `mask` is set in `bits`.
pub open spec fn odd_parity(bits: Set<nat>, mask: Set<nat>) -> bool {
    bits.intersect(mask).len() % 2 == 1
}

/// `BigUint::zero` gives the number with no bit set.
#[verifier::external_body]
pub(crate) fn big_zero() -> (r: BigUint)
    ensures
        bits_of(r) == Set::<nat>::empty(),
{
    BigUint::zero()
}

/// `BigUint::clone` gives a number with the same bits.
#[verifier::external_body]
pub(crate) fn big_clone(n: &BigUint) -> (r: BigUint)
    ensures
        bits_of(r) == bits_of(*n),
{
    n.clone()
}

/// `BigUint::bit` tells whether the bit at the position is set.
#[verifier::external_body]
pub(crate) fn big_bit(n: &BigUint, i: usize) -> (r: bool)
    ensures
        r == bits_of(*n).contains(i as nat),
{
    n.bit(i as u64)
}

/// `BigUint::set_bit` sets or clears the bit at the position and leaves all
/// other bits as they are.
#[verifier::external_body]
pub(crate) fn big_set_bit(n: &mut BigUint, i: usize, value: bool)
    ensures
        bits_of(*final(n)) == with_bit(bits_of(*old(n)), i as nat, value),
{
    n.set_bit(i as u64, value)
}

/// The operator `&` on two references to a `BigUint` keeps the bits that are
/// set in both.
#[verifier::external_body]
pub(crate) fn big_and(a: &BigUint, b: &BigUint) -> (r: BigUint)
    ensures
        bits_of(r) == bits_of(*a).intersect(bits_of(*b)),
{
    a & b
}

/// `BigUint::count_ones` counts the bits that are set.
#[verifier::external_body]
pub(crate) fn big_count_ones(n: &BigUint) -> (r: u64)
    ensures
        r == bits_of(*n).len(),
{
    n.count_ones()
}

/// `BigUint` shows itself in decimal, without sign or padding.
#[verifier::external_body]
pub(crate) fn big_to_string(n: &BigUint) -> (r: String)
    ensures
        r@ == decimal(value_of(bits_of(*n))),
{
    n.to_string()
}

/// `slice::sort_unstable` puts the numbers in ascending order.
#[verifier::external_body]
pub(crate) fn big_sort(v: &mut Vec<BigUint>)
    ensures
        final(v)@.to_multiset() == old(v)@.to_multiset(),
        forall|i: int, j: int| #![trigger final(v)@[i], final(v)@[j]]
            0 <= i <= j < final(v)@.len() ==> value_of(bits_of(final(v)@[i])) <= value_of(
                bits_of(final(v)@[j]),
            ),
{
    v.sort_unstable()
}

/// Whether an odd number of the bits of `mask` is set in `n`.
pub fn parity(n: &BigUint, mask: &BigUint) -> (odd: bool)
    ensures
        odd == odd_parity(bits_of(*n), bits_of(*mask)),
{
    let common = big_and(n, mask);
    big_count_ones(&common) % 2 == 1
}

/// The number whose set bits are exactly the given positions.
pub fn mask_of(locs: &[usize]) -> (mask: BigUint)
    ensures
        bits_of(mask) == positions(locs@),
{
    let mut mask = big_zero();
    assert(positions(locs@.take(0)) =~= Set::<nat>::empty());
    for n in 0..locs.len()
        invariant
            bits_of(mask) == positions(locs@.take(n as int)),
    {
        big_set_bit(&mut mask, locs[n], true);
        proof {
            let before = locs@.take(n as int);
            let done = locs@.take(n + 1);
            let next = positions(before).insert(locs@[n as int] as nat);
            assert(positions(done) =~= next) by {
                assert(done[n as int] == locs@[n as int]);
                assert forall|p: nat| positions(before).contains(p) implies positions(
                    done,
                ).contains(p) by {
                    let i = choose|i: int| 0 <= i < n && #[trigger] before[i] == p;
                    assert(done[i] == p);
                }
                assert forall|p: nat| positions(done).contains(p) implies next.contains(p) by {
                    let i = choose|i: int| 0 <= i < n + 1 && #[trigger] done[i] == p;
                    if i < n {
                        assert(before[i] == p);
                    }
                }
            }
        }
    }
    assert(locs@.take(locs@.len() as int) =~= locs@);
    mask
}

/// The positions listed in `locs`.
pub open spec fn positions(locs: Seq<usize>) -> Set<nat> {
    Set::new(|p: nat| exists|i: int| 0 <= i < locs.len() && #[trigger] locs[i] == p)
}

} // verus!
