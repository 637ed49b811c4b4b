//! Hash maps and sets of the `rustc_hash` crate, behind contracts.
use crate::bits::bits_of;
use num_bigint::BigUint;
use rustc_hash::{FxHashMap, FxHashSet};
use vstd::prelude::*;

verus! {

/// The hasher of the `rustc_hash` crate.
#[verifier::external_type_specification]
#[verifier::external_body]
pub struct ExFxHasher(rustc_hash::FxHasher);

/// The builder that makes a hasher from its default value.
#[verifier::external_type_specification]
#[verifier::external_body]
#[verifier::reject_recursive_types(H)]
pub struct ExBuildHasherDefault<H>(std::hash::BuildHasherDefault<H>);

/// What a map holds under the basis state with the given set bits.
pub open spec fn basis_map<V>(m: FxHashMap<BigUint, V>) -> Map<Set<nat>, V> {
    Map::new(
        |bits: Set<nat>| exists|k: BigUint| #[trigger] m@.contains_key(k) && bits_of(k) == bits,
        |bits: Set<nat>| m@[choose|k: BigUint| #[trigger] m@.contains_key(k) && bits_of(k) == bits],
    )
}

/// `list` holds each entry of `m` exactly once.
pub open spec fn lists<K, V>(list: Seq<(K, V)>, m: Map<K, V>) -> bool {
    &&& forall|i: int| 0 <= i < list.len() ==> m.contains_key((#[trigger] list[i]).0)
        && m[list[i].0] == list[i].1
    &&& forall|i: int, j: int|
        0 <= i < j < list.len() ==> (#[trigger] list[i]).0 != (#[trigger] list[j]).0
    &&& forall|k: K| #[trigger]
        m.contains_key(k) ==> exists|i: int| 0 <= i < list.len() && (#[trigger] list[i]).0 == k
}

/// `list` holds each element of `s` exactly once.
pub open spec fn enumerates<K>(list: Seq<K>, s: Set<K>) -> bool {
    &&& list.no_duplicates()
    &&& list.to_set() == s
}

/// `FxHashMap::default` gives a map that holds nothing.
#[verifier::external_body]
pub(crate) fn id_map_new<V>() -> (m: FxHashMap<usize, V>)
    ensures
        m@ =~= Map::empty(),
{
    FxHashMap::default()
}

/// `FxHashMap::get` finds the value under the key.
#[verifier::external_body]
pub(crate) fn id_map_get<V: Copy>(m: &FxHashMap<usize, V>, k: usize) -> (r: Option<V>)
    ensures
        r == (if m@.contains_key(k) {
            Some(m@[k])
        } else {
            None
        }),
{
    m.get(&k).copied()
}

/// `FxHashMap::insert` puts the value under the key, in place of an earlier one.
#[verifier::external_body]
pub(crate) fn id_map_insert<V>(m: &mut FxHashMap<usize, V>, k: usize, v: V)
    ensures
        final(m)@ == old(m)@.insert(k, v),
{
    m.insert(k, v);
}

/// `FxHashMap::remove` takes the key out of the map.
#[verifier::external_body]
pub(crate) fn id_map_remove<V>(m: &mut FxHashMap<usize, V>, k: usize)
    ensures
        final(m)@ == old(m)@.remove(k),
{
    m.remove(&k);
}

/// `FxHashMap::iter` walks over each entry once, in an order of its own.
#[verifier::external_body]
pub(crate) fn id_map_entries(m: &FxHashMap<usize, usize>) -> (r: Vec<(usize, usize)>)
    ensures
        lists(r@, m@),
{
    m.iter().map(|(k, v)| (*k, *v)).collect()
}

/// `FxHashMap::default` gives a map that holds nothing.
#[verifier::external_body]
pub(crate) fn basis_new<V>() -> (m: FxHashMap<BigUint, V>)
    ensures
        basis_map(m) =~= Map::empty(),
{
    FxHashMap::default()
}

/// `FxHashMap::get` finds the value under the key.
#[verifier::external_body]
pub(crate) fn basis_get<V: Copy>(m: &FxHashMap<BigUint, V>, k: &BigUint) -> (r: Option<V>)
    ensures
        r == (if basis_map(*m).contains_key(bits_of(*k)) {
            Some(basis_map(*m)[bits_of(*k)])
        } else {
            None
        }),
{
    m.get(k).copied()
}

/// `FxHashMap::insert` puts the value under the key, in place of an earlier one.
#[verifier::external_body]
pub(crate) fn basis_insert<V>(m: &mut FxHashMap<BigUint, V>, k: BigUint, v: V)
    ensures
        basis_map(*final(m)) == basis_map(*old(m)).insert(bits_of(k), v),
{
    m.insert(k, v);
}

/// The entries of a list, with each basis state taken by its set bits.
pub open spec fn basis_list<V>(list: Seq<(BigUint, V)>) -> Seq<(Set<nat>, V)> {
    list.map_values(|e: (BigUint, V)| (bits_of(e.0), e.1))
}

/// `FxHashMap::iter` walks over each entry once, in an order of its own.
#[verifier::external_body]
pub(crate) fn basis_entries<V: Copy>(m: &FxHashMap<BigUint, V>) -> (r: Vec<(BigUint, V)>)
    ensures
        lists(basis_list(r@), basis_map(*m)),
{
    m.iter().map(|(k, v)| (k.clone(), *v)).collect()
}

/// `FxHashSet::default` gives a set that holds nothing.
#[verifier::external_body]
pub(crate) fn id_set_new() -> (s: FxHashSet<usize>)
    ensures
        s@ == Set::<usize>::empty(),
{
    FxHashSet::default()
}

/// `FxHashSet::insert` puts the element in and tells whether it is new.
#[verifier::external_body]
pub(crate) fn id_set_insert(s: &mut FxHashSet<usize>, k: usize) -> (fresh: bool)
    ensures
        final(s)@ == old(s)@.insert(k),
        fresh == !old(s)@.contains(k),
{
    s.insert(k)
}

/// `slice::sort_unstable` puts the numbers in ascending order.
#[verifier::external_body]
pub(crate) fn id_sort(v: &mut Vec<usize>)
    ensures
        final(v)@.to_multiset() == old(v)@.to_multiset(),
        forall|i: int, j: int| 0 <= i <= j < final(v)@.len() ==> final(v)@[i] <= final(v)@[j],
{
    v.sort_unstable()
}

} // verus!
