//! The text that shows a sparse state.
use crate::arith::{im_part, re_part, real_text, Amplitude, Real};
use crate::bits::{big_clone, big_sort, big_to_string, bits_of, decimal, value_of};
use crate::fxmap::{
    basis_entries, basis_get, basis_list, basis_map, enumerates, id_map_entries, lists,
};
use crate::ids::id_to_string;
use crate::state::SparseState;
use num_bigint::BigUint;
use rustc_hash::FxHashMap;
use vstd::prelude::*;

verus! {

/// `text` shows the basis state with its amplitude.
pub open spec fn shows_entry<A: Amplitude>(k: Set<nat>, v: A, text: Seq<char>) -> bool {
    exists|re: A::Real, im: A::Real, re_text: String, im_text: String| #[trigger]
        re_part(v, re) && #[trigger] im_part(v, im) && #[trigger] real_text(re, re_text)
            && #[trigger] real_text(im, im_text) && text == "\"|"@ + decimal(value_of(k))
            + "\u{27e9}\": ["@ + re_text@ + ", "@ + im_text@ + "]"@
}

/// The texts one after another, with a comma and a space between them.
pub open spec fn joined(texts: Seq<Seq<char>>) -> Seq<char>
    decreases texts.len(),
{
    if texts.len() == 0 {
        Seq::empty()
    } else if texts.len() == 1 {
        texts[0]
    } else {
        joined(texts.drop_last()) + ", "@ + texts.last()
    }
}

/// `keys` are the basis states of the sparse state, ascending.
pub open spec fn in_order<A: Amplitude>(keys: Seq<Set<nat>>, state: Map<Set<nat>, A>) -> bool {
    &&& enumerates(keys, state.dom())
    &&& forall|i: int, j: int| #![trigger keys[i], keys[j]]
        0 <= i <= j < keys.len() ==> value_of(keys[i]) <= value_of(keys[j])
}

/// `texts` show the basis states in the list.
pub open spec fn shows_entries<A: Amplitude>(
    state: Map<Set<nat>, A>,
    keys: Seq<Set<nat>>,
    texts: Seq<Seq<char>>,
) -> bool {
    &&& texts.len() == keys.len()
    &&& forall|i: int|
        0 <= i < keys.len() ==> shows_entry(keys[i], state[keys[i]], #[trigger] texts[i])
}

/// `text` shows the sparse state: its entries in ascending order.
pub open spec fn shows_state<A: Amplitude>(state: Map<Set<nat>, A>, text: Seq<char>) -> bool {
    exists|keys: Seq<Set<nat>>, texts: Seq<Seq<char>>| #[trigger]
        in_order(keys, state) && #[trigger] shows_entries(state, keys, texts) && text == "{ "@
            + joined(texts) + " }\n"@
}

/// The text for a qubit and its location.
pub open spec fn id_entry(e: (usize, usize)) -> Seq<char> {
    decimal(e.0 as nat) + ": "@ + decimal(e.1 as nat)
}

/// The texts for qubits and their locations.
pub open spec fn id_entries(list: Seq<(usize, usize)>) -> Seq<Seq<char>> {
    list.map_values(|e: (usize, usize)| id_entry(e))
}

/// `text` is the line that shows the id map: each qubit with its location, in
/// any order.
pub open spec fn shows_id_map(ids: Map<usize, usize>, text: Seq<char>) -> bool {
    exists|list: Seq<(usize, usize)>| #[trigger]
        lists(list, ids) && text == "MAP: {"@ + joined(id_entries(list)) + "}\n"@
}

/// `text` shows the sparse state, after a line with the id map if that is asked
/// for.
pub open spec fn shows_dump<A: Amplitude>(
    state: Map<Set<nat>, A>,
    ids: Map<usize, usize>,
    with_id_map: bool,
    text: Seq<char>,
) -> bool {
    if with_id_map {
        exists|line: Seq<char>, body: Seq<char>| #[trigger]
            shows_id_map(ids, line) && #[trigger] shows_state(state, body) && text == line + body
    } else {
        shows_state(state, text)
    }
}

/// The line that shows the id map.
pub fn id_map_line(id_map: &FxHashMap<usize, usize>) -> (r: String)
    ensures
        shows_id_map(id_map@, r@),
{
    let entries = id_map_entries(id_map);
    let mut out = String::from_str("MAP: {");
    let mut n: usize = 0;
    assert(id_entries(entries@.take(0)) =~= Seq::empty());
    while n < entries.len()
        invariant
            n <= entries.len(),
            out@ == "MAP: {"@ + joined(id_entries(entries@.take(n as int))),
        decreases entries.len() - n,
    {
        let ghost before = id_entries(entries@.take(n as int));
        let ghost text = id_entry(entries@[n as int]);
        let ghost start = out@;
        if n > 0 {
            out.append(", ");
        }
        out.append(id_to_string(entries[n].0).as_str());
        out.append(": ");
        out.append(id_to_string(entries[n].1).as_str());
        proof {
            let texts = id_entries(entries@.take(n + 1));
            assert(texts =~= before.push(text));
            assert(texts.drop_last() =~= before);
            if n > 0 {
                assert(out@ =~= start + ", "@ + text);
                assert(out@ =~= "MAP: {"@ + (joined(before) + ", "@ + text));
            } else {
                assert(out@ =~= start + text);
                assert(out@ =~= "MAP: {"@ + text);
            }
        }
        n += 1;
    }
    assert(entries@.take(entries@.len() as int) =~= entries@);
    out.append("}\n");
    out
}

/// The text for one entry.
fn entry_text<A: Amplitude>(k: &BigUint, v: A) -> (r: String)
    ensures
        shows_entry(bits_of(*k), v, r@),
{
    let re = v.re();
    let im = v.im();
    let re_text = re.to_text();
    let im_text = im.to_text();
    let mut r = String::from_str("\"|");
    r.append(big_to_string(k).as_str());
    r.append("\u{27e9}\": [");
    r.append(re_text.as_str());
    r.append(", ");
    r.append(im_text.as_str());
    r.append("]");
    assert(re_part(v, re) && im_part(v, im) && real_text(re, re_text) && real_text(im, im_text));
    r
}

/// The set bits of each number in the list.
spec fn bits_of_all(keys: Seq<BigUint>) -> Seq<Set<nat>> {
    keys.map_values(|k: BigUint| bits_of(k))
}

/// The basis states of the sparse state, in ascending order.
fn sorted_keys<A: Amplitude>(state: &SparseState<A>) -> (keys: Vec<BigUint>)
    ensures
        in_order(bits_of_all(keys@), basis_map(*state)),
{
    let entries = basis_entries(state);
    let ghost list = basis_list(entries@);
    let ghost m = basis_map(*state);
    let mut keys: Vec<BigUint> = Vec::new();
    let mut n: usize = 0;
    while n < entries.len()
        invariant
            n <= entries.len(),
            keys@.len() == n,
            list == basis_list(entries@),
            forall|i: int| 0 <= i < n ==> bits_of(#[trigger] keys@[i]) == list[i].0,
        decreases entries.len() - n,
    {
        keys.push(big_clone(&entries[n].0));
        n += 1;
    }
    let ghost given = keys@;
    big_sort(&mut keys);
    proof {
        broadcast use vstd::seq_lib::group_to_multiset_ensures;

        assert forall|i: int, j: int|
            0 <= i < given.len() && 0 <= j < given.len() && i != j implies given[i] != given[j] by {
            assert(bits_of(given[i]) == list[i].0 && bits_of(given[j]) == list[j].0);
        }
        given.lemma_multiset_has_no_duplicates();
        keys@.lemma_multiset_has_no_duplicates_conv();
        let sets = bits_of_all(keys@);
        assert forall|x: BigUint| #![all_triggers] keys@.contains(x) <==> given.contains(x) by {
            assert(keys@.to_multiset().contains(x) <==> keys@.contains(x));
            assert(given.to_multiset().contains(x) <==> given.contains(x));
        }
        assert forall|i: int, j: int|
            0 <= i < sets.len() && 0 <= j < sets.len() && i != j implies sets[i] != sets[j] by {
            assert(keys@.contains(keys@[i]) && keys@.contains(keys@[j]));
            let a = choose|a: int| 0 <= a < given.len() && given[a] == keys@[i];
            let b = choose|b: int| 0 <= b < given.len() && given[b] == keys@[j];
            assert(keys@[i] != keys@[j]);
            assert(a != b);
            assert(list[a].0 != list[b].0);
        }
        assert(sets.to_set() =~= m.dom()) by {
            assert forall|k: Set<nat>| sets.contains(k) <==> m.contains_key(k) by {
                if sets.contains(k) {
                    let i = choose|i: int| 0 <= i < sets.len() && sets[i] == k;
                    assert(keys@.contains(keys@[i]));
                    let a = choose|a: int| 0 <= a < given.len() && given[a] == keys@[i];
                    assert(list[a].0 == k);
                }
                if m.contains_key(k) {
                    let a = choose|a: int| 0 <= a < list.len() && (#[trigger] list[a]).0 == k;
                    assert(given.contains(given[a]));
                    assert(keys@.contains(given[a]));
                    let i = choose|i: int| 0 <= i < keys@.len() && keys@[i] == given[a];
                    assert(sets[i] == k);
                }
            }
        }
        assert forall|i: int, j: int| #![trigger sets[i], sets[j]]
            0 <= i <= j < sets.len() implies value_of(sets[i]) <= value_of(sets[j]) by {
            assert(sets[i] == bits_of(keys@[i]) && sets[j] == bits_of(keys@[j]));
        }
    }
    keys
}

/// The text that shows a sparse state, unless it has no entry.
pub fn state_text<A: Amplitude>(state: &SparseState<A>) -> (r: Option<String>)
    ensures
        r is None <==> basis_map(*state).dom() == Set::<Set<nat>>::empty(),
        r matches Some(text) ==> shows_state(basis_map(*state), text@),
{
    let ghost m = basis_map(*state);
    let keys = sorted_keys(state);
    let ghost sets = bits_of_all(keys@);
    if keys.len() == 0 {
        assert(m.dom() =~= Set::<Set<nat>>::empty()) by {
            assert forall|k: Set<nat>| !m.contains_key(k) by {
                assert(sets.to_set().contains(k) == m.dom().contains(k));
            }
        }
        return None;
    }
    assert(m.contains_key(sets[0])) by {
        assert(sets.to_set().contains(sets[0]));
    }
    let mut out = String::from_str("{ ");
    let ghost mut texts: Seq<Seq<char>> = Seq::empty();
    let mut n: usize = 0;
    while n < keys.len()
        invariant
            n <= keys.len(),
            m == basis_map(*state),
            sets == bits_of_all(keys@),
            enumerates(sets, m.dom()),
            texts.len() == n,
            forall|i: int|
                0 <= i < n ==> shows_entry(sets[i], m[sets[i]], #[trigger] texts[i]),
            out@ == "{ "@ + joined(texts),
        decreases keys.len() - n,
    {
        assert(m.contains_key(sets[n as int])) by {
            assert(sets.to_set().contains(sets[n as int]));
        }
        if let Some(v) = basis_get(state, &keys[n]) {
            let text = entry_text(&keys[n], v);
            let ghost before = texts;
            if n > 0 {
                out.append(", ");
            }
            out.append(text.as_str());
            proof {
                texts = texts.push(text@);
                assert(texts.drop_last() =~= before);
                if n > 0 {
                    assert(out@ =~= "{ "@ + (joined(before) + ", "@ + text@));
                } else {
                    assert(out@ =~= "{ "@ + text@);
                }
            }
        }
        n += 1;
    }
    assert(shows_entries(m, sets, texts));
    out.append(" }\n");
    assert(in_order(sets, m));
    Some(out)
}

} // verus!
