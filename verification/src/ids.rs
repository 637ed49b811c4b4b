//! Qubit identifiers: free ones, repeated ones and unknown ones.
use crate::bits::decimal;
use crate::fxmap::{id_set_insert, id_set_new, id_sort};
use crate::steps::lowest_free;
use vstd::prelude::*;

verus! {

/// Why a gate cannot be applied to the qubits that it was given.
#[derive(Debug, Copy, Clone, PartialEq, Eq, Structural)]
pub enum QubitError {
    /// The identifier occurs more than once.
    Duplicate(usize),
    /// The identifier is not that of an allocated qubit.
    NotFound(usize),
}

/// Whether `id` is the first identifier in the list that occurs earlier in it.
pub open spec fn first_repeat(ids: Seq<usize>, id: usize) -> bool {
    exists|i: int|
        0 <= i < ids.len() && #[trigger] ids[i] == id && ids.take(i).contains(id) && ids.take(
            i,
        ).no_duplicates()
}

/// Whether `id` is the first identifier in the list that is not allocated.
pub open spec fn first_missing(map: Map<usize, usize>, ids: Seq<usize>, id: usize) -> bool {
    exists|i: int|
        0 <= i < ids.len() && #[trigger] ids[i] == id && !map.contains_key(id) && forall|j: int|
            0 <= j < i ==> map.contains_key(#[trigger] ids[j])
}

/// Checks that no identifier occurs twice in the list.
pub fn check_for_duplicates(ids: &[usize]) -> (r: Result<(), QubitError>)
    ensures
        match r {
            Ok(_) => ids@.no_duplicates(),
            Err(QubitError::Duplicate(id)) => first_repeat(ids@, id),
            Err(QubitError::NotFound(_)) => false,
        },
        r is Ok <==> ids@.no_duplicates(),
{
    let mut unique = id_set_new();
    let mut n: usize = 0;
    while n < ids.len()
        invariant
            n <= ids.len(),
            ids@.take(n as int).no_duplicates(),
            forall|id: usize| #[trigger]
                unique@.contains(id) <==> ids@.take(n as int).contains(id),
        decreases ids.len() - n,
    {
        let id = ids[n];
        let ghost done = ids@.take(n as int);
        let ghost next = ids@.take(n + 1);
        if !id_set_insert(&mut unique, id) {
            proof {
                assert(done.contains(id));
                let j = choose|j: int| 0 <= j < done.len() && done[j] == id;
                assert(ids@[j] == ids@[n as int]);
                assert(ids@[n as int] == id);
            }
            return Err(QubitError::Duplicate(id));
        }
        proof {
            assert(next =~= done.push(id));
            assert forall|q: usize| #[trigger] unique@.contains(q) <==> next.contains(q) by {
                if done.contains(q) {
                    let j = choose|j: int| 0 <= j < done.len() && done[j] == q;
                    assert(next[j] == q);
                }
                if q == id {
                    assert(next[n as int] == q);
                }
                if next.contains(q) && q != id {
                    let j = choose|j: int| 0 <= j < next.len() && next[j] == q;
                    assert(done[j] == q);
                }
            }
            assert forall|i: int, j: int|
                0 <= i < next.len() && 0 <= j < next.len() && i != j implies next[i]
                != next[j] by {
                if i == n {
                    assert(done[j] == next[j]);
                    assert(done.contains(next[j]));
                } else if j == n {
                    assert(done[i] == next[i]);
                    assert(done.contains(next[i]));
                } else {
                    assert(done[i] == next[i] && done[j] == next[j]);
                }
            }
        }
        n += 1;
    }
    assert(ids@.take(ids@.len() as int) =~= ids@);
    Ok(())
}

impl QubitError {
    /// The text of the error.
    pub open spec fn text(self) -> Seq<char> {
        match self {
            QubitError::Duplicate(id) => "Duplicate qubit id '"@ + decimal(id as nat)
                + "' found in application."@,
            QubitError::NotFound(id) => "Unable to find qubit with id "@ + decimal(id as nat),
        }
    }

    /// The error as it is shown to a user.
    pub fn message(&self) -> (r: String)
        ensures
            r@ == self.text(),
    {
        match self {
            QubitError::Duplicate(id) => {
                let mut r = String::from_str("Duplicate qubit id '");
                r.append(id_to_string(*id).as_str());
                r.append("' found in application.");
                r
            },
            QubitError::NotFound(id) => {
                let mut r = String::from_str("Unable to find qubit with id ");
                r.append(id_to_string(*id).as_str());
                r
            },
        }
    }
}

/// `usize::to_string` gives the decimal digits.
#[verifier::external_body]
pub(crate) fn id_to_string(id: usize) -> (r: String)
    ensures
        r@ == decimal(id as nat),
{
    id.to_string()
}

/// A list sorted with the same elements holds the same elements, each as often.
pub(crate) proof fn lemma_sorted_same(a: Seq<usize>, b: Seq<usize>)
    requires
        a.to_multiset() == b.to_multiset(),
        a.no_duplicates(),
    ensures
        b.no_duplicates(),
        b.to_set() == a.to_set(),
        a.len() == b.len(),
{
    broadcast use vstd::seq_lib::group_to_multiset_ensures;

    a.lemma_multiset_has_no_duplicates();
    vstd::seq_lib::to_multiset_len(a);
    vstd::seq_lib::to_multiset_len(b);
    b.lemma_multiset_has_no_duplicates_conv();
    assert(b.to_set() =~= a.to_set()) by {
        assert forall|x: usize| b.contains(x) <==> a.contains(x) by {
            assert(a.to_multiset().contains(x) <==> a.contains(x));
            assert(b.to_multiset().contains(x) <==> b.contains(x));
        }
    }
}

/// The lowest number that is not in the list.
pub fn first_gap(mut used: Vec<usize>) -> (n: usize)
    requires
        used@.no_duplicates(),
    ensures
        lowest_free(used@.to_set(), n),
{
    let ghost given = used@;
    id_sort(&mut used);
    proof {
        lemma_sorted_same(given, used@);
    }
    let mut n: usize = 0;
    while n < used.len() && used[n] == n
        invariant
            n <= used.len(),
            forall|i: int| 0 <= i < n ==> #[trigger] used@[i] == i,
        decreases used.len() - n,
    {
        n += 1;
    }
    proof {
        assert forall|i: usize| i < n implies #[trigger] given.to_set().contains(i) by {
            assert(used@[i as int] == i);
            assert(used@.to_set().contains(i));
        }
        if given.to_set().contains(n) {
            assert(used@.contains(n));
            let j = choose|j: int| 0 <= j < used@.len() && used@[j] == n;
            assert(j >= n);
            // An ascending list without duplicates is ahead of the count from `n` on.
            assert(n < used@.len() && used@[n as int] != n);
            assert(used@[n as int] <= used@[j]);
            lemma_at_least(used@, n as int);
        }
    }
    n
}

/// In an ascending list without duplicates no element is below its place.
proof fn lemma_at_least(s: Seq<usize>, i: int)
    requires
        s.no_duplicates(),
        forall|a: int, b: int| 0 <= a <= b < s.len() ==> s[a] <= s[b],
        0 <= i < s.len(),
    ensures
        s[i] >= i,
    decreases i,
{
    if i > 0 {
        lemma_at_least(s, i - 1);
        assert(s[i - 1] <= s[i] && s[i - 1] != s[i]);
    }
}

} // verus!
