//! The laws of the text of a dump: it tells the state.
use crate::arith::{im_part, re_part, real_text, Amplitude};
use crate::bits::{decimal, value_of};
use crate::dump::{
    id_entries, id_entry, in_order, joined, shows_dump, shows_entries, shows_entry, shows_id_map,
    shows_state,
};
use crate::fxmap::lists;
use crate::labels::{keys_finite, law_labels_differ, law_one_text, shows_alike};
use vstd::prelude::*;

verus! {

/// Whether `part` stands in the text at the given place.
pub open spec fn stands_at(text: Seq<char>, place: int, part: Seq<char>) -> bool {
    &&& 0 <= place
    &&& place + part.len() <= text.len()
    &&& text.subrange(place, place + part.len()) == part
}

/// The text of an entry with the given label and parts.
pub open spec fn entry_text(label: nat, re: Seq<char>, im: Seq<char>) -> Seq<char> {
    "\"|"@ + decimal(label) + "\u{27e9}\": ["@ + re + ", "@ + im + "]"@
}

/// Whether the arithmetic gives these texts for both parts of a number.
pub open spec fn parts_text<A: Amplitude>(v: A, re: Seq<char>, im: Seq<char>) -> bool {
    exists|a: A::Real, b: A::Real, s: String, t: String| #[trigger]
        re_part(v, a) && #[trigger] im_part(v, b) && #[trigger] real_text(a, s) && #[trigger]
        real_text(b, t) && s@ == re && t@ == im
}

// ---------------------------------------------------------------------------
// Texts one after another
// ---------------------------------------------------------------------------

/// The place of a text among others.
spec fn start_of(texts: Seq<Seq<char>>, i: int) -> int {
    if i == 0 {
        0
    } else {
        joined(texts.take(i)).len() as int + 2
    }
}

/// Each of the texts stands in what they are joined to.
proof fn lemma_joined_holds(texts: Seq<Seq<char>>, i: int)
    requires
        0 <= i < texts.len(),
    ensures
        stands_at(joined(texts), start_of(texts, i), texts[i]),
        start_of(texts, i) + texts[i].len() == joined(texts.take(i + 1)).len(),
    decreases texts.len(),
{
    reveal_strlit(", ");
    let all = joined(texts);
    let n = texts.len();
    if i == n - 1 {
        assert(texts.take(n as int) =~= texts);
        assert(texts.take(n - 1) =~= texts.drop_last());
        if n > 1 {
            assert(all.subrange(start_of(texts, i), all.len() as int) =~= texts[i]);
        } else {
            assert(all.subrange(0, all.len() as int) =~= texts[0]);
        }
    } else {
        let rest = texts.drop_last();
        lemma_joined_holds(rest, i);
        assert(rest.take(i) =~= texts.take(i));
        assert(rest.take(i + 1) =~= texts.take(i + 1));
        let p = start_of(texts, i);
        let q = p + texts[i].len();
        assert(all.subrange(p, q) =~= joined(rest).subrange(p, q));
    }
}

/// Later texts stand behind earlier ones.
proof fn lemma_joined_order(texts: Seq<Seq<char>>, i: int, j: int)
    requires
        0 <= i < j < texts.len(),
    ensures
        start_of(texts, i) + texts[i].len() <= start_of(texts, j),
    decreases j,
{
    lemma_joined_holds(texts, i);
    if j > i + 1 {
        lemma_joined_order(texts, i, j - 1);
        lemma_joined_holds(texts, j - 1);
    }
}

/// The place of an entry in the text of a state.
proof fn lemma_entry_stands<A: Amplitude>(
    state: Map<Set<nat>, A>,
    keys: Seq<Set<nat>>,
    texts: Seq<Seq<char>>,
    text: Seq<char>,
    i: int,
) -> (r: (Seq<char>, Seq<char>))
    requires
        shows_entries(state, keys, texts),
        text == "{ "@ + joined(texts) + " }\n"@,
        0 <= i < keys.len(),
    ensures
        parts_text(state[keys[i]], r.0, r.1),
        texts[i] == entry_text(value_of(keys[i]), r.0, r.1),
        stands_at(text, start_of(texts, i) + 2, texts[i]),
{
    reveal_strlit("{ ");
    lemma_joined_holds(texts, i);
    let v = state[keys[i]];
    assert(shows_entry(keys[i], v, texts[i]));
    let (re, im, s, t) = choose|re: A::Real, im: A::Real, s: String, t: String| #[trigger]
        re_part(v, re) && #[trigger] im_part(v, im) && #[trigger] real_text(re, s) && #[trigger]
        real_text(im, t) && texts[i] == "\"|"@ + decimal(value_of(keys[i])) + "\u{27e9}\": ["@ + s@
            + ", "@ + t@ + "]"@;
    let p = start_of(texts, i);
    let q = p + texts[i].len();
    assert(text.subrange(p + 2, q + 2) =~= joined(texts).subrange(p, q));
    (s@, t@)
}

/// The text of a dump holds each entry of the state: its label, and the texts of
/// both parts of its amplitude.
pub proof fn law_text_holds_entry<A: Amplitude>(
    state: Map<Set<nat>, A>,
    text: Seq<char>,
    k: Set<nat>,
) -> (r: (int, Seq<char>, Seq<char>))
    requires
        shows_state(state, text),
        state.contains_key(k),
    ensures
        parts_text(state[k], r.1, r.2),
        stands_at(text, r.0, entry_text(value_of(k), r.1, r.2)),
{
    let (keys, texts) = choose|keys: Seq<Set<nat>>, texts: Seq<Seq<char>>| #[trigger]
        in_order(keys, state) && #[trigger] shows_entries(state, keys, texts) && text == "{ "@
            + joined(texts) + " }\n"@;
    assert(keys.to_set().contains(k));
    let i = choose|i: int| 0 <= i < keys.len() && keys[i] == k;
    let (re, im) = lemma_entry_stands(state, keys, texts, text, i);
    (start_of(texts, i) + 2, re, im)
}

/// In the text of a dump an entry stands before those with higher labels.
pub proof fn law_text_in_order<A: Amplitude>(
    state: Map<Set<nat>, A>,
    text: Seq<char>,
    a: Set<nat>,
    b: Set<nat>,
) -> (r: (int, Seq<char>, Seq<char>, int, Seq<char>, Seq<char>))
    requires
        shows_state(state, text),
        state.contains_key(a),
        state.contains_key(b),
        value_of(a) < value_of(b),
    ensures
        parts_text(state[a], r.1, r.2),
        parts_text(state[b], r.4, r.5),
        stands_at(text, r.0, entry_text(value_of(a), r.1, r.2)),
        stands_at(text, r.3, entry_text(value_of(b), r.4, r.5)),
        r.0 + entry_text(value_of(a), r.1, r.2).len() <= r.3,
{
    let (keys, texts) = choose|keys: Seq<Set<nat>>, texts: Seq<Seq<char>>| #[trigger]
        in_order(keys, state) && #[trigger] shows_entries(state, keys, texts) && text == "{ "@
            + joined(texts) + " }\n"@;
    assert(keys.to_set().contains(a) && keys.to_set().contains(b));
    let i = choose|i: int| 0 <= i < keys.len() && keys[i] == a;
    let j = choose|j: int| 0 <= j < keys.len() && keys[j] == b;
    if j <= i {
        assert(value_of(keys[j]) <= value_of(keys[i]));
    }
    let (re, im) = lemma_entry_stands(state, keys, texts, text, i);
    let (re2, im2) = lemma_entry_stands(state, keys, texts, text, j);
    lemma_joined_order(texts, i, j);
    (start_of(texts, i) + 2, re, im, start_of(texts, j) + 2, re2, im2)
}

/// The text of a state with one entry.
pub proof fn law_text_of_one<A: Amplitude>(
    state: Map<Set<nat>, A>,
    text: Seq<char>,
    k: Set<nat>,
) -> (r: (Seq<char>, Seq<char>))
    requires
        shows_state(state, text),
        state.dom() == Set::<Set<nat>>::empty().insert(k),
    ensures
        parts_text(state[k], r.0, r.1),
        text == "{ "@ + entry_text(value_of(k), r.0, r.1) + " }\n"@,
{
    let (keys, texts) = choose|keys: Seq<Set<nat>>, texts: Seq<Seq<char>>| #[trigger]
        in_order(keys, state) && #[trigger] shows_entries(state, keys, texts) && text == "{ "@
            + joined(texts) + " }\n"@;
    keys.unique_seq_to_set();
    assert(keys.len() == 1);
    assert(keys.to_set().contains(keys[0]));
    let (re, im) = lemma_entry_stands(state, keys, texts, text, 0);
    (re, im)
}

/// One more entry, with a label above all the others, comes at the end of the
/// text, after a comma. Numbers have one text each here.
pub proof fn law_text_grows<A: Amplitude>(
    small: Map<Set<nat>, A>,
    k: Set<nat>,
    v: A,
    x: Seq<char>,
    y: Seq<char>,
) -> (r: (Seq<char>, Seq<char>))
    requires
        shows_alike::<A>(),
        keys_finite(small),
        k.finite(),
        small.dom() != Set::<Set<nat>>::empty(),
        forall|j: Set<nat>| #[trigger] small.contains_key(j) ==> value_of(j) < value_of(k),
        shows_state(small, x),
        shows_state(small.insert(k, v), y),
    ensures
        parts_text(v, r.0, r.1),
        x.len() >= 3,
        y == x.take(x.len() - 3) + ", "@ + entry_text(value_of(k), r.0, r.1) + " }\n"@,
{
    let big = small.insert(k, v);
    let (keys, texts) = choose|keys: Seq<Set<nat>>, texts: Seq<Seq<char>>| #[trigger]
        in_order(keys, big) && #[trigger] shows_entries(big, keys, texts) && y == "{ "@ + joined(
            texts,
        ) + " }\n"@;
    assert(!small.contains_key(k));
    assert(keys.to_set().contains(k));
    let i = choose|i: int| 0 <= i < keys.len() && keys[i] == k;
    let n = keys.len() - 1;
    assert(keys.to_set().contains(keys[n]));
    if i < n {
        assert(keys[n] != k);
        assert(small.contains_key(keys[n]));
        assert(value_of(keys[i]) <= value_of(keys[n]));
    }
    let (rest, shown) = (keys.drop_last(), texts.drop_last());
    assert(rest.to_set() =~= small.dom()) by {
        assert forall|j: Set<nat>| rest.contains(j) == small.contains_key(j) by {
            if rest.contains(j) {
                let p = choose|p: int| 0 <= p < rest.len() && rest[p] == j;
                assert(keys[p] == j && keys[p] != keys[n]);
                assert(keys.to_set().contains(j));
            }
            if small.contains_key(j) {
                assert(keys.to_set().contains(j));
                let p = choose|p: int| 0 <= p < keys.len() && keys[p] == j;
                assert(rest[p] == j);
            }
        }
    }
    assert(in_order(rest, small)) by {
        assert forall|a: int, b: int| #![trigger rest[a], rest[b]]
            0 <= a <= b < rest.len() implies value_of(rest[a]) <= value_of(rest[b]) by {
            assert(rest[a] == keys[a] && rest[b] == keys[b]);
        }
    }
    assert(shows_entries(small, rest, shown)) by {
        assert forall|p: int| 0 <= p < rest.len() implies shows_entry(
            rest[p],
            small[rest[p]],
            #[trigger] shown[p],
        ) by {
            assert(rest.to_set().contains(rest[p]));
            assert(shows_entry(keys[p], big[keys[p]], texts[p]));
        }
    }
    let z = "{ "@ + joined(shown) + " }\n"@;
    assert(shows_state(small, z));
    law_one_text(small, x, z);
    assert(rest.len() > 0) by {
        if rest.len() == 0 {
            assert(rest.to_set() =~= Set::empty());
        }
    }
    reveal_strlit(" }\n");
    assert(z.take(z.len() - 3) =~= "{ "@ + joined(shown));
    let (re, im) = lemma_entry_stands(big, keys, texts, y, n);
    assert(joined(texts) == joined(shown) + ", "@ + texts[n]);
    assert(y =~= x.take(x.len() - 3) + ", "@ + texts[n] + " }\n"@);
    (re, im)
}

// ---------------------------------------------------------------------------
// What can be told from a text
// ---------------------------------------------------------------------------

/// What stands before the first mark can be told, and what stands behind it.
proof fn lemma_first_mark(
    a: Seq<char>,
    b: Seq<char>,
    c: Seq<char>,
    d: Seq<char>,
    mark: Seq<char>,
)
    requires
        mark.len() > 0,
        !a.contains(mark[0]),
        !c.contains(mark[0]),
        a + mark + b == c + mark + d,
    ensures
        a == c,
        b == d,
{
    let x = a + mark + b;
    let y = c + mark + d;
    assert(x[a.len() as int] == mark[0] && y[c.len() as int] == mark[0]);
    if a.len() < c.len() {
        assert(y[a.len() as int] == c[a.len() as int]);
    } else if c.len() < a.len() {
        assert(x[c.len() as int] == a[c.len() as int]);
    }
    assert(a =~= x.take(a.len() as int) && c =~= y.take(a.len() as int));
    let n = (a.len() + mark.len()) as int;
    assert(b =~= x.skip(n) && d =~= y.skip(n));
}

/// Digits are none of the other characters in a text, and tell the number.
proof fn lemma_digits(n: nat, c: char)
    requires
        decimal(n).contains(c),
    ensures
        '0' <= c <= '9',
    decreases n,
{
    let i = choose|i: int| 0 <= i < decimal(n).len() && decimal(n)[i] == c;
    if n >= 10 && i < decimal(n).len() - 1 {
        assert(decimal(n / 10)[i] == c);
        lemma_digits(n / 10, c);
    }
}

pub(crate) proof fn lemma_decimal_tells(m: nat, n: nat)
    requires
        decimal(m) == decimal(n),
    ensures
        m == n,
    decreases m,
{
    lemma_decimal_len(m);
    lemma_decimal_len(n);
    assert(decimal(m).last() == decimal(n).last());
    assert((('0' as nat) + m % 10) as char == (('0' as nat) + n % 10) as char);
    assert(m % 10 == n % 10);
    if m >= 10 && n >= 10 {
        assert(decimal(m / 10) =~= decimal(m).drop_last());
        assert(decimal(n / 10) =~= decimal(n).drop_last());
        lemma_decimal_tells(m / 10, n / 10);
    }
}

proof fn lemma_decimal_len(n: nat)
    ensures
        decimal(n).len() > 0,
        n >= 10 ==> decimal(n).len() > 1,
        n < 10 ==> decimal(n).len() == 1,
        decimal(n).last() == (('0' as nat) + n % 10) as char,
    decreases n,
{
    if n >= 10 {
        lemma_decimal_len(n / 10);
    }
}

/// Whether the texts of numbers hold no comma and no closing bracket, as those of
/// floating point numbers do.
pub open spec fn plain_numbers<A: Amplitude>() -> bool {
    forall|v: A::Real, t: String| #[trigger]
        real_text(v, t) ==> !t@.contains(',') && !t@.contains(']')
}

/// Whether different numbers have different texts.
pub open spec fn shows_apart<A: Amplitude>() -> bool {
    forall|v: A, w: A, re: Seq<char>, im: Seq<char>| #[trigger]
        parts_text(v, re, im) && #[trigger] parts_text(w, re, im) ==> v == w
}

/// Label and parts of an entry can be told from its text.
proof fn lemma_entry_tells(
    m: nat,
    re: Seq<char>,
    im: Seq<char>,
    n: nat,
    re2: Seq<char>,
    im2: Seq<char>,
)
    requires
        !re.contains(','),
        !re2.contains(','),
        entry_text(m, re, im) == entry_text(n, re2, im2),
    ensures
        m == n,
        re == re2,
        im == im2,
{
    reveal_strlit("\"|");
    reveal_strlit("\u{27e9}\": [");
    reveal_strlit(", ");
    reveal_strlit("]");
    let mark = "\u{27e9}\": ["@;
    let (a, b) = (entry_text(m, re, im), entry_text(n, re2, im2));
    let (x, y) = (re + ", "@ + im + "]"@, re2 + ", "@ + im2 + "]"@);
    assert(a.skip(2) =~= decimal(m) + mark + x);
    assert(b.skip(2) =~= decimal(n) + mark + y);
    if decimal(m).contains(mark[0]) {
        lemma_digits(m, mark[0]);
    }
    if decimal(n).contains(mark[0]) {
        lemma_digits(n, mark[0]);
    }
    lemma_first_mark(decimal(m), x, decimal(n), y, mark);
    lemma_decimal_tells(m, n);
    assert(x =~= re + ", "@ + (im + "]"@));
    assert(y =~= re2 + ", "@ + (im2 + "]"@));
    lemma_first_mark(re, im + "]"@, re2, im2 + "]"@, ", "@);
    assert(im =~= (im + "]"@).drop_last() && im2 =~= (im2 + "]"@).drop_last());
}

/// Whether a text ends in a closing bracket and holds no other.
spec fn bracketed(text: Seq<char>) -> bool {
    &&& text.len() > 0
    &&& text.last() == ']'
    &&& forall|i: int| 0 <= i < text.len() - 1 ==> #[trigger] text[i] != ']'
}

proof fn lemma_bracketed(n: nat, re: Seq<char>, im: Seq<char>)
    requires
        !re.contains(']'),
        !im.contains(']'),
    ensures
        bracketed(entry_text(n, re, im)),
{
    reveal_strlit("\"|");
    reveal_strlit("\u{27e9}\": [");
    reveal_strlit(", ");
    reveal_strlit("]");
    let t = entry_text(n, re, im);
    assert(t.last() == ']');
    let front = "\"|"@ + decimal(n) + "\u{27e9}\": ["@ + re + ", "@ + im;
    assert(t.drop_last() =~= front);
    assert forall|i: int| 0 <= i < t.len() - 1 implies #[trigger] t[i] != ']' by {
        assert(t[i] == front[i]);
        let a = ("\"|"@).len() as int;
        let b = a + decimal(n).len();
        let c = b + ("\u{27e9}\": ["@).len();
        let e = c + re.len();
        let f = e + 2;
        if a <= i < b {
            assert(front[i] == decimal(n)[i - a]);
            assert(decimal(n).contains(front[i]));
            lemma_digits(n, front[i]);
        } else if c <= i < e {
            assert(front[i] == re[i - c]);
        } else if f <= i {
            assert(front[i] == im[i - f]);
        }
    }
}

/// Joined texts that end in a closing bracket can be told apart.
proof fn lemma_joined_tells(a: Seq<Seq<char>>, b: Seq<Seq<char>>)
    requires
        forall|i: int| 0 <= i < a.len() ==> bracketed(#[trigger] a[i]),
        forall|i: int| 0 <= i < b.len() ==> bracketed(#[trigger] b[i]),
        joined(a) == joined(b),
    ensures
        a == b,
    decreases a.len(),
{
    reveal_strlit(", ");
    if a.len() == 0 || b.len() == 0 {
        if a.len() > 0 {
            lemma_joined_last(a);
        }
        if b.len() > 0 {
            lemma_joined_last(b);
        }
        assert(a =~= b);
    } else {
        lemma_joined_last(a);
        lemma_joined_last(b);
        let (r, s) = (a.drop_last(), b.drop_last());
        assert forall|i: int| 0 <= i < r.len() implies bracketed(#[trigger] r[i]) by {
            assert(r[i] == a[i]);
        }
        assert forall|i: int| 0 <= i < s.len() implies bracketed(#[trigger] s[i]) by {
            assert(s[i] == b[i]);
        }
        if a.len() > 1 {
            lemma_joined_last(r);
        }
        if b.len() > 1 {
            lemma_joined_last(s);
        }
        assert(a.last() == b.last() && joined(r) == joined(s) && (a.len() > 1) == (b.len() > 1))
            by {
            lemma_last_tells(
                a.len() > 1,
                joined(r),
                a.last(),
                b.len() > 1,
                joined(s),
                b.last(),
                joined(a),
            );
        }
        lemma_joined_tells(r, s);
        assert(a =~= r.push(a.last()) && b =~= s.push(b.last()));
    }
}

proof fn lemma_joined_last(a: Seq<Seq<char>>)
    requires
        a.len() > 0,
        forall|i: int| 0 <= i < a.len() ==> bracketed(#[trigger] a[i]),
    ensures
        joined(a).len() > 0,
        joined(a).last() == ']',
        bracketed(a.last()),
        a.len() == 1 ==> joined(a) == a.last() && joined(a.drop_last()).len() == 0,
{
    assert(bracketed(a[a.len() - 1]));
}

/// The last of several texts can be told.
proof fn lemma_last_tells(
    many: bool,
    r: Seq<char>,
    l: Seq<char>,
    more: bool,
    s: Seq<char>,
    m: Seq<char>,
    all: Seq<char>,
)
    requires
        bracketed(l),
        bracketed(m),
        many ==> r.len() > 0 && r.last() == ']' && all == r + ", "@ + l,
        !many ==> r.len() == 0 && all == l,
        more ==> s.len() > 0 && s.last() == ']' && all == s + ", "@ + m,
        !more ==> s.len() == 0 && all == m,
    ensures
        many == more,
        r == s,
        l == m,
{
    reveal_strlit(", ");
    if many {
        lemma_bracket_before(r, l, more, s, m, all);
    }
    if more {
        lemma_bracket_before(s, m, many, r, l, all);
    }
    if many && more {
        assert(r =~= all.take(r.len() as int) && s =~= all.take(r.len() as int));
        assert(l =~= all.skip((r.len() + 2) as int) && m =~= all.skip((r.len() + 2) as int));
    } else {
        assert(r =~= s);
    }
}

proof fn lemma_bracket_before(
    r: Seq<char>,
    l: Seq<char>,
    more: bool,
    s: Seq<char>,
    m: Seq<char>,
    all: Seq<char>,
)
    requires
        bracketed(l),
        bracketed(m),
        r.len() > 0 && r.last() == ']' && all == r + ", "@ + l,
        more ==> all == s + ", "@ + m,
        !more ==> all == m,
    ensures
        more,
        r.len() <= s.len(),
{
    reveal_strlit(", ");
    let i = r.len() - 1;
    assert(all[i] == ']');
    if !more {
        assert(m[i] == ']');
    } else if s.len() < r.len() {
        let front = s + ", "@;
        assert(front.len() == s.len() + 2);
        assert((r + ", "@).len() == r.len() + 2);
        assert(all.len() == r.len() + 2 + l.len() && all == front + m);
        if i < front.len() {
            assert(all[i] == front[i]);
        } else {
            assert(all[i] == m[i - front.len()]);
        }
    }
}

/// The text of a dump tells the state: states with the same text have entries for
/// the same basis states, and the parts of their amplitudes have the same texts.
/// If different numbers have different texts, the states are the same.
pub proof fn law_text_tells_state<A: Amplitude>(
    a: Map<Set<nat>, A>,
    b: Map<Set<nat>, A>,
    text: Seq<char>,
)
    requires
        plain_numbers::<A>(),
        keys_finite(a),
        keys_finite(b),
        shows_state(a, text),
        shows_state(b, text),
    ensures
        a.dom() == b.dom(),
        forall|k: Set<nat>| #[trigger]
            a.contains_key(k) ==> exists|re: Seq<char>, im: Seq<char>| #[trigger]
                parts_text(a[k], re, im) && parts_text(b[k], re, im),
        shows_apart::<A>() ==> a == b,
{
    reveal_strlit("{ ");
    reveal_strlit(" }\n");
    let (ka, ta) = choose|keys: Seq<Set<nat>>, texts: Seq<Seq<char>>| #[trigger]
        in_order(keys, a) && #[trigger] shows_entries(a, keys, texts) && text == "{ "@ + joined(
            texts,
        ) + " }\n"@;
    let (kb, tb) = choose|keys: Seq<Set<nat>>, texts: Seq<Seq<char>>| #[trigger]
        in_order(keys, b) && #[trigger] shows_entries(b, keys, texts) && text == "{ "@ + joined(
            texts,
        ) + " }\n"@;
    assert(joined(ta) =~= text.subrange(2, text.len() - 3));
    assert(joined(tb) =~= text.subrange(2, text.len() - 3));
    lemma_all_bracketed(a, ka, ta, text);
    lemma_all_bracketed(b, kb, tb, text);
    lemma_joined_tells(ta, tb);
    assert forall|i: int| 0 <= i < ka.len() implies ka[i] == kb[i] && exists|
        re: Seq<char>,
        im: Seq<char>,
    | #[trigger] parts_text(a[ka[i]], re, im) && parts_text(b[ka[i]], re, im) by {
        let (re, im) = lemma_entry_stands(a, ka, ta, text, i);
        let (re2, im2) = lemma_entry_stands(b, kb, tb, text, i);
        lemma_entry_tells(value_of(ka[i]), re, im, value_of(kb[i]), re2, im2);
        assert(ka.to_set().contains(ka[i]) && kb.to_set().contains(kb[i]));
        assert(a.contains_key(ka[i]) && b.contains_key(kb[i]));
        law_labels_differ(ka[i], kb[i]);
        assert(parts_text(a[ka[i]], re, im) && parts_text(b[ka[i]], re, im));
    }
    assert(ka =~= kb);
    assert forall|k: Set<nat>| #[trigger] a.contains_key(k) implies exists|
        re: Seq<char>,
        im: Seq<char>,
    | #[trigger] parts_text(a[k], re, im) && parts_text(b[k], re, im) by {
        assert(ka.to_set().contains(k));
        let i = choose|i: int| 0 <= i < ka.len() && ka[i] == k;
        assert(ka[i] == kb[i]);
    }
    if shows_apart::<A>() {
        assert(a =~= b);
    }
}

proof fn lemma_all_bracketed<A: Amplitude>(
    state: Map<Set<nat>, A>,
    keys: Seq<Set<nat>>,
    texts: Seq<Seq<char>>,
    text: Seq<char>,
)
    requires
        plain_numbers::<A>(),
        shows_entries(state, keys, texts),
        text == "{ "@ + joined(texts) + " }\n"@,
    ensures
        forall|i: int| 0 <= i < texts.len() ==> bracketed(#[trigger] texts[i]),
        forall|v: A, re: Seq<char>, im: Seq<char>| #[trigger]
            parts_text(v, re, im) ==> !re.contains(',') && !im.contains(','),
{
    assert forall|i: int| 0 <= i < texts.len() implies bracketed(#[trigger] texts[i]) by {
        let (re, im) = lemma_entry_stands(state, keys, texts, text, i);
        lemma_bracketed(value_of(keys[i]), re, im);
    }
}

/// The text of a dump has as many entries as the state: it holds one closing
/// bracket for each of them.
pub proof fn law_text_counts<A: Amplitude>(state: Map<Set<nat>, A>, text: Seq<char>)
    requires
        plain_numbers::<A>(),
        shows_state(state, text),
    ensures
        text.filter(|c: char| c == ']').len() == state.dom().len(),
{
    let (keys, texts) = choose|keys: Seq<Set<nat>>, texts: Seq<Seq<char>>| #[trigger]
        in_order(keys, state) && #[trigger] shows_entries(state, keys, texts) && text == "{ "@
            + joined(texts) + " }\n"@;
    keys.unique_seq_to_set();
    lemma_all_bracketed(state, keys, texts, text);
    lemma_joined_count(texts);
    reveal_strlit("{ ");
    reveal_strlit(" }\n");
    lemma_no_brackets("{ "@);
    lemma_no_brackets(" }\n"@);
    lemma_count_sum("{ "@, joined(texts));
    lemma_count_sum("{ "@ + joined(texts), " }\n"@);
}

proof fn lemma_count_sum(a: Seq<char>, b: Seq<char>)
    ensures
        (a + b).filter(|c: char| c == ']').len() == a.filter(|c: char| c == ']').len() + b.filter(
            |c: char| c == ']',
        ).len(),
{
    Seq::<char>::filter_distributes_over_add(a, b, |c: char| c == ']');
}

proof fn lemma_no_brackets(a: Seq<char>)
    requires
        forall|i: int| 0 <= i < a.len() ==> #[trigger] a[i] != ']',
    ensures
        a.filter(|c: char| c == ']').len() == 0,
    decreases a.len(),
{
    reveal(Seq::filter);
    if a.len() > 0 {
        let r = a.drop_last();
        assert forall|i: int| 0 <= i < r.len() implies #[trigger] r[i] != ']' by {
            assert(r[i] == a[i]);
        }
        lemma_no_brackets(r);
        assert(a.last() == a[a.len() - 1]);
    }
}

proof fn lemma_joined_count(texts: Seq<Seq<char>>)
    requires
        forall|i: int| 0 <= i < texts.len() ==> bracketed(#[trigger] texts[i]),
    ensures
        joined(texts).filter(|c: char| c == ']').len() == texts.len(),
    decreases texts.len(),
{
    reveal_strlit(", ");
    if texts.len() == 0 {
        lemma_no_brackets(joined(texts));
    } else {
        let last = texts[texts.len() - 1];
        assert(bracketed(last));
        let front = last.drop_last();
        assert forall|i: int| 0 <= i < front.len() implies #[trigger] front[i] != ']' by {
            assert(front[i] == last[i]);
        }
        lemma_no_brackets(front);
        assert(last.filter(|c: char| c == ']').len() == 1) by {
            reveal(Seq::filter);
        }
        if texts.len() > 1 {
            let rest = texts.drop_last();
            assert forall|i: int| 0 <= i < rest.len() implies bracketed(#[trigger] rest[i]) by {
                assert(rest[i] == texts[i]);
            }
            lemma_joined_count(rest);
            lemma_no_brackets(", "@);
            lemma_count_sum(joined(rest), ", "@);
            lemma_count_sum(joined(rest) + ", "@, last);
        }
    }
}

// ---------------------------------------------------------------------------
// The line with the id map
// ---------------------------------------------------------------------------

/// The line with the id map holds each qubit with its location.
pub proof fn law_line_holds_qubit(ids: Map<usize, usize>, line: Seq<char>, q: usize) -> (place: int)
    requires
        shows_id_map(ids, line),
        ids.contains_key(q),
    ensures
        stands_at(line, place, decimal(q as nat) + ": "@ + decimal(ids[q] as nat)),
{
    reveal_strlit("MAP: {");
    let list = choose|list: Seq<(usize, usize)>| #[trigger]
        lists(list, ids) && line == "MAP: {"@ + joined(id_entries(list)) + "}\n"@;
    let i = choose|i: int| 0 <= i < list.len() && (#[trigger] list[i]).0 == q;
    let texts = id_entries(list);
    lemma_joined_holds(texts, i);
    let p = start_of(texts, i);
    let n = p + texts[i].len();
    assert(texts[i] == id_entry(list[i]));
    assert(line.subrange(p + 6, n + 6) =~= joined(texts).subrange(p, n));
    p + 6
}

/// The line with the id map tells the map.
pub proof fn law_line_tells_map(a: Map<usize, usize>, b: Map<usize, usize>, line: Seq<char>)
    requires
        shows_id_map(a, line),
        shows_id_map(b, line),
    ensures
        a == b,
{
    reveal_strlit("MAP: {");
    reveal_strlit("}\n");
    let s = choose|list: Seq<(usize, usize)>| #[trigger]
        lists(list, a) && line == "MAP: {"@ + joined(id_entries(list)) + "}\n"@;
    let t = choose|list: Seq<(usize, usize)>| #[trigger]
        lists(list, b) && line == "MAP: {"@ + joined(id_entries(list)) + "}\n"@;
    assert(joined(id_entries(s)) =~= line.subrange(6, line.len() - 2));
    assert(joined(id_entries(t)) =~= line.subrange(6, line.len() - 2));
    lemma_ids_plain(s);
    lemma_ids_plain(t);
    lemma_plain_tells(id_entries(s), id_entries(t));
    assert forall|i: int| 0 <= i < s.len() implies s[i] == t[i] by {
        assert(id_entries(s)[i] == id_entry(s[i]) && id_entries(t)[i] == id_entry(t[i]));
        lemma_id_tells(s[i], t[i]);
    }
    assert(s.len() == id_entries(s).len() && t.len() == id_entries(t).len());
    assert(s =~= t);
    assert forall|q: usize| #[trigger] a.contains_key(q) == b.contains_key(q) && (a.contains_key(q)
        ==> a[q] == b[q]) by {
        if a.contains_key(q) {
            let i = choose|i: int| 0 <= i < s.len() && (#[trigger] s[i]).0 == q;
            assert(b.contains_key(t[i].0));
        }
        if b.contains_key(q) {
            let i = choose|i: int| 0 <= i < t.len() && (#[trigger] t[i]).0 == q;
            assert(a.contains_key(s[i].0));
        }
    }
    assert(a =~= b);
}

proof fn lemma_id_tells(x: (usize, usize), y: (usize, usize))
    requires
        id_entry(x) == id_entry(y),
    ensures
        x == y,
{
    reveal_strlit(": ");
    if decimal(x.0 as nat).contains(": "@[0]) {
        lemma_digits(x.0 as nat, ": "@[0]);
    }
    if decimal(y.0 as nat).contains(": "@[0]) {
        lemma_digits(y.0 as nat, ": "@[0]);
    }
    lemma_first_mark(
        decimal(x.0 as nat),
        decimal(x.1 as nat),
        decimal(y.0 as nat),
        decimal(y.1 as nat),
        ": "@,
    );
    lemma_decimal_tells(x.0 as nat, y.0 as nat);
    lemma_decimal_tells(x.1 as nat, y.1 as nat);
}

proof fn lemma_ids_plain(list: Seq<(usize, usize)>)
    ensures
        forall|i: int|
            0 <= i < id_entries(list).len() ==> (#[trigger] id_entries(list)[i]).len() > 0
                && !id_entries(list)[i].contains(','),
{
    reveal_strlit(": ");
    assert forall|i: int| 0 <= i < id_entries(list).len() implies (#[trigger] id_entries(
        list,
    )[i]).len() > 0 && !id_entries(list)[i].contains(',') by {
        let t = id_entries(list)[i];
        let (x, y) = (decimal(list[i].0 as nat), decimal(list[i].1 as nat));
        assert(t == x + ": "@ + y);
        if t.contains(',') {
            let j = choose|j: int| 0 <= j < t.len() && t[j] == ',';
            if j < x.len() {
                assert(x[j] == ',');
                lemma_digits(list[i].0 as nat, ',');
            } else if j >= x.len() + 2 {
                assert((x + ": "@).len() == x.len() + 2);
                assert(y[j - x.len() - 2] == ',');
                lemma_digits(list[i].1 as nat, ',');
            }
        }
    }
}

/// Joined texts without commas can be told apart.
proof fn lemma_plain_tells(a: Seq<Seq<char>>, b: Seq<Seq<char>>)
    requires
        forall|i: int|
            0 <= i < a.len() ==> (#[trigger] a[i]).len() > 0 && !a[i].contains(','),
        forall|i: int|
            0 <= i < b.len() ==> (#[trigger] b[i]).len() > 0 && !b[i].contains(','),
        joined(a) == joined(b),
    ensures
        a == b,
    decreases a.len(),
{
    reveal_strlit(", ");
    if a.len() > 0 {
        assert(a[a.len() - 1] == a.last());
        assert(joined(a).len() > 0);
    }
    if b.len() > 0 {
        assert(b[b.len() - 1] == b.last());
        assert(joined(b).len() > 0);
    }
    if a.len() == 0 || b.len() == 0 {
        assert(a =~= b);
    } else {
        let (r, s) = (a.drop_last(), b.drop_last());
        assert forall|i: int| 0 <= i < r.len() implies (#[trigger] r[i]).len() > 0 && !r[i].contains(
            ',',
        ) by {
            assert(r[i] == a[i]);
        }
        assert forall|i: int| 0 <= i < s.len() implies (#[trigger] s[i]).len() > 0 && !s[i].contains(
            ',',
        ) by {
            assert(s[i] == b[i]);
        }
        if a.len() > 1 {
            lemma_comma_before(joined(r), a.last(), b.len() > 1, joined(s), b.last(), joined(a));
        }
        if b.len() > 1 {
            lemma_comma_before(joined(s), b.last(), a.len() > 1, joined(r), a.last(), joined(a));
        }
        if a.len() > 1 {
            let n = joined(r).len() as int;
            assert(joined(r) =~= joined(a).take(n) && joined(s) =~= joined(a).take(n));
            assert(a.last() =~= joined(a).skip(n + 2) && b.last() =~= joined(a).skip(n + 2));
        }
        lemma_plain_tells(r, s);
        assert(a =~= r.push(a.last()) && b =~= s.push(b.last()));
    }
}

proof fn lemma_comma_before(
    r: Seq<char>,
    l: Seq<char>,
    more: bool,
    s: Seq<char>,
    m: Seq<char>,
    all: Seq<char>,
)
    requires
        !m.contains(','),
        all == r + ", "@ + l,
        more ==> all == s + ", "@ + m,
        !more ==> all == m,
    ensures
        more,
        r.len() <= s.len(),
{
    reveal_strlit(", ");
    let i = r.len() as int;
    let front = s + ", "@;
    assert((r + ", "@).len() == r.len() + 2 && front.len() == s.len() + 2);
    assert((r + ", "@)[i] == ',');
    assert(all[i] == ',');
    if !more {
        assert(m[i] == ',');
    } else if s.len() < r.len() {
        assert(all.len() == r.len() + 2 + l.len() && all == front + m);
        if i < front.len() {
            assert(all[i] == front[i]);
        } else {
            assert(all[i] == m[i - front.len()]);
        }
    }
}

/// The line with the id map has one qubit more than commas.
pub proof fn law_line_counts(ids: Map<usize, usize>, line: Seq<char>)
    requires
        ids.dom().len() > 0,
        shows_id_map(ids, line),
    ensures
        line.filter(|c: char| c == ',').len() + 1 == ids.dom().len(),
        line.take(6) == "MAP: {"@,
        line.skip(line.len() - 2) == "}\n"@,
{
    reveal_strlit("MAP: {");
    reveal_strlit("}\n");
    let list = choose|list: Seq<(usize, usize)>| #[trigger]
        lists(list, ids) && line == "MAP: {"@ + joined(id_entries(list)) + "}\n"@;
    let texts = id_entries(list);
    lemma_ids_plain(list);
    lemma_map_len(list, ids);
    lemma_commas(texts);
    lemma_no_commas("MAP: {"@);
    lemma_no_commas("}\n"@);
    lemma_comma_sum("MAP: {"@, joined(texts));
    lemma_comma_sum("MAP: {"@ + joined(texts), "}\n"@);
    assert(line.take(6) =~= "MAP: {"@);
    assert(line.skip(line.len() - 2) =~= "}\n"@);
}

proof fn lemma_map_len(list: Seq<(usize, usize)>, ids: Map<usize, usize>)
    requires
        lists(list, ids),
    ensures
        list.len() == ids.dom().len(),
{
    let keys = list.map_values(|e: (usize, usize)| e.0);
    assert forall|i: int, j: int|
        0 <= i < keys.len() && 0 <= j < keys.len() && i != j implies keys[i] != keys[j] by {
        if i < j {
            assert(list[i].0 != list[j].0);
        } else {
            assert(list[j].0 != list[i].0);
        }
    }
    keys.unique_seq_to_set();
    assert(keys.to_set() =~= ids.dom()) by {
        assert forall|k: usize| keys.contains(k) == ids.contains_key(k) by {
            if keys.contains(k) {
                let i = choose|i: int| 0 <= i < keys.len() && keys[i] == k;
                assert(ids.contains_key(list[i].0));
            }
            if ids.contains_key(k) {
                let i = choose|i: int| 0 <= i < list.len() && (#[trigger] list[i]).0 == k;
                assert(keys[i] == k);
            }
        }
    }
}

proof fn lemma_comma_sum(a: Seq<char>, b: Seq<char>)
    ensures
        (a + b).filter(|c: char| c == ',').len() == a.filter(|c: char| c == ',').len() + b.filter(
            |c: char| c == ',',
        ).len(),
{
    Seq::<char>::filter_distributes_over_add(a, b, |c: char| c == ',');
}

proof fn lemma_no_commas(a: Seq<char>)
    requires
        !a.contains(','),
    ensures
        a.filter(|c: char| c == ',').len() == 0,
    decreases a.len(),
{
    reveal(Seq::filter);
    if a.len() > 0 {
        let r = a.drop_last();
        assert(!r.contains(',')) by {
            if r.contains(',') {
                let i = choose|i: int| 0 <= i < r.len() && r[i] == ',';
                assert(a[i] == ',');
            }
        }
        lemma_no_commas(r);
        assert(a.last() == a[a.len() - 1]);
    }
}

proof fn lemma_commas(texts: Seq<Seq<char>>)
    requires
        texts.len() > 0,
        forall|i: int| 0 <= i < texts.len() ==> !(#[trigger] texts[i]).contains(','),
    ensures
        joined(texts).filter(|c: char| c == ',').len() + 1 == texts.len(),
    decreases texts.len(),
{
    reveal_strlit(", ");
    let last = texts[texts.len() - 1];
    lemma_no_commas(last);
    if texts.len() > 1 {
        let rest = texts.drop_last();
        assert forall|i: int| 0 <= i < rest.len() implies !(#[trigger] rest[i]).contains(',') by {
            assert(rest[i] == texts[i]);
        }
        lemma_commas(rest);
        assert((", "@).filter(|c: char| c == ',').len() == 1) by {
            let (comma, space) = (seq![','], seq![' ']);
            assert(", "@ =~= comma + space);
            lemma_comma_sum(comma, space);
            lemma_no_commas(space);
            assert(comma.filter(|c: char| c == ',').len() == 1) by {
                reveal(Seq::filter);
                assert(comma.drop_last() =~= Seq::<char>::empty());
                lemma_no_commas(comma.drop_last());
            }
        }
        lemma_comma_sum(joined(rest), ", "@);
        lemma_comma_sum(joined(rest) + ", "@, last);
    }
}

/// A dump with the id map is the line with the map, and then what a dump without
/// it shows. Numbers have one text each here.
pub proof fn law_map_comes_first<A: Amplitude>(
    state: Map<Set<nat>, A>,
    ids: Map<usize, usize>,
    with: Seq<char>,
    without: Seq<char>,
) -> (line: Seq<char>)
    requires
        shows_alike::<A>(),
        keys_finite(state),
        shows_dump(state, ids, true, with),
        shows_dump(state, ids, false, without),
    ensures
        shows_id_map(ids, line),
        with == line + without,
{
    let (line, body) = choose|line: Seq<char>, body: Seq<char>| #[trigger]
        shows_id_map(ids, line) && #[trigger] shows_state(state, body) && with == line + body;
    law_one_text(state, body, without);
    line
}

} // verus!
