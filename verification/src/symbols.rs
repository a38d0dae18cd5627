use vstd::prelude::*;

verus! {

/// No symbol occurs in two entries.
pub open spec fn distinct_symbols<V>(entries: Seq<(char, V)>) -> bool {
    forall|i: int, j: int| 0 <= i < j < entries.len() ==> entries[i].0 != entries[j].0
}

/// Some entry is keyed by `c`.
pub open spec fn has_symbol<V>(entries: Seq<(char, V)>, c: char) -> bool {
    exists|i: int| 0 <= i < entries.len() && (#[trigger] entries[i]).0 == c
}

/// The position of the first entry keyed by `c`, or the length of
/// `entries` where there is none.
pub open spec fn position_of<V>(entries: Seq<(char, V)>, c: char) -> int
    decreases entries.len(),
{
    if entries.len() == 0 {
        0
    } else if entries[0].0 == c {
        0
    } else {
        1 + position_of(entries.drop_first(), c)
    }
}

/// `entries` with `c` mapped to `v`: the entry keyed by `c` is replaced in
/// place, or a new entry is appended where there was none.
pub open spec fn put<V>(entries: Seq<(char, V)>, c: char, v: V) -> Seq<(char, V)> {
    let at = position_of(entries, c);
    if at < entries.len() {
        entries.update(at, (c, v))
    } else {
        entries.push((c, v))
    }
}

/// `position_of` is the least index that holds `c`.
pub proof fn lemma_position_of<V>(entries: Seq<(char, V)>, c: char)
    ensures
        0 <= position_of(entries, c) <= entries.len(),
        forall|j: int| 0 <= j < position_of(entries, c) ==> (#[trigger] entries[j]).0 != c,
        position_of(entries, c) < entries.len() ==> entries[position_of(entries, c)].0 == c,
        has_symbol(entries, c) <==> position_of(entries, c) < entries.len(),
    decreases entries.len(),
{
    if entries.len() > 0 && entries[0].0 != c {
        let rest = entries.drop_first();
        lemma_position_of(rest, c);
        let at = position_of(rest, c);
        assert forall|j: int| 0 <= j < 1 + at implies (#[trigger] entries[j]).0 != c by {
            if j > 0 {
                assert(entries[j] == rest[j - 1]);
            }
        }
    }
}

/// An index that holds `c` with no earlier one that does is `position_of`.
pub proof fn lemma_position_is<V>(entries: Seq<(char, V)>, c: char, at: int)
    requires
        0 <= at <= entries.len(),
        forall|j: int| 0 <= j < at ==> (#[trigger] entries[j]).0 != c,
        at < entries.len() ==> entries[at].0 == c,
    ensures
        position_of(entries, c) == at,
{
    lemma_position_of(entries, c);
}

/// `put` keeps the symbols distinct, sets the entry of `c`, and leaves every
/// other symbol's entry where and as it was.
pub proof fn lemma_put<V>(entries: Seq<(char, V)>, c: char, v: V)
    requires
        distinct_symbols(entries),
    ensures
        distinct_symbols(put(entries, c, v)),
        position_of(put(entries, c, v), c) == position_of(entries, c),
        put(entries, c, v)[position_of(entries, c)] == (c, v),
        has_symbol(put(entries, c, v), c),
        forall|d: char|
            d != c ==> (has_symbol(put(entries, c, v), d) <==> #[trigger] has_symbol(entries, d)),
        forall|d: char|
            d != c && #[trigger] has_symbol(entries, d) ==> {
                &&& position_of(put(entries, c, v), d) == position_of(entries, d)
                &&& put(entries, c, v)[position_of(entries, d)] == entries[position_of(entries, d)]
            },
{
    lemma_position_of(entries, c);
    let at = position_of(entries, c);
    let after = put(entries, c, v);
    assert(distinct_symbols(after)) by {
        assert forall|i: int, j: int| 0 <= i < j < after.len() implies after[i].0 != after[j].0 by {}
    }
    lemma_position_is(after, c, at);
    lemma_position_of(after, c);
    assert forall|d: char| d != c implies (has_symbol(after, d) <==> #[trigger] has_symbol(
        entries,
        d,
    )) by {
        if has_symbol(entries, d) {
            let k = choose|k: int| 0 <= k < entries.len() && (#[trigger] entries[k]).0 == d;
            assert(after[k] == entries[k]);
        }
    }
    assert forall|d: char| d != c && #[trigger] has_symbol(entries, d) implies position_of(
        after,
        d,
    ) == position_of(entries, d) && after[position_of(entries, d)] == entries[position_of(
        entries,
        d,
    )] by {
        lemma_position_of(entries, d);
        let p = position_of(entries, d);
        lemma_position_is(after, d, p);
    }
}

/// The index of the first entry keyed by `ch`, or the length where none is.
pub fn find_symbol<V>(entries: &Vec<(char, V)>, ch: char) -> (at: usize)
    ensures
        at as int == position_of(entries@, ch),
        at <= entries.len(),
{
    let mut i: usize = 0;
    while i < entries.len() && entries[i].0 != ch
        invariant
            0 <= i <= entries.len(),
            forall|j: int| 0 <= j < i ==> (#[trigger] entries@[j]).0 != ch,
        decreases entries.len() - i,
    {
        i += 1;
    }
    proof {
        lemma_position_is(entries@, ch, i as int);
    }
    i
}

/// Whether no symbol occurs in two entries.
pub fn all_distinct<V>(entries: &Vec<(char, V)>) -> (distinct: bool)
    ensures
        distinct <==> distinct_symbols(entries@),
{
    let mut i: usize = 0;
    while i < entries.len()
        invariant
            0 <= i <= entries.len(),
            distinct_symbols(entries@.take(i as int)),
        decreases entries.len() - i,
    {
        let at = find_symbol(entries, entries[i].0);
        proof {
            lemma_position_of(entries@, entries@[i as int].0);
        }
        if at < i {
            return false;
        }
        i += 1;
    }
    proof {
        assert(entries@.take(i as int) == entries@);
    }
    true
}

/// A symbol is in two lists put together where it is in one of them.
pub proof fn lemma_has_symbol_concat<V>(a: Seq<(char, V)>, b: Seq<(char, V)>, c: char)
    ensures
        has_symbol(a + b, c) <==> has_symbol(a, c) || has_symbol(b, c),
{
    let ab = a + b;
    if has_symbol(a, c) {
        let i = choose|i: int| 0 <= i < a.len() && (#[trigger] a[i]).0 == c;
        assert(ab[i] == a[i]);
    }
    if has_symbol(b, c) {
        let i = choose|i: int| 0 <= i < b.len() && (#[trigger] b[i]).0 == c;
        assert(ab[a.len() + i] == b[i]);
    }
}

/// Two lists that have distinct symbols when put together have distinct
/// symbols each, and no symbol in common.
pub proof fn lemma_distinct_concat<V>(a: Seq<(char, V)>, b: Seq<(char, V)>)
    requires
        distinct_symbols(a + b),
    ensures
        distinct_symbols(a),
        distinct_symbols(b),
        forall|c: char| !(has_symbol(a, c) && has_symbol(b, c)),
{
    let ab = a + b;
    assert forall|i: int, j: int| 0 <= i < j < a.len() implies a[i].0 != a[j].0 by {
        assert(ab[i] == a[i] && ab[j] == a[j]);
    }
    assert forall|i: int, j: int| 0 <= i < j < b.len() implies b[i].0 != b[j].0 by {
        assert(ab[a.len() + i] == b[i] && ab[a.len() + j] == b[j]);
    }
    assert forall|c: char| !(has_symbol(a, c) && has_symbol(b, c)) by {
        if has_symbol(a, c) && has_symbol(b, c) {
            let i = choose|i: int| 0 <= i < a.len() && (#[trigger] a[i]).0 == c;
            let j = choose|j: int| 0 <= j < b.len() && (#[trigger] b[j]).0 == c;
            assert(ab[i] == a[i] && ab[a.len() + j] == b[j]);
        }
    }
}

/// Two lists with the same entries, in whatever order, hold the same
/// symbols.
pub proof fn lemma_has_symbol_permuted<V>(a: Seq<(char, V)>, b: Seq<(char, V)>, c: char)
    requires
        a.to_multiset() == b.to_multiset(),
        has_symbol(a, c),
    ensures
        has_symbol(b, c),
{
    broadcast use vstd::seq_lib::group_to_multiset_ensures;

    let i = choose|i: int| 0 <= i < a.len() && (#[trigger] a[i]).0 == c;
    assert(b.to_multiset().count(a[i]) > 0);
}

/// Two tables with the same entries, in whatever order, have distinct
/// symbols together.
pub proof fn lemma_distinct_permuted<V>(a: Seq<(char, V)>, b: Seq<(char, V)>)
    requires
        a.to_multiset() == b.to_multiset(),
        distinct_symbols(b),
    ensures
        distinct_symbols(a),
{
    broadcast use vstd::seq_lib::group_to_multiset_ensures;

    b.lemma_multiset_has_no_duplicates();
    a.lemma_multiset_has_no_duplicates_conv();
    assert forall|i: int, j: int| 0 <= i < j < a.len() implies a[i].0 != a[j].0 by {
        assert(b.to_multiset().count(a[i]) > 0);
        assert(b.to_multiset().count(a[j]) > 0);
    }
}

/// Two lists with the same symbols at the same places find each symbol at
/// the same place.
pub proof fn lemma_same_symbols<V, W>(a: Seq<(char, V)>, b: Seq<(char, W)>, c: char)
    requires
        a.len() == b.len(),
        forall|i: int| 0 <= i < a.len() ==> (#[trigger] a[i]).0 == b[i].0,
    ensures
        position_of(a, c) == position_of(b, c),
        has_symbol(a, c) <==> has_symbol(b, c),
{
    lemma_position_of(a, c);
    lemma_position_of(b, c);
    let at = position_of(a, c);
    assert forall|j: int| 0 <= j < at implies (#[trigger] b[j]).0 != c by {
        assert(a[j].0 != c);
    }
    lemma_position_is(b, c, at);
}

} // verus!
