use crate::symbols::{
    all_distinct, distinct_symbols, find_symbol, has_symbol, lemma_position_is, lemma_position_of, lemma_put,
    position_of, put,
};
use vstd::prelude::*;

verus! {

/// The sum of all counts.
pub open spec fn total_weight<T>(entries: Seq<(T, u64)>) -> nat
    decreases entries.len(),
{
    if entries.len() == 0 {
        0
    } else {
        total_weight(entries.drop_last()) + entries.last().1 as nat
    }
}

/// The count recorded for `c`, zero where there is none.
pub open spec fn count_in(entries: Seq<(char, u64)>, c: char) -> nat {
    let at = position_of(entries, c);
    if at < entries.len() {
        entries[at].1 as nat
    } else {
        0
    }
}

/// Symbol counts in the order in which the symbols were first recorded.
/// It stands for a map from symbol to count: no symbol is held twice.
#[derive(Debug)]
pub struct FrequencyTable {
    entries: Vec<(char, u64)>,
}

impl View for FrequencyTable {
    type V = Seq<(char, u64)>;

    closed spec fn view(&self) -> Seq<(char, u64)> {
        self.entries@
    }
}

impl FrequencyTable {
    #[verifier::type_invariant]
    spec fn symbols_are_distinct(self) -> bool {
        distinct_symbols(self.entries@)
    }

    /// A table without entries.
    pub fn new() -> (table: FrequencyTable)
        ensures
            table@ == Seq::<(char, u64)>::empty(),
    {
        FrequencyTable { entries: Vec::new() }
    }

    /// A table with the given entries, or `None` where a symbol occurs twice.
    pub fn from_entries(entries: Vec<(char, u64)>) -> (table: Option<FrequencyTable>)
        ensures
            table is Some <==> distinct_symbols(entries@),
            table is Some ==> table->0@ == entries@,
    {
        if all_distinct(&entries) {
            Some(FrequencyTable { entries })
        } else {
            None
        }
    }

    /// The number of symbols counted.
    pub fn len(&self) -> (n: usize)
        ensures
            n == self@.len(),
    {
        self.entries.len()
    }

    /// Whether no symbol was counted.
    pub fn is_empty(&self) -> (empty: bool)
        ensures
            empty <==> self@.len() == 0,
    {
        self.entries.len() == 0
    }

    /// The count recorded for `ch`.
    pub fn get(&self, ch: &char) -> (count: Option<u64>)
        ensures
            count is Some <==> has_symbol(self@, *ch),
            count is Some ==> count->0 as nat == count_in(self@, *ch),
    {
        let at = find_symbol(&self.entries, *ch);
        proof {
            lemma_position_of(self.entries@, *ch);
        }
        if at < self.entries.len() {
            Some(self.entries[at].1)
        } else {
            None
        }
    }

    /// Maps `ch` to `freq`, and returns the count that it replaces.
    pub fn insert(&mut self, ch: char, freq: u64) -> (previous: Option<u64>)
        ensures
            final(self)@ == put(old(self)@, ch, freq),
            previous is Some <==> has_symbol(old(self)@, ch),
            previous is Some ==> previous->0 as nat == count_in(old(self)@, ch),
    {
        proof {
            use_type_invariant(&*self);
            lemma_position_of(self.entries@, ch);
            lemma_put(self.entries@, ch, freq);
        }
        let mut entries: Vec<(char, u64)> = Vec::new();
        core::mem::swap(&mut entries, &mut self.entries);
        let at = find_symbol(&entries, ch);
        let previous = if at < entries.len() {
            let previous = entries[at].1;
            entries.set(at, (ch, freq));
            Some(previous)
        } else {
            entries.push((ch, freq));
            None
        };
        self.entries = entries;
        previous
    }

    /// The entries, in the order in which their symbols were first recorded.
    pub fn into_entries(self) -> (entries: Vec<(char, u64)>)
        ensures
            entries@ == self@,
            distinct_symbols(entries@),
    {
        proof {
            use_type_invariant(&self);
        }
        self.entries
    }
}

/// How often `c` occurs in `symbols`.
pub open spec fn occurrences(symbols: Seq<char>, c: char) -> nat
    decreases symbols.len(),
{
    if symbols.len() == 0 {
        0
    } else {
        occurrences(symbols.drop_last(), c) + if symbols.last() == c {
            1nat
        } else {
            0nat
        }
    }
}

/// The frequency table of a text: one entry per distinct symbol, in the
/// order in which the symbols first occur, each with the number of its
/// occurrences.
pub open spec fn tally(symbols: Seq<char>) -> Seq<(char, u64)>
    decreases symbols.len(),
{
    if symbols.len() == 0 {
        Seq::empty()
    } else {
        let before = tally(symbols.drop_last());
        put(before, symbols.last(), (count_in(before, symbols.last()) + 1) as u64)
    }
}

/// Putting a count changes the total by the difference to the old count.
pub proof fn lemma_put_total(entries: Seq<(char, u64)>, c: char, v: u64)
    ensures
        total_weight(put(entries, c, v)) + count_in(entries, c) == total_weight(entries) + v,
    decreases entries.len(),
{
    lemma_position_of(entries, c);
    let at = position_of(entries, c);
    let after = put(entries, c, v);
    if at >= entries.len() {
        assert(after.drop_last() =~= entries);
    } else if at == entries.len() - 1 {
        assert(after.drop_last() =~= entries.drop_last());
    } else {
        let front = entries.drop_last();
        lemma_position_is(front, c, at);
        lemma_put_total(front, c, v);
        assert(after.drop_last() =~= put(front, c, v));
    }
}

/// The table of a text counts every symbol: it holds the symbols that occur,
/// each once and with the number of its occurrences, and the counts add up
/// to the length of the text.
pub proof fn lemma_tally(symbols: Seq<char>)
    requires
        symbols.len() <= u64::MAX,
    ensures
        distinct_symbols(tally(symbols)),
        total_weight(tally(symbols)) == symbols.len(),
        forall|c: char| count_in(tally(symbols), c) == #[trigger] occurrences(symbols, c),
        forall|c: char| #[trigger] has_symbol(tally(symbols), c) <==> symbols.contains(c),
        symbols.len() > 0 ==> tally(symbols).len() > 0,
    decreases symbols.len(),
{
    if symbols.len() > 0 {
        let front = symbols.drop_last();
        let last = symbols.last();
        let before = tally(front);
        lemma_tally(front);
        lemma_count_bound(before, last);
        let next = (count_in(before, last) + 1) as u64;
        lemma_put(before, last, next);
        lemma_put_total(before, last, next);
        lemma_position_of(before, last);
        let after = tally(symbols);
        assert forall|c: char| count_in(after, c) == #[trigger] occurrences(symbols, c) by {
            lemma_position_of(before, c);
            lemma_position_of(after, c);
            assert(count_in(before, c) == occurrences(front, c));
        }
        assert forall|c: char| #[trigger] has_symbol(after, c) <==> symbols.contains(c) by {
            if front.contains(c) {
                let i = choose|i: int| 0 <= i < front.len() && front[i] == c;
            }
            if symbols.contains(c) && c != last {
                let i = choose|i: int| 0 <= i < symbols.len() && symbols[i] == c;
                assert(front[i] == c);
            }
            if !(c == last) {
                assert(has_symbol(after, c) <==> has_symbol(before, c));
            }
        }
    }
}

/// No count is more than the total.
pub proof fn lemma_count_bound(entries: Seq<(char, u64)>, c: char)
    ensures
        count_in(entries, c) <= total_weight(entries),
    decreases entries.len(),
{
    lemma_position_of(entries, c);
    let at = position_of(entries, c);
    if entries.len() > 0 && at < entries.len() - 1 {
        let front = entries.drop_last();
        lemma_position_is(front, c, at);
        lemma_count_bound(front, c);
    }
}

impl FrequencyTable {
    /// Counts the symbols of a text.
    pub fn of_symbols(symbols: &Vec<char>) -> (table: FrequencyTable)
        ensures
            table@ == tally(symbols@),
            total_weight(table@) == symbols@.len(),
            forall|c: char| count_in(table@, c) == #[trigger] occurrences(symbols@, c),
    {
        let mut entries: Vec<(char, u64)> = Vec::new();
        let mut i: usize = 0;
        while i < symbols.len()
            invariant
                0 <= i <= symbols.len(),
                entries@ == tally(symbols@.take(i as int)),
            decreases symbols.len() - i,
        {
            let ch = symbols[i];
            proof {
                let seen = symbols@.take(i as int);
                assert(symbols@.take(i as int + 1).drop_last() == seen);
                lemma_tally(seen);
                lemma_count_bound(entries@, ch);
                lemma_position_of(entries@, ch);
            }
            let at = find_symbol(&entries, ch);
            if at < entries.len() {
                let count = entries[at].1;
                entries.set(at, (ch, count + 1));
            } else {
                entries.push((ch, 1));
            }
            i += 1;
        }
        proof {
            assert(symbols@.take(i as int) == symbols@);
            lemma_tally(symbols@);
        }
        FrequencyTable { entries }
    }
}

} // verus!
