use crate::symbols::{
    all_distinct, distinct_symbols, find_symbol, has_symbol, lemma_position_is, lemma_position_of, lemma_put,
    lemma_same_symbols, position_of, put,
};
use crate::text::chars_of;
use vstd::prelude::*;

verus! {

/// The map that a list of (symbol, code) entries stands for.
pub open spec fn table_of(entries: Seq<(char, String)>) -> Map<char, Seq<char>> {
    Map::new(|c: char| has_symbol(entries, c), |c: char| entries[position_of(entries, c)].1@)
}

/// The bits that a textual code stands for: `'1'` is a one, and any other
/// character a zero.
pub open spec fn code_bits(code: Seq<char>) -> Seq<bool> {
    Seq::new(code.len(), |i: int| code[i] == '1')
}

/// `a` is the beginning of `b`, or all of it.
pub open spec fn is_prefix<A>(a: Seq<A>, b: Seq<A>) -> bool {
    a.len() <= b.len() && b.take(a.len() as int) == a
}

/// No code of the table begins another symbol's code, or equals it.
pub open spec fn prefix_free(table: Map<char, Seq<char>>) -> bool {
    forall|a: char, b: char|
        table.contains_key(a) && table.contains_key(b) && a != b ==> !is_prefix(
            code_bits(#[trigger] table[a]),
            code_bits(#[trigger] table[b]),
        )
}

/// Some symbol of the table has exactly these bits as its code.
pub open spec fn has_code(table: Map<char, Seq<char>>, bits: Seq<bool>) -> bool {
    exists|c: char| table.contains_key(c) && code_bits(#[trigger] table[c]) == bits
}

/// No two symbols of the table have the same bits as their code.
pub open spec fn codes_unique(table: Map<char, Seq<char>>) -> bool {
    forall|a: char, b: char|
        table.contains_key(a) && table.contains_key(b) && a != b ==> code_bits(
            #[trigger] table[a],
        ) != code_bits(#[trigger] table[b])
}

/// Every code of the table is shorter than `n`.
pub open spec fn all_shorter(table: Map<char, Seq<char>>, n: nat) -> bool {
    forall|c: char| table.contains_key(c) ==> (#[trigger] table[c]).len() < n
}

/// Putting an entry into the list inserts it into the map.
pub proof fn lemma_table_put(entries: Seq<(char, String)>, c: char, code: String)
    requires
        distinct_symbols(entries),
    ensures
        table_of(put(entries, c, code)) == table_of(entries).insert(c, code@),
{
    lemma_put(entries, c, code);
    lemma_position_of(entries, c);
}

/// `bit_table` holds the symbols of `table`, each once, with the bits of its
/// code.
pub open spec fn is_bit_table(
    bit_table: Seq<(char, Vec<bool>)>,
    table: Map<char, Seq<char>>,
) -> bool {
    &&& distinct_symbols(bit_table)
    &&& forall|c: char| has_symbol(bit_table, c) <==> #[trigger] table.contains_key(c)
    &&& forall|i: int|
        0 <= i < bit_table.len() ==> (#[trigger] bit_table[i]).1@ == code_bits(
            table[bit_table[i].0],
        )
}

/// The code of each symbol, written with the characters `'0'` and `'1'`.
/// It stands for a map from symbol to code: no symbol is held twice.
#[derive(Debug)]
pub struct CodeTable {
    entries: Vec<(char, String)>,
}

impl View for CodeTable {
    type V = Map<char, Seq<char>>;

    closed spec fn view(&self) -> Map<char, Seq<char>> {
        table_of(self.entries@)
    }
}

impl CodeTable {
    #[verifier::type_invariant]
    spec fn symbols_are_distinct(self) -> bool {
        distinct_symbols(self.entries@)
    }

    /// A table without codes.
    pub fn new() -> (table: CodeTable)
        ensures
            table@ == Map::<char, Seq<char>>::empty(),
    {
        let table = CodeTable { entries: Vec::new() };
        table
    }

    /// A table with the given entries, or `None` where a symbol occurs twice.
    pub fn from_entries(entries: Vec<(char, String)>) -> (table: Option<CodeTable>)
        ensures
            table is Some <==> distinct_symbols(entries@),
            table is Some ==> table->0@ == table_of(entries@),
    {
        if all_distinct(&entries) {
            Some(CodeTable { entries })
        } else {
            None
        }
    }

    /// The entries of the table, in the order in which the symbols entered.
    pub fn into_entries(self) -> (entries: Vec<(char, String)>)
        ensures
            table_of(entries@) == self@,
            distinct_symbols(entries@),
    {
        proof {
            use_type_invariant(&self);
        }
        self.entries
    }

    /// Whether the table has no code at all.
    pub fn is_empty(&self) -> (empty: bool)
        ensures
            empty <==> self@ == Map::<char, Seq<char>>::empty(),
    {
        proof {
            if self.entries@.len() == 0 {
                assert(self@ =~= Map::<char, Seq<char>>::empty());
            } else {
                assert(self@.contains_key(self.entries@[0].0));
            }
        }
        self.entries.len() == 0
    }

    /// The code of `ch`.
    pub fn get(&self, ch: &char) -> (code: Option<&String>)
        ensures
            code is Some <==> self@.contains_key(*ch),
            code is Some ==> code->0@ == self@[*ch],
    {
        let at = find_symbol(&self.entries, *ch);
        proof {
            lemma_position_of(self.entries@, *ch);
        }
        if at < self.entries.len() {
            Some(&self.entries[at].1)
        } else {
            None
        }
    }

    /// Maps `ch` to `code`, and returns the code that it replaces.
    pub fn insert(&mut self, ch: char, code: String) -> (previous: Option<String>)
        ensures
            final(self)@ == old(self)@.insert(ch, code@),
            previous is Some <==> old(self)@.contains_key(ch),
            previous is Some ==> previous->0@ == old(self)@[ch],
    {
        proof {
            use_type_invariant(&*self);
            lemma_position_of(self.entries@, ch);
            lemma_put(self.entries@, ch, code);
            lemma_table_put(self.entries@, ch, code);
        }
        let mut entries: Vec<(char, String)> = Vec::new();
        core::mem::swap(&mut entries, &mut self.entries);
        let at = find_symbol(&entries, ch);
        let previous = if at < entries.len() {
            let mut entry = (ch, code);
            core::mem::swap(&mut entry, &mut entries[at]);
            Some(entry.1)
        } else {
            entries.push((ch, code));
            None
        };
        self.entries = entries;
        previous
    }
}

impl CodeTable {
    /// The symbols of the table, each with the bits of its code.
    pub fn bit_codes(&self) -> (bit_table: Vec<(char, Vec<bool>)>)
        ensures
            is_bit_table(bit_table@, self@),
    {
        proof {
            use_type_invariant(self);
        }
        let mut bit_table: Vec<(char, Vec<bool>)> = Vec::new();
        let mut i: usize = 0;
        while i < self.entries.len()
            invariant
                0 <= i <= self.entries.len(),
                bit_table@.len() == i,
                forall|k: int|
                    0 <= k < i ==> (#[trigger] bit_table@[k]).0 == self.entries@[k].0
                        && bit_table@[k].1@ == code_bits(self.entries@[k].1@),
            decreases self.entries.len() - i,
        {
            let code = chars_of(self.entries[i].1.as_str());
            let mut bits: Vec<bool> = Vec::new();
            let mut j: usize = 0;
            while j < code.len()
                invariant
                    0 <= j <= code.len(),
                    bits@ == code_bits(code@.take(j as int)),
                decreases code.len() - j,
            {
                bits.push(code[j] == '1');
                j += 1;
            }
            bit_table.push((self.entries[i].0, bits));
            i += 1;
        }
        proof {
            let entries = self.entries@;
            assert forall|c: char| has_symbol(bit_table@, c) <==> #[trigger] self@.contains_key(
                c,
            ) by {
                lemma_same_symbols(bit_table@, entries, c);
            }
            assert forall|k: int| 0 <= k < bit_table@.len() implies (#[trigger] bit_table@[k]).1@
                == code_bits(self@[bit_table@[k].0]) by {
                let c = entries[k].0;
                assert forall|j: int| 0 <= j < k implies (#[trigger] entries[j]).0 != c by {}
                lemma_position_is(entries, c, k);
                lemma_position_of(entries, c);
            }
        }
        bit_table
    }
}

} // verus!
