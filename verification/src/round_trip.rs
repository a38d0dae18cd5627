use crate::bits::{lemma_pack_read, pack_bits};
use crate::code_table::{code_bits, codes_unique, prefix_free};
use crate::decode::{after, decode_bits, decoded, payload_bits};
use crate::encode::{code_table_of, encoded_stream, lemma_own_table_knows};
use crate::frequency::{lemma_tally, tally};
use crate::generate_huffman_codes::{lemma_code_map_paths, lemma_codes_prefix_free};
use crate::helpers::{all_known, bits_for, payload, payload_upto, stream_of};
use crate::huffman::{huffman, lemma_huffman_leaves, Tree};
use vstd::prelude::*;

verus! {

/// Every symbol of the table has a code of at least one bit.
pub open spec fn no_empty_code(table: Map<char, Seq<char>>) -> bool {
    forall|c: char| table.contains_key(c) ==> (#[trigger] table[c]).len() > 0
}

/// The stream of a text is the code of its first symbol and then the stream
/// of the rest.
pub proof fn lemma_stream_front(table: Map<char, Seq<char>>, symbols: Seq<char>)
    requires
        symbols.len() > 0,
    ensures
        stream_of(table, symbols) == bits_for(table, symbols[0]) + stream_of(
            table,
            symbols.drop_first(),
        ),
    decreases symbols.len(),
{
    if symbols.len() == 1 {
        assert(symbols.drop_last() =~= Seq::<char>::empty());
        assert(symbols.drop_first() =~= Seq::<char>::empty());
    } else {
        let front = symbols.drop_last();
        lemma_stream_front(table, front);
        assert(front.drop_first() =~= symbols.drop_first().drop_last());
    }
}

/// In a prefix-free table, reading the code of `c` from its bit `k` on,
/// with the bits before that as the candidate, gives `c` and goes on with
/// what follows the code.
pub proof fn lemma_read_code(table: Map<char, Seq<char>>, c: char, tail: Seq<bool>, k: int)
    requires
        prefix_free(table),
        table.contains_key(c),
        0 <= k < table[c].len(),
    ensures
        decode_bits(table, code_bits(table[c]).skip(k) + tail, code_bits(table[c]).take(k))
            == after(seq![c], decode_bits(table, tail, Seq::empty())),
    decreases table[c].len() - k,
{
    let code = code_bits(table[c]);
    let bits = code.skip(k) + tail;
    let grown = code.take(k).push(bits[0]);
    assert(grown =~= code.take(k + 1));
    assert(bits.drop_first() =~= code.skip(k + 1) + tail);
    if k + 1 == code.len() {
        assert(code.take(k + 1) =~= code);
    } else {
        lemma_read_code(table, c, tail, k + 1);
    }
}

/// Reading the stream of a text gives the text back, where the table is
/// prefix-free and has a code of at least one bit for every symbol.
pub proof fn lemma_decode_stream(table: Map<char, Seq<char>>, symbols: Seq<char>)
    requires
        prefix_free(table),
        no_empty_code(table),
        all_known(table, symbols),
    ensures
        decode_bits(table, stream_of(table, symbols), Seq::empty()) == Ok::<
            Seq<char>,
            crate::error::CodecError,
        >(symbols),
    decreases symbols.len(),
{
    if symbols.len() == 0 {
        assert(symbols =~= Seq::<char>::empty());
    } else {
        let c = symbols[0];
        let rest = symbols.drop_first();
        lemma_stream_front(table, symbols);
        lemma_decode_stream(table, rest);
        let code = code_bits(table[c]);
        let tail = stream_of(table, rest);
        lemma_read_code(table, c, tail, 0);
        assert(code.skip(0) =~= code);
        assert(code.take(0) =~= Seq::<bool>::empty());
        assert(seq![c] + rest =~= symbols);
    }
}

/// The code table of a text is prefix-free, and none of its codes is empty.
pub proof fn lemma_own_table_prefix_free(symbols: Seq<char>)
    requires
        0 < symbols.len() <= u64::MAX,
    ensures
        prefix_free(code_table_of(symbols)),
        no_empty_code(code_table_of(symbols)),
{
    let entries = tally(symbols);
    lemma_tally(symbols);
    lemma_huffman_leaves(entries);
    let tree = huffman(entries);
    match tree {
        Tree::Leaf { .. } => {},
        Tree::Node { .. } => {
            lemma_codes_prefix_free(tree, Seq::empty());
            lemma_code_map_paths(tree, Seq::empty());
        },
    }
}

/// In a prefix-free table no two symbols share a code.
pub proof fn lemma_prefix_free_unique(table: Map<char, Seq<char>>)
    requires
        prefix_free(table),
    ensures
        codes_unique(table),
{
    assert forall|a: char, b: char|
        table.contains_key(a) && table.contains_key(b) && a != b implies code_bits(
        #[trigger] table[a],
    ) != code_bits(#[trigger] table[b]) by {
        let code = code_bits(table[a]);
        if code == code_bits(table[b]) {
            assert(code.take(code.len() as int) =~= code);
        }
    }
}

/// Round trip: what compressing a text of at least one symbol gives,
/// restores to that text. The text is the sequence of symbols, so without
/// line terminators; a text of a single distinct symbol is no exception.
pub proof fn lemma_round_trip(symbols: Seq<char>)
    requires
        0 < symbols.len() <= u64::MAX,
    ensures
        decoded(
            code_table_of(symbols),
            encoded_stream(symbols).len(),
            pack_bits(encoded_stream(symbols)),
        ) == Ok::<Seq<char>, crate::error::CodecError>(symbols),
{
    let table = code_table_of(symbols);
    let stream = encoded_stream(symbols);
    let data = pack_bits(stream);
    lemma_own_table_knows(symbols);
    lemma_own_table_prefix_free(symbols);
    lemma_prefix_free_unique(table);
    assert(payload_bits(data, stream.len()) =~= stream) by {
        assert forall|i: int| 0 <= i < stream.len() implies payload_bits(data, stream.len())[i]
            == stream[i] by {
            lemma_pack_read(stream, i);
        }
    }
    lemma_decode_stream(table, symbols);
}

/// Reading depends on the meaningful bits alone: two byte strings that
/// agree in their first `total_bits` bits restore to the same text under
/// the same table.
pub proof fn lemma_padding_ignored(
    codes: Map<char, Seq<char>>,
    total_bits: nat,
    data: Seq<u8>,
    other: Seq<u8>,
)
    requires
        data.len() == other.len(),
        payload_bits(data, total_bits) == payload_bits(other, total_bits),
    ensures
        decoded(codes, total_bits, data) == decoded(codes, total_bits, other),
{
}

/// The symbols of the beginning of a text: none of them is a line feed, and
/// where the text holds no line feed, they are the beginning itself.
pub proof fn lemma_payload_upto(text: Seq<char>, n: nat)
    requires
        n <= text.len(),
    ensures
        !payload_upto(text, n).contains('\n'),
        !text.contains('\n') ==> payload_upto(text, n) == text.take(n as int),
    decreases n,
{
    if n > 0 {
        lemma_payload_upto(text, (n - 1) as nat);
    }
}

/// A text without line feeds is its own sequence of symbols, so compressing
/// and restoring gives it back exactly; of any other text the line
/// terminators are lost, and only they.
pub proof fn lemma_payload(text: Seq<char>)
    ensures
        !payload(text).contains('\n'),
        !text.contains('\n') ==> payload(text) == text,
{
    lemma_payload_upto(text, text.len());
}

} // verus!
