use crate::bits::{max_bits, pack_bits, BitBuffer};
use crate::code_table::{prefix_free, CodeTable};
use crate::decode::decoded;
use crate::error::CodecError;
use crate::frequency::{lemma_tally, tally, FrequencyTable};
use crate::generate_huffman_codes::{code_map, generate_huffman_codes, lemma_code_map_paths};
use crate::helpers::{all_known, payload, payload_symbols, push_symbols, stream_of};
use crate::huffman::{huffman, huffman_tree, lemma_huffman_leaves, Tree};
use crate::optimality::lemma_stream_least;
use crate::round_trip::lemma_round_trip;
use crate::symbols::lemma_has_symbol_permuted;
use crate::text::push_char;
use vstd::prelude::*;

verus! {

/// What compressing a text gives: the code of each symbol, the number of
/// bits in the stream, and the stream packed into bytes.
#[derive(Debug)]
pub struct EncodedData {
    pub codes: CodeTable,
    pub total_bits: usize,
    pub data: Vec<u8>,
}

/// The codes that a tree gives its symbols. A tree of one leaf has no edge
/// to name, so its one symbol is written as a single zero.
pub open spec fn assigned_codes(tree: Tree<char>) -> Map<char, Seq<char>> {
    match tree {
        Tree::Leaf { char, .. } => map![char => seq!['0']],
        Tree::Node { .. } => code_map(tree, Seq::empty()),
    }
}

/// The code table of a text.
pub open spec fn code_table_of(symbols: Seq<char>) -> Map<char, Seq<char>> {
    assigned_codes(huffman(tally(symbols)))
}

/// The bit stream of a text, written with the text's own code table.
pub open spec fn encoded_stream(symbols: Seq<char>) -> Seq<bool> {
    stream_of(code_table_of(symbols), symbols)
}

/// The code table of a text has a code for each of its symbols.
pub proof fn lemma_own_table_knows(symbols: Seq<char>)
    requires
        0 < symbols.len() <= u64::MAX,
    ensures
        all_known(code_table_of(symbols), symbols),
{
    let entries = tally(symbols);
    lemma_tally(symbols);
    lemma_huffman_leaves(entries);
    let tree = huffman(entries);
    lemma_code_map_paths(tree, Seq::empty());
    assert forall|i: int| 0 <= i < symbols.len() implies code_table_of(symbols).contains_key(
        #[trigger] symbols[i],
    ) by {
        let c = symbols[i];
        lemma_has_symbol_permuted(entries, tree.leaves(), c);
        match tree {
            Tree::Leaf { char, freq } => {},
            Tree::Node { .. } => {},
        }
    }
}

/// Gives each symbol of a tree its code.
pub fn assign_codes(tree: Tree<char>) -> (codes: CodeTable)
    ensures
        codes@ == assigned_codes(tree),
{
    match tree {
        Tree::Leaf { char, .. } => {
            let mut codes = CodeTable::new();
            let mut code = String::new();
            push_char(&mut code, '0');
            codes.insert(char, code);
            codes
        },
        Tree::Node { .. } => generate_huffman_codes(tree),
    }
}

/// Compresses a text: counts its symbols, builds their prefix-code tree,
/// gives each symbol its code and writes the text with these codes. Line
/// terminators are not part of the text. A text without symbols cannot be
/// compressed, nor one whose bit stream no buffer can hold. What comes out
/// restores to the text, and where the text has two distinct symbols or
/// more, no prefix code writes it in fewer bits.
pub fn encode(text: &str) -> (result: Result<EncodedData, CodecError>)
    ensures
        result is Ok <==> payload(text@).len() > 0 && encoded_stream(payload(text@)).len()
            <= max_bits(),
        result matches Ok(artifact) ==> {
            &&& artifact.codes@ == code_table_of(payload(text@))
            &&& artifact.total_bits == encoded_stream(payload(text@)).len()
            &&& artifact.data@ == pack_bits(encoded_stream(payload(text@)))
            &&& decoded(artifact.codes@, artifact.total_bits as nat, artifact.data@) == Ok::<
                Seq<char>,
                CodecError,
            >(payload(text@))
            &&& tally(payload(text@)).len() >= 2 ==> forall|table: Map<char, Seq<char>>|
                all_known(table, payload(text@)) && prefix_free(table) ==> artifact.total_bits
                    <= #[trigger] stream_of(table, payload(text@)).len()
        },
        result matches Err(e) ==> e == (if payload(text@).len() == 0 {
            CodecError::EmptyInput
        } else {
            CodecError::InputTooLarge
        }),
{
    let symbols = payload_symbols(text);
    let char_map = FrequencyTable::of_symbols(&symbols);
    assert(symbols@.len() == symbols.len() <= u64::MAX);
    let tree = match huffman_tree(char_map) {
        Ok(tree) => tree,
        Err(e) => {
            proof {
                lemma_tally(symbols@);
            }
            return Err(e);
        },
    };
    proof {
        lemma_tally(symbols@);
        lemma_own_table_knows(symbols@);
        lemma_round_trip(symbols@);
        if tally(symbols@).len() >= 2 {
            assert forall|table: Map<char, Seq<char>>|
                all_known(table, symbols@) && prefix_free(table) implies encoded_stream(
                symbols@,
            ).len() <= #[trigger] stream_of(table, symbols@).len() by {
                lemma_stream_least(symbols@, table);
            }
        }
    }
    let codes = assign_codes(tree);
    let mut bv = BitBuffer::new();
    match push_symbols(&mut bv, &symbols, &codes) {
        Ok(()) => {
            let total_bits = bv.len();
            let data = bv.to_bytes();
            Ok(EncodedData { codes, total_bits, data })
        },
        Err(e) => Err(e),
    }
}

} // verus!
