use crate::code_table::{code_bits, is_prefix, prefix_free, CodeTable};
use crate::symbols::{
    distinct_symbols, has_symbol, lemma_distinct_concat, lemma_has_symbol_concat,
    lemma_has_symbol_permuted,
};
use crate::huffman::{huffman, lemma_huffman_leaves, Tree};
use crate::text::{pop_char, push_char};
use vstd::prelude::*;

verus! {

/// The code of every symbol below `tree`, where the path from the root of
/// the whole tree down to `tree` is `prefix`: a step to the left adds `'0'`,
/// a step to the right adds `'1'`. Where a symbol occurs on both sides, the
/// right one counts.
pub open spec fn code_map(tree: Tree<char>, prefix: Seq<char>) -> Map<char, Seq<char>>
    decreases tree,
{
    match tree {
        Tree::Leaf { char, .. } => map![char => prefix],
        Tree::Node { left, right, .. } => code_map(*left, prefix.push('0')).union_prefer_right(
            code_map(*right, prefix.push('1')),
        ),
    }
}

/// The code table of a whole tree: a code for each symbol at its leaves,
/// and where no symbol is at two leaves, no code that begins another.
pub fn generate_huffman_codes(huffman_tree: Tree<char>) -> (codes: CodeTable)
    ensures
        codes@ == code_map(huffman_tree, Seq::<char>::empty()),
        forall|c: char| #[trigger] codes@.contains_key(c) <==> has_symbol(huffman_tree.leaves(), c),
        distinct_symbols(huffman_tree.leaves()) ==> prefix_free(codes@),
{
    proof {
        lemma_code_map_paths(huffman_tree, Seq::<char>::empty());
        if distinct_symbols(huffman_tree.leaves()) {
            lemma_codes_prefix_free(huffman_tree, Seq::<char>::empty());
        }
    }
    let mut codes_char = CodeTable::new();
    let mut codes = String::new();
    get_code(huffman_tree, &mut codes, &mut codes_char);
    codes_char
}

/// Records the code of every symbol below `node` in `codes_char`, where
/// `current_code` is the path down to `node`. The path is left as it was.
pub fn get_code(node: Tree<char>, current_code: &mut String, codes_char: &mut CodeTable)
    ensures
        final(current_code)@ == old(current_code)@,
        final(codes_char)@ == old(codes_char)@.union_prefer_right(
            code_map(node, old(current_code)@),
        ),
    decreases node,
{
    match node {
        Tree::Leaf { char, .. } => {
            codes_char.insert(char, current_code.clone());
        },
        Tree::Node { left, right, .. } => {
            push_char(current_code, '0');
            get_code(*left, current_code, codes_char);
            pop_char(current_code);
            assert(current_code@ == old(current_code)@);

            push_char(current_code, '1');
            get_code(*right, current_code, codes_char);
            pop_char(current_code);
        },
    }
}

/// From position `from` on, `code` is written with `'0'` and `'1'` alone.
pub open spec fn binary_from(code: Seq<char>, from: int) -> bool {
    forall|i: int| from <= i < code.len() ==> code[i] == '0' || code[i] == '1'
}

/// The table of a tree has a code for exactly the symbols at its leaves.
/// Each code begins with the path down to the tree and goes on, by at least
/// one step where the tree is not a single leaf, in `'0'` and `'1'`.
pub proof fn lemma_code_map_paths(tree: Tree<char>, prefix: Seq<char>)
    ensures
        forall|c: char| #[trigger]
            code_map(tree, prefix).contains_key(c) <==> has_symbol(tree.leaves(), c),
        forall|c: char| #[trigger]
            code_map(tree, prefix).contains_key(c) ==> {
                &&& is_prefix(prefix, code_map(tree, prefix)[c])
                &&& tree is Node ==> code_map(tree, prefix)[c].len() > prefix.len()
                &&& binary_from(code_map(tree, prefix)[c], prefix.len() as int)
            },
    decreases tree,
{
    match tree {
        Tree::Leaf { char, freq } => {
            assert(tree.leaves()[0] == (char, freq));
            assert(prefix.take(prefix.len() as int) == prefix);
        },
        Tree::Node { left, right, .. } => {
            let zero = prefix.push('0');
            let one = prefix.push('1');
            lemma_code_map_paths(*left, zero);
            lemma_code_map_paths(*right, one);
            let l = code_map(*left, zero);
            let r = code_map(*right, one);
            let m = code_map(tree, prefix);
            assert(m == l.union_prefer_right(r));
            assert forall|c: char| #[trigger] m.contains_key(c) <==> has_symbol(
                tree.leaves(),
                c,
            ) by {
                lemma_has_symbol_concat(left.leaves(), right.leaves(), c);
            }
            assert forall|c: char| #[trigger] m.contains_key(c) implies {
                &&& is_prefix(prefix, m[c])
                &&& m[c].len() > prefix.len()
                &&& binary_from(m[c], prefix.len() as int)
            } by {
                let step = if r.contains_key(c) {
                    one
                } else {
                    zero
                };
                let code = m[c];
                assert(code.take(step.len() as int)[prefix.len() as int] == step[prefix.len() as int]);
                assert(code.take(prefix.len() as int) =~= step.take(prefix.len() as int));
                assert(step.take(prefix.len() as int) =~= prefix);
            }
        },
    }
}

/// Below a node the codes of the left subtree go on with a zero and those
/// of the right subtree with a one.
proof fn lemma_branch_bit(code: Seq<char>, prefix: Seq<char>, step: char)
    requires
        is_prefix(prefix.push(step), code),
    ensures
        code_bits(code).len() > prefix.len(),
        code_bits(code)[prefix.len() as int] == (step == '1'),
{
    let path = prefix.push(step);
    assert(code.take(path.len() as int)[prefix.len() as int] == path[prefix.len() as int]);
}

/// Prefix-freeness: in the code table of a tree that holds no symbol twice,
/// the code of one symbol is never the beginning of another symbol's code,
/// nor equal to it.
pub proof fn lemma_codes_prefix_free(tree: Tree<char>, prefix: Seq<char>)
    requires
        distinct_symbols(tree.leaves()),
    ensures
        prefix_free(code_map(tree, prefix)),
    decreases tree,
{
    match tree {
        Tree::Leaf { .. } => {},
        Tree::Node { left, right, .. } => {
            let zero = prefix.push('0');
            let one = prefix.push('1');
            let r = code_map(*right, one);
            let m = code_map(tree, prefix);
            lemma_distinct_concat(left.leaves(), right.leaves());
            lemma_codes_prefix_free(*left, zero);
            lemma_codes_prefix_free(*right, one);
            lemma_code_map_paths(*left, zero);
            lemma_code_map_paths(*right, one);
            assert forall|a: char, b: char|
                m.contains_key(a) && m.contains_key(b) && a != b implies !is_prefix(
                code_bits(#[trigger] m[a]),
                code_bits(#[trigger] m[b]),
            ) by {
                let in_right_a = r.contains_key(a);
                let in_right_b = r.contains_key(b);
                if !(in_right_a == in_right_b) {
                    let step_a = if in_right_a { '1' } else { '0' };
                    let step_b = if in_right_b { '1' } else { '0' };
                    lemma_branch_bit(m[a], prefix, step_a);
                    lemma_branch_bit(m[b], prefix, step_b);
                }
            }
        },
    }
}

/// Where one code begins another as text, its bits begin the other's bits.
pub proof fn lemma_prefix_bits(a: Seq<char>, b: Seq<char>)
    requires
        is_prefix(a, b),
    ensures
        is_prefix(code_bits(a), code_bits(b)),
{
    assert(code_bits(b).take(code_bits(a).len() as int) =~= code_bits(a));
}

/// Prefix-freeness of the codes of a frequency table that holds no symbol
/// twice: no code in the table of its tree begins the code of another
/// symbol or equals it, read as bits or as text.
pub proof fn lemma_table_prefix_free(entries: Seq<(char, u64)>)
    requires
        entries.len() >= 1,
        distinct_symbols(entries),
    ensures
        prefix_free(code_map(huffman(entries), Seq::empty())),
        forall|a: char, b: char|
            #![trigger code_map(huffman(entries), Seq::empty())[a], code_map(huffman(entries), Seq::empty())[b]]
            code_map(huffman(entries), Seq::empty()).contains_key(a) && code_map(
                huffman(entries),
                Seq::empty(),
            ).contains_key(b) && a != b ==> !is_prefix(
                code_map(huffman(entries), Seq::empty())[a],
                code_map(huffman(entries), Seq::empty())[b],
            ),
        forall|c: char|
            has_symbol(entries, c) <==> #[trigger] code_map(
                huffman(entries),
                Seq::empty(),
            ).contains_key(c),
{
    let tree = huffman(entries);
    let table = code_map(tree, Seq::empty());
    lemma_huffman_leaves(entries);
    lemma_codes_prefix_free(tree, Seq::empty());
    lemma_code_map_paths(tree, Seq::empty());
    assert forall|a: char, b: char|
        table.contains_key(a) && table.contains_key(b) && a != b implies !is_prefix(
        #[trigger] table[a],
        #[trigger] table[b],
    ) by {
        if is_prefix(table[a], table[b]) {
            lemma_prefix_bits(table[a], table[b]);
        }
    }
    assert forall|c: char| has_symbol(entries, c) <==> #[trigger] table.contains_key(c) by {
        if has_symbol(entries, c) {
            lemma_has_symbol_permuted(entries, tree.leaves(), c);
        }
        if has_symbol(tree.leaves(), c) {
            lemma_has_symbol_permuted(tree.leaves(), entries, c);
        }
    }
}

} // verus!
