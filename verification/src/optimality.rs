use crate::code_table::{code_bits, prefix_free};
use crate::encode::{encoded_stream, lemma_own_table_knows};
use crate::frequency::{count_in, lemma_count_bound, lemma_tally, tally, total_weight};
use crate::generate_huffman_codes::{code_map, lemma_code_map_paths};
use crate::helpers::{all_known, stream_of};
use crate::huffman::{
    all_well_formed, enqueue, huffman, join, leaf_of, leaf_queue, lemma_huffman_leaves,
    lemma_leaf_queue, lemma_merge_step, lemma_slot_for, merge_all, queue_weight, slot_for, Tree,
};
use crate::kraft::{lemma_kraft, words_room};
use crate::placement::{
    deepest, greedy_cost, joined, kraft_sum, lemma_deepest, lemma_enter_sorted, lemma_greedy_least,
    placed_cost, slot_of, sorted, two_to, weights_of, within,
};
use crate::symbols::{
    distinct_symbols, has_symbol, lemma_distinct_concat, lemma_position_is, lemma_position_of,
    position_of, put,
};
use vstd::prelude::*;

verus! {

/// The weighted path length of a tree: the weight of each leaf times its
/// depth, added up. Every inner node adds the weight of all leaves below
/// it, as each of them lies one level deeper for it.
pub open spec fn path_cost<T>(tree: Tree<T>) -> nat
    decreases tree,
{
    match tree {
        Tree::Leaf { .. } => 0,
        Tree::Node { left, right, .. } => path_cost(*left) + path_cost(*right)
            + left.leaf_weight() + right.leaf_weight(),
    }
}

/// The number of levels below the root of a tree.
pub open spec fn height<T>(tree: Tree<T>) -> nat
    decreases tree,
{
    match tree {
        Tree::Leaf { .. } => 0,
        Tree::Node { left, right, .. } => 1 + if height(*left) > height(*right) {
            height(*left)
        } else {
            height(*right)
        },
    }
}

/// The leaves of a tree whose root lies at depth `d`, from left to right,
/// each as (weight, depth).
pub open spec fn placed<T>(tree: Tree<T>, d: nat) -> Seq<(nat, nat)>
    decreases tree,
{
    match tree {
        Tree::Leaf { freq, .. } => seq![(freq as nat, d)],
        Tree::Node { left, right, .. } => placed(*left, d + 1) + placed(*right, d + 1),
    }
}

/// The weights of a list of entries.
pub open spec fn entry_weights<T>(entries: Seq<(T, u64)>) -> Seq<nat> {
    Seq::new(entries.len(), |i: int| entries[i].1 as nat)
}

/// The weights at the roots of the trees of a queue.
pub open spec fn root_weights<T>(queue: Seq<Tree<T>>) -> Seq<nat> {
    Seq::new(queue.len(), |i: int| queue[i].weight())
}

/// The weighted path lengths of the trees of a queue, added up.
pub open spec fn forest_cost<T>(queue: Seq<Tree<T>>) -> nat
    decreases queue.len(),
{
    if queue.len() == 0 {
        0
    } else {
        forest_cost(queue.drop_last()) + path_cost(queue.last())
    }
}

/// Two lists of leaves put together cost and fill what both do.
pub proof fn lemma_placed_concat(a: Seq<(nat, nat)>, b: Seq<(nat, nat)>, h: nat)
    ensures
        placed_cost(a + b) == placed_cost(a) + placed_cost(b),
        kraft_sum(a + b, h) == kraft_sum(a, h) + kraft_sum(b, h),
    decreases b.len(),
{
    if !(b.len() == 0) {
        lemma_placed_concat(a, b.drop_last(), h);
        assert((a + b).drop_last() =~= a + b.drop_last());
    }
}

/// Two subtrees, each one level deeper than the tree, cost together what
/// the tree costs at its own level.
proof fn lemma_level_shift(cost: nat, d: nat, w1: nat, cost2: nat, w2: nat)
    ensures
        (cost + (d + 1) * w1) + (cost2 + (d + 1) * w2) == (cost + cost2 + w1 + w2) + d * (w1 + w2),
{
    assert((d + 1) * w1 + (d + 1) * w2 == w1 + w2 + d * (w1 + w2)) by (nonlinear_arith);
}

/// The leaves of a tree, listed with their depths, have the weights of its
/// leaves, cost its weighted path length and as much again for every level
/// that the root lies deep, and fill every level that they reach.
pub proof fn lemma_placed<T>(tree: Tree<T>, d: nat, h: nat)
    requires
        d + height(tree) <= h,
    ensures
        weights_of(placed(tree, d)) == entry_weights(tree.leaves()),
        placed_cost(placed(tree, d)) == path_cost(tree) + d * tree.leaf_weight(),
        within(placed(tree, d), h),
        kraft_sum(placed(tree, d), h) == two_to((h - d) as nat),
    decreases tree,
{
    match tree {
        Tree::Leaf { char, freq } => {
            let one = placed(tree, d);
            assert(placed_cost(one.drop_last()) == 0);
            assert(kraft_sum(one.drop_last(), h) == 0);
            assert((freq as nat) * d == d * (freq as nat)) by (nonlinear_arith);
        },
        Tree::Node { left, right, .. } => {
            lemma_placed(*left, d + 1, h);
            lemma_placed(*right, d + 1, h);
            let l = placed(*left, d + 1);
            let r = placed(*right, d + 1);
            lemma_placed_concat(l, r, h);
            lemma_level_shift(
                path_cost(*left),
                d,
                left.leaf_weight(),
                path_cost(*right),
                right.leaf_weight(),
            );
            assert(weights_of(l + r) =~= entry_weights(left.leaves() + right.leaves())) by {
                assert(entry_weights(left.leaves() + right.leaves()) =~= entry_weights(
                    left.leaves(),
                ) + entry_weights(right.leaves()));
            }
        },
    }
}

/// The root of a well-formed tree weighs as much as its leaves.
pub proof fn lemma_root_weight<T>(tree: Tree<T>)
    requires
        tree.well_formed(),
    ensures
        tree.weight() == tree.leaf_weight(),
    decreases tree,
{
    match tree {
        Tree::Leaf { .. } => {},
        Tree::Node { left, right, .. } => {
            lemma_root_weight(*left);
            lemma_root_weight(*right);
        },
    }
}

/// A tree enters a queue where its weight enters the weights of the queue.
pub proof fn lemma_same_slot<T>(queue: Seq<Tree<T>>, w: nat)
    ensures
        slot_for(queue, w) == slot_of(root_weights(queue), w),
    decreases queue.len(),
{
    if queue.len() > 0 {
        if queue[0].weight() <= w {
            lemma_same_slot(queue.drop_first(), w);
            assert(root_weights(queue.drop_first()) =~= root_weights(queue).drop_first());
        }
    }
}

/// Entering a tree adds its weighted path length to that of the queue.
pub proof fn lemma_forest_insert<T>(queue: Seq<Tree<T>>, at: int, t: Tree<T>)
    requires
        0 <= at <= queue.len(),
    ensures
        forest_cost(queue.insert(at, t)) == forest_cost(queue) + path_cost(t),
    decreases queue.len(),
{
    let after = queue.insert(at, t);
    if at == queue.len() {
        assert(after.drop_last() =~= queue);
    } else {
        assert(after.drop_last() =~= queue.drop_last().insert(at, t));
        lemma_forest_insert(queue.drop_last(), at, t);
    }
}

/// Taking the head off a queue takes its weighted path length off.
pub proof fn lemma_forest_head<T>(queue: Seq<Tree<T>>)
    requires
        queue.len() > 0,
    ensures
        forest_cost(queue) == path_cost(queue[0]) + forest_cost(queue.drop_first()),
    decreases queue.len(),
{
    if queue.len() == 1 {
        assert(queue.drop_last() =~= queue.drop_first());
    } else {
        lemma_forest_head(queue.drop_last());
        assert(queue.drop_last().drop_first() =~= queue.drop_first().drop_last());
    }
}

/// The tree that the construction makes of a queue costs what the trees of
/// the queue cost, and what joining their weights costs.
pub proof fn lemma_merge_cost<T>(queue: Seq<Tree<T>>)
    requires
        queue.len() >= 1,
        all_well_formed(queue),
        queue_weight(queue) <= u64::MAX,
    ensures
        path_cost(merge_all(queue)) == forest_cost(queue) + greedy_cost(root_weights(queue)),
    decreases queue.len(),
{
    if queue.len() == 1 {
        assert(forest_cost(queue.drop_last()) == 0);
    } else {
        let a = queue[0];
        let b = queue[1];
        let rest = queue.skip(2);
        let node = join(a, b);
        let next = enqueue(rest, node);
        lemma_merge_step(queue);
        lemma_merge_cost(next);
        lemma_forest_head(queue);
        lemma_forest_head(queue.drop_first());
        assert(queue.drop_first().drop_first() =~= rest);
        lemma_slot_for(rest, node.weight());
        lemma_forest_insert(rest, slot_for(rest, node.weight()), node);
        lemma_root_weight(a);
        lemma_root_weight(b);
        lemma_same_slot(rest, node.weight());
        let ws = root_weights(queue);
        assert(root_weights(rest) =~= ws.skip(2));
        assert(root_weights(next) =~= joined(ws));
    }
}

/// The queue that the construction starts from holds the weights of the
/// table in rising order, and costs nothing yet.
pub proof fn lemma_leaf_queue_weights<T>(entries: Seq<(T, u64)>)
    ensures
        sorted(root_weights(leaf_queue(entries))),
        root_weights(leaf_queue(entries)).to_multiset() == entry_weights(entries).to_multiset(),
        forest_cost(leaf_queue(entries)) == 0,
    decreases entries.len(),
{
    broadcast use vstd::seq_lib::group_to_multiset_ensures;

    if !(entries.len() == 0) {
        let front = entries.drop_last();
        let before = leaf_queue(front);
        let leaf = leaf_of(entries.last());
        let w = leaf.weight();
        lemma_leaf_queue_weights(front);
        lemma_same_slot(before, w);
        lemma_slot_for(before, w);
        lemma_enter_sorted(root_weights(before), w);
        lemma_forest_insert(before, slot_for(before, w), leaf);
        let at = slot_for(before, w);
        assert(root_weights(enqueue(before, leaf)) =~= root_weights(before).insert(at, w));
        assert(entry_weights(entries) =~= entry_weights(front).push(w));
    }
}

/// Optimality: the tree of a frequency table has the least weighted path
/// length of all trees whose leaves weigh what the entries of the table
/// weigh.
pub proof fn lemma_huffman_optimal<T>(entries: Seq<(T, u64)>, other: Tree<T>)
    requires
        entries.len() >= 1,
        total_weight(entries) <= u64::MAX,
        entry_weights(other.leaves()).to_multiset() == entry_weights(entries).to_multiset(),
    ensures
        path_cost(huffman(entries)) <= path_cost(other),
{
    let queue = leaf_queue(entries);
    lemma_leaf_queue(entries);
    lemma_leaf_queue_weights(entries);
    lemma_merge_cost(queue);
    let h = height(other);
    lemma_placed(other, 0, h);
    lemma_greedy_least(root_weights(queue), placed(other, 0), h);
}

/// What a table's codes cost on a list of counted symbols: for each entry
/// its count times the length of its symbol's code, added up.
pub open spec fn code_cost(table: Map<char, Seq<char>>, entries: Seq<(char, u64)>) -> nat
    decreases entries.len(),
{
    if entries.len() == 0 {
        0
    } else {
        code_cost(table, entries.drop_last()) + table[entries.last().0].len()
            * entries.last().1 as nat
    }
}

/// Two lists put together cost what both cost.
pub proof fn lemma_code_cost_concat(
    table: Map<char, Seq<char>>,
    a: Seq<(char, u64)>,
    b: Seq<(char, u64)>,
)
    ensures
        code_cost(table, a + b) == code_cost(table, a) + code_cost(table, b),
    decreases b.len(),
{
    if !(b.len() == 0) {
        lemma_code_cost_concat(table, a, b.drop_last());
        assert((a + b).drop_last() =~= a + b.drop_last());
    }
}

/// Two tables that give the symbols of a list the same codes cost the same
/// on it.
pub proof fn lemma_code_cost_agree(
    one: Map<char, Seq<char>>,
    two: Map<char, Seq<char>>,
    entries: Seq<(char, u64)>,
)
    requires
        forall|i: int| 0 <= i < entries.len() ==> one[(#[trigger] entries[i]).0] == two[entries[i].0],
    ensures
        code_cost(one, entries) == code_cost(two, entries),
    decreases entries.len(),
{
    if entries.len() > 0 {
        let front = entries.drop_last();
        lemma_code_cost_agree(one, two, front);
    }
}

/// The codes of a tree that holds no symbol twice cost, on the leaves of
/// the tree, its weighted path length, and the weight of the leaves once
/// more for every step of the path down to the tree.
pub proof fn lemma_code_cost(tree: Tree<char>, prefix: Seq<char>)
    requires
        distinct_symbols(tree.leaves()),
    ensures
        code_cost(code_map(tree, prefix), tree.leaves()) == path_cost(tree) + prefix.len()
            * tree.leaf_weight(),
    decreases tree,
{
    match tree {
        Tree::Leaf { char, freq } => {
            let one = tree.leaves();
            assert(code_cost(code_map(tree, prefix), one.drop_last()) == 0);
        },
        Tree::Node { left, right, .. } => {
            let zero = prefix.push('0');
            let one = prefix.push('1');
            let l = code_map(*left, zero);
            let r = code_map(*right, one);
            let m = code_map(tree, prefix);
            let ll = left.leaves();
            let rl = right.leaves();
            lemma_distinct_concat(ll, rl);
            lemma_code_cost(*left, zero);
            lemma_code_cost(*right, one);
            lemma_code_map_paths(*left, zero);
            lemma_code_map_paths(*right, one);
            lemma_code_cost_concat(m, ll, rl);
            lemma_code_cost_agree(m, l, ll);
            lemma_code_cost_agree(m, r, rl);
            lemma_level_shift(
                path_cost(*left),
                prefix.len(),
                left.leaf_weight(),
                path_cost(*right),
                right.leaf_weight(),
            );
        },
    }
}

/// Putting a count changes the cost by the code length times the
/// difference to the old count.
pub proof fn lemma_put_cost(
    table: Map<char, Seq<char>>,
    entries: Seq<(char, u64)>,
    c: char,
    v: u64,
)
    ensures
        code_cost(table, put(entries, c, v)) + table[c].len() * count_in(entries, c) == code_cost(
            table,
            entries,
        ) + table[c].len() * v as nat,
    decreases entries.len(),
{
    lemma_position_of(entries, c);
    let at = position_of(entries, c);
    let after = put(entries, c, v);
    if at >= entries.len() {
        assert(after.drop_last() =~= entries);
        assert(table[c].len() * 0 == 0) by (nonlinear_arith);
    } else if at == entries.len() - 1 {
        assert(after.drop_last() =~= entries.drop_last());
    } else {
        let front = entries.drop_last();
        lemma_position_is(front, c, at);
        lemma_put_cost(table, front, c, v);
        assert(after.drop_last() =~= put(front, c, v));
    }
}

/// One more occurrence costs one more code length.
proof fn lemma_one_more(n: nat, k: nat)
    ensures
        n * (k + 1) == n * k + n,
{
    assert(n * (k + 1) == n * k + n) by (nonlinear_arith);
}

/// The bit stream of a text is as long as the codes cost on the text's
/// frequency table: for each symbol the number of its occurrences times the
/// length of its code.
pub proof fn lemma_stream_cost(table: Map<char, Seq<char>>, symbols: Seq<char>)
    requires
        all_known(table, symbols),
        symbols.len() <= u64::MAX,
    ensures
        stream_of(table, symbols).len() == code_cost(table, tally(symbols)),
    decreases symbols.len(),
{
    if symbols.len() > 0 {
        let front = symbols.drop_last();
        let c = symbols.last();
        lemma_stream_cost(table, front);
        lemma_tally(front);
        let before = tally(front);
        lemma_count_bound(before, c);
        let next = (count_in(before, c) + 1) as u64;
        lemma_put_cost(table, before, c, next);
        lemma_one_more(table[c].len(), count_in(before, c));
    }
}

/// What a table's codes cost does not depend on the order of the entries.
pub proof fn lemma_code_cost_permuted(
    table: Map<char, Seq<char>>,
    a: Seq<(char, u64)>,
    b: Seq<(char, u64)>,
)
    requires
        a.to_multiset() == b.to_multiset(),
    ensures
        code_cost(table, a) == code_cost(table, b),
    decreases a.len(),
{
    broadcast use vstd::seq_lib::group_to_multiset_ensures;

    assert(b.len() == b.to_multiset().len());
    if a.len() > 0 {
        let x = a.last();
        let front = a.drop_last();
        assert(b.to_multiset().count(x) > 0);
        let j = choose|j: int| 0 <= j < b.len() && b[j] == x;
        let rest = b.remove(j);
        assert(front.to_multiset() =~= a.to_multiset().remove(x)) by {
            assert(a.remove(a.len() - 1) =~= front);
        }
        lemma_code_cost_permuted(table, front, rest);
        lemma_code_cost_without(table, b, j);
    }
}

/// Taking one entry out takes its share out of the cost.
pub proof fn lemma_code_cost_without(
    table: Map<char, Seq<char>>,
    entries: Seq<(char, u64)>,
    i: int,
)
    requires
        0 <= i < entries.len(),
    ensures
        code_cost(table, entries) == code_cost(table, entries.remove(i)) + table[entries[i].0].len()
            * entries[i].1 as nat,
    decreases entries.len(),
{
    if !(i == entries.len() - 1) {
        lemma_code_cost_without(table, entries.drop_last(), i);
        assert(entries.remove(i).drop_last() =~= entries.drop_last().remove(i));
    }
}

/// The table has a code for the symbol of every entry.
pub open spec fn knows_all(table: Map<char, Seq<char>>, entries: Seq<(char, u64)>) -> bool {
    forall|i: int| 0 <= i < entries.len() ==> table.contains_key((#[trigger] entries[i]).0)
}

/// The code words that a table gives the symbols of the entries, as bits.
pub open spec fn words_of(table: Map<char, Seq<char>>, entries: Seq<(char, u64)>) -> Seq<
    Seq<bool>,
> {
    Seq::new(entries.len(), |i: int| code_bits(table[entries[i].0]))
}

/// The entries as leaves: each count at the depth that is the length of
/// its symbol's code.
pub open spec fn placed_codes(table: Map<char, Seq<char>>, entries: Seq<(char, u64)>) -> Seq<
    (nat, nat),
> {
    Seq::new(entries.len(), |i: int| (entries[i].1 as nat, table[entries[i].0].len()))
}

/// A count times a length is the length times the count.
proof fn lemma_times_commutes(a: nat, b: nat)
    ensures
        a * b == b * a,
{
    assert(a * b == b * a) by (nonlinear_arith);
}

/// The entries as leaves cost what the codes cost on the entries, and take
/// up the room that the code words take up.
pub proof fn lemma_placed_codes(table: Map<char, Seq<char>>, entries: Seq<(char, u64)>, h: nat)
    ensures
        placed_cost(placed_codes(table, entries)) == code_cost(table, entries),
        kraft_sum(placed_codes(table, entries), h) == words_room(words_of(table, entries), h),
        weights_of(placed_codes(table, entries)) == entry_weights(entries),
    decreases entries.len(),
{
    if entries.len() > 0 {
        let front = entries.drop_last();
        lemma_placed_codes(table, front, h);
        assert(placed_codes(table, entries).drop_last() =~= placed_codes(table, front));
        assert(words_of(table, entries).drop_last() =~= words_of(table, front));
        lemma_times_commutes(entries.last().1 as nat, table[entries.last().0].len());
    }
}

/// Optimality of the codes: on a frequency table, the codes of its own tree
/// cost no more than the codes of any prefix-free table that has a code for
/// each of its symbols. So they reach the least that a prefix code can
/// reach, and that is the weighted path length of the tree.
pub proof fn lemma_prefix_code_cost(entries: Seq<(char, u64)>, table: Map<char, Seq<char>>)
    requires
        entries.len() >= 1,
        distinct_symbols(entries),
        total_weight(entries) <= u64::MAX,
        knows_all(table, entries),
        prefix_free(table),
    ensures
        code_cost(code_map(huffman(entries), Seq::empty()), entries) <= code_cost(table, entries),
        code_cost(code_map(huffman(entries), Seq::empty()), entries) == path_cost(
            huffman(entries),
        ),
{
    let tree = huffman(entries);
    let own = code_map(tree, Seq::empty());
    let leaves = placed_codes(table, entries);
    let words = words_of(table, entries);
    let h = deepest(leaves);
    lemma_deepest(leaves);
    lemma_placed_codes(table, entries, h);
    assert forall|i: int| 0 <= i < words.len() implies (#[trigger] words[i]).len() <= h by {
        assert(leaves[i].1 <= h);
    }
    lemma_kraft(words, h);
    let queue = leaf_queue(entries);
    lemma_leaf_queue(entries);
    lemma_leaf_queue_weights(entries);
    lemma_merge_cost(queue);
    lemma_greedy_least(root_weights(queue), leaves, h);
    lemma_huffman_leaves(entries);
    lemma_code_cost(tree, Seq::empty());
    lemma_code_cost_permuted(own, entries, tree.leaves());
}

/// Optimality of what is written: a text of two or more distinct symbols
/// takes no more bits with its own code table than with any prefix-free
/// table that has a code for each of its symbols.
pub proof fn lemma_stream_least(symbols: Seq<char>, table: Map<char, Seq<char>>)
    requires
        symbols.len() <= u64::MAX,
        tally(symbols).len() >= 2,
        all_known(table, symbols),
        prefix_free(table),
    ensures
        encoded_stream(symbols).len() <= stream_of(table, symbols).len(),
        encoded_stream(symbols).len() == path_cost(huffman(tally(symbols))),
{
    broadcast use vstd::seq_lib::group_to_multiset_ensures;

    let entries = tally(symbols);
    let tree = huffman(entries);
    let own = code_map(tree, Seq::empty());
    lemma_tally(symbols);
    lemma_huffman_leaves(entries);
    assert(entries.len() == entries.to_multiset().len());
    assert(tree is Node);
    lemma_own_table_knows(symbols);
    assert forall|i: int| 0 <= i < entries.len() implies table.contains_key(
        (#[trigger] entries[i]).0,
    ) by {
        assert(has_symbol(entries, entries[i].0));
    }
    lemma_stream_cost(own, symbols);
    lemma_stream_cost(table, symbols);
    lemma_prefix_code_cost(entries, table);
}

} // verus!
