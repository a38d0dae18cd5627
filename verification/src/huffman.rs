use crate::error::CodecError;
use crate::frequency::{total_weight, FrequencyTable};
use crate::optimality::{entry_weights, lemma_huffman_optimal, path_cost};
use crate::symbols::{distinct_symbols, lemma_distinct_permuted};
use vstd::multiset::Multiset;
use vstd::prelude::*;

verus! {

/// A prefix-code tree: a leaf carries a symbol and its weight, an internal
/// node carries the combined weight of its two subtrees.
#[derive(Debug, PartialEq, Eq)]
pub enum Tree<T> {
    Leaf { char: T, freq: u64 },
    Node { freq: u64, left: Box<Tree<T>>, right: Box<Tree<T>> },
}

impl<T> Tree<T> {
    /// The weight recorded at the root of this tree.
    pub open spec fn weight(self) -> nat {
        match self {
            Tree::Leaf { freq, .. } => freq as nat,
            Tree::Node { freq, .. } => freq as nat,
        }
    }

    /// The sum of the weights of all leaves below this tree.
    pub open spec fn leaf_weight(self) -> nat
        decreases self,
    {
        match self {
            Tree::Leaf { freq, .. } => freq as nat,
            Tree::Node { left, right, .. } => left.leaf_weight() + right.leaf_weight(),
        }
    }

    /// Every internal node records the sum of its children's weights.
    pub open spec fn well_formed(self) -> bool
        decreases self,
    {
        match self {
            Tree::Leaf { .. } => true,
            Tree::Node { freq, left, right } => {
                &&& left.well_formed()
                &&& right.well_formed()
                &&& freq as nat == left.weight() + right.weight()
            },
        }
    }

    /// The leaves of the tree from left to right, each as (symbol, weight).
    pub open spec fn leaves(self) -> Seq<(T, u64)>
        decreases self,
    {
        match self {
            Tree::Leaf { char, freq } => seq![(char, freq)],
            Tree::Node { left, right, .. } => left.leaves() + right.leaves(),
        }
    }
}

impl<T: Clone> Tree<T> {
    /// The weight at the root of the tree.
    pub fn freq(&self) -> (w: u64)
        ensures
            w as nat == self.weight(),
    {
        match self {
            Tree::Leaf { freq, .. } => *freq,
            Tree::Node { freq, .. } => *freq,
        }
    }

    /// The symbol of a leaf; an inner node has none.
    pub fn char(&self) -> (symbol: Option<T>)
        ensures
            self is Leaf <==> symbol is Some,
            self is Leaf ==> cloned(self->char, symbol->0),
    {
        match self {
            Tree::Leaf { char, .. } => Some(char.clone()),
            Tree::Node { .. } => None,
        }
    }

    /// The left subtree of an inner node; a leaf has none.
    pub fn left(&self) -> (child: Option<&Tree<T>>)
        ensures
            child == (match *self {
                Tree::Node { left, .. } => Some(&*left),
                Tree::Leaf { .. } => None,
            }),
    {
        match self {
            Tree::Node { left, .. } => Some(left),
            Tree::Leaf { .. } => None,
        }
    }

    /// The right subtree of an inner node; a leaf has none.
    pub fn right(&self) -> (child: Option<&Tree<T>>)
        ensures
            child == (match *self {
                Tree::Node { right, .. } => Some(&*right),
                Tree::Leaf { .. } => None,
            }),
    {
        match self {
            Tree::Node { right, .. } => Some(right),
            Tree::Leaf { .. } => None,
        }
    }
}

/// The tree that joins `a` and `b` under a new root: `a` to the left, `b` to
/// the right, the root weighing as much as both.
pub open spec fn join<T>(a: Tree<T>, b: Tree<T>) -> Tree<T> {
    Tree::Node { freq: (a.weight() + b.weight()) as u64, left: Box::new(a), right: Box::new(b) }
}

/// The leaf that stands for one entry of a frequency table.
pub open spec fn leaf_of<T>(entry: (T, u64)) -> Tree<T> {
    Tree::Leaf { char: entry.0, freq: entry.1 }
}

/// Where a tree of weight `w` enters a queue: before the first tree that
/// weighs more, so behind every tree of the same weight.
pub open spec fn slot_for<T>(queue: Seq<Tree<T>>, w: nat) -> int
    decreases queue.len(),
{
    if queue.len() == 0 {
        0
    } else if queue[0].weight() > w {
        0
    } else {
        1 + slot_for(queue.drop_first(), w)
    }
}

/// The queue with `t` entered at its slot.
pub open spec fn enqueue<T>(queue: Seq<Tree<T>>, t: Tree<T>) -> Seq<Tree<T>> {
    queue.insert(slot_for(queue, t.weight()), t)
}

/// The queue that the construction starts from: one leaf per entry, each
/// entered in turn.
pub open spec fn leaf_queue<T>(entries: Seq<(T, u64)>) -> Seq<Tree<T>>
    decreases entries.len(),
{
    if entries.len() == 0 {
        Seq::empty()
    } else {
        enqueue(leaf_queue(entries.drop_last()), leaf_of(entries.last()))
    }
}

/// Joins the two trees at the head of the queue and enters the result, until
/// one tree is left.
pub open spec fn merge_all<T>(queue: Seq<Tree<T>>) -> Tree<T>
    recommends
        queue.len() > 0,
    decreases queue.len(),
{
    if queue.len() <= 1 {
        queue[0]
    } else {
        proof {
            lemma_slot_for(queue.skip(2), join(queue[0], queue[1]).weight());
        }
        merge_all(enqueue(queue.skip(2), join(queue[0], queue[1])))
    }
}

/// The prefix-code tree of a frequency table.
pub open spec fn huffman<T>(entries: Seq<(T, u64)>) -> Tree<T>
    recommends
        entries.len() > 0,
{
    merge_all(leaf_queue(entries))
}

/// The sum of the root weights of the trees in a queue.
pub open spec fn queue_weight<T>(queue: Seq<Tree<T>>) -> nat
    decreases queue.len(),
{
    if queue.len() == 0 {
        0
    } else {
        queue_weight(queue.drop_last()) + queue.last().weight()
    }
}

/// All leaves below the trees of a queue.
pub open spec fn queue_leaves<T>(queue: Seq<Tree<T>>) -> Multiset<(T, u64)>
    decreases queue.len(),
{
    if queue.len() == 0 {
        Multiset::empty()
    } else {
        queue_leaves(queue.drop_last()).add(queue.last().leaves().to_multiset())
    }
}

/// Every tree of the queue is well formed.
pub open spec fn all_well_formed<T>(queue: Seq<Tree<T>>) -> bool {
    forall|i: int| 0 <= i < queue.len() ==> (#[trigger] queue[i]).well_formed()
}

/// The slot lies within the queue, behind trees that weigh at most `w` and
/// before one that weighs more.
pub proof fn lemma_slot_for<T>(queue: Seq<Tree<T>>, w: nat)
    ensures
        0 <= slot_for(queue, w) <= queue.len(),
        forall|j: int| 0 <= j < slot_for(queue, w) ==> (#[trigger] queue[j]).weight() <= w,
        slot_for(queue, w) < queue.len() ==> queue[slot_for(queue, w)].weight() > w,
    decreases queue.len(),
{
    if queue.len() > 0 && queue[0].weight() <= w {
        let rest = queue.drop_first();
        lemma_slot_for(rest, w);
        let at = slot_for(rest, w);
        assert forall|j: int| 0 <= j < 1 + at implies (#[trigger] queue[j]).weight() <= w by {
            if j > 0 {
                assert(queue[j] == rest[j - 1]);
            }
        }
    }
}

/// A position behind trees that weigh at most `w` and before one that weighs
/// more is the slot.
pub proof fn lemma_slot_is<T>(queue: Seq<Tree<T>>, w: nat, at: int)
    requires
        0 <= at <= queue.len(),
        forall|j: int| 0 <= j < at ==> (#[trigger] queue[j]).weight() <= w,
        at < queue.len() ==> queue[at].weight() > w,
    ensures
        slot_for(queue, w) == at,
{
    lemma_slot_for(queue, w);
}

/// Entering a tree adds its weight and its leaves to those of the queue.
pub proof fn lemma_insert_totals<T>(queue: Seq<Tree<T>>, at: int, t: Tree<T>)
    requires
        0 <= at <= queue.len(),
    ensures
        queue_weight(queue.insert(at, t)) == queue_weight(queue) + t.weight(),
        queue_leaves(queue.insert(at, t)) =~= queue_leaves(queue).add(t.leaves().to_multiset()),
    decreases queue.len(),
{
    let after = queue.insert(at, t);
    if at == queue.len() {
        assert(after.drop_last() =~= queue);
    } else {
        assert(after.drop_last() =~= queue.drop_last().insert(at, t));
        lemma_insert_totals(queue.drop_last(), at, t);
    }
}

/// Taking the head off a queue takes its weight and its leaves off.
pub proof fn lemma_head_totals<T>(queue: Seq<Tree<T>>)
    requires
        queue.len() > 0,
    ensures
        queue_weight(queue) == queue[0].weight() + queue_weight(queue.drop_first()),
        queue_leaves(queue) =~= queue[0].leaves().to_multiset().add(
            queue_leaves(queue.drop_first()),
        ),
    decreases queue.len(),
{
    if queue.len() == 1 {
        assert(queue.drop_last() =~= queue.drop_first());
    } else {
        lemma_head_totals(queue.drop_last());
        assert(queue.drop_last().drop_first() =~= queue.drop_first().drop_last());
    }
}

/// One step of the construction shortens the queue by one and keeps its
/// leaves.
pub proof fn lemma_merge_step_leaves<T>(queue: Seq<Tree<T>>)
    requires
        queue.len() >= 2,
    ensures
        enqueue(queue.skip(2), join(queue[0], queue[1])).len() == queue.len() - 1,
        queue_leaves(enqueue(queue.skip(2), join(queue[0], queue[1]))) =~= queue_leaves(queue),
{
    let a = queue[0];
    let b = queue[1];
    let rest = queue.skip(2);
    let node = join(a, b);
    lemma_head_totals(queue);
    lemma_head_totals(queue.drop_first());
    assert(queue.drop_first().drop_first() =~= rest);
    lemma_slot_for(rest, node.weight());
    lemma_insert_totals(rest, slot_for(rest, node.weight()), node);
    vstd::seq_lib::lemma_multiset_commutative(a.leaves(), b.leaves());
}

/// One step of the construction keeps the queue's weight and
/// well-formedness, as long as the weight fits in a `u64`.
pub proof fn lemma_merge_step<T>(queue: Seq<Tree<T>>)
    requires
        queue.len() >= 2,
        all_well_formed(queue),
        queue_weight(queue) <= u64::MAX,
    ensures
        queue[0].weight() + queue[1].weight() <= queue_weight(queue),
        join(queue[0], queue[1]).well_formed(),
        join(queue[0], queue[1]).weight() == queue[0].weight() + queue[1].weight(),
        enqueue(queue.skip(2), join(queue[0], queue[1])).len() == queue.len() - 1,
        all_well_formed(enqueue(queue.skip(2), join(queue[0], queue[1]))),
        queue_weight(enqueue(queue.skip(2), join(queue[0], queue[1]))) == queue_weight(queue),
{
    let a = queue[0];
    let b = queue[1];
    let rest = queue.skip(2);
    let node = join(a, b);
    lemma_head_totals(queue);
    lemma_head_totals(queue.drop_first());
    assert(queue.drop_first().drop_first() =~= rest);
    let at = slot_for(rest, node.weight());
    lemma_slot_for(rest, node.weight());
    lemma_insert_totals(rest, at, node);
    let after = enqueue(rest, node);
    assert forall|i: int| 0 <= i < after.len() implies (#[trigger] after[i]).well_formed() by {}
}

/// The construction ends in a tree that holds exactly the queue's leaves.
pub proof fn lemma_merge_all_leaves<T>(queue: Seq<Tree<T>>)
    requires
        queue.len() >= 1,
    ensures
        merge_all(queue).leaves().to_multiset() =~= queue_leaves(queue),
    decreases queue.len(),
{
    if queue.len() == 1 {
        assert(queue_leaves(queue.drop_last()) =~= Multiset::empty());
    } else {
        lemma_merge_step_leaves(queue);
        lemma_merge_all_leaves(enqueue(queue.skip(2), join(queue[0], queue[1])));
    }
}

/// The construction ends in a well-formed tree that weighs as much as the
/// queue did, as long as that weight fits in a `u64`.
pub proof fn lemma_merge_all<T>(queue: Seq<Tree<T>>)
    requires
        queue.len() >= 1,
        all_well_formed(queue),
        queue_weight(queue) <= u64::MAX,
    ensures
        merge_all(queue).well_formed(),
        merge_all(queue).weight() == queue_weight(queue),
    decreases queue.len(),
{
    if queue.len() == 1 {
        assert(queue_weight(queue.drop_last()) == 0);
    } else {
        lemma_merge_step(queue);
        lemma_merge_all(enqueue(queue.skip(2), join(queue[0], queue[1])));
    }
}

/// The tree of a table holds exactly the table's entries as its leaves, so
/// one leaf for each symbol of a table that holds no symbol twice.
pub proof fn lemma_huffman_leaves(entries: Seq<(char, u64)>)
    requires
        entries.len() >= 1,
    ensures
        huffman(entries).leaves().to_multiset() == entries.to_multiset(),
        distinct_symbols(entries) ==> distinct_symbols(huffman(entries).leaves()),
{
    lemma_leaf_queue(entries);
    lemma_merge_all_leaves(leaf_queue(entries));
    if distinct_symbols(entries) {
        lemma_distinct_permuted(huffman(entries).leaves(), entries);
    }
}

/// The starting queue holds one well-formed leaf per entry.
pub proof fn lemma_leaf_queue<T>(entries: Seq<(T, u64)>)
    ensures
        leaf_queue(entries).len() == entries.len(),
        all_well_formed(leaf_queue(entries)),
        queue_weight(leaf_queue(entries)) == total_weight(entries),
        queue_leaves(leaf_queue(entries)) =~= entries.to_multiset(),
    decreases entries.len(),
{
    broadcast use vstd::seq_lib::group_to_multiset_ensures;

    if entries.len() > 0 {
        let before = leaf_queue(entries.drop_last());
        let leaf = leaf_of(entries.last());
        lemma_leaf_queue(entries.drop_last());
        let at = slot_for(before, leaf.weight());
        lemma_slot_for(before, leaf.weight());
        lemma_insert_totals(before, at, leaf);
        let after = enqueue(before, leaf);
        assert forall|i: int| 0 <= i < after.len() implies (#[trigger] after[i]).well_formed() by {}
        assert(entries =~= entries.drop_last().push(entries.last()));
        assert(seq![entries.last()].to_multiset() =~= Multiset::singleton(entries.last()));
    }
}

/// Enters `t` into the queue at its slot.
fn enqueue_tree(queue: &mut Vec<Tree<char>>, t: Tree<char>)
    ensures
        final(queue)@ == enqueue(old(queue)@, t),
{
    let w = t.freq();
    let mut at: usize = 0;
    while at < queue.len() && queue[at].freq() <= w
        invariant
            0 <= at <= queue.len(),
            queue@ == old(queue)@,
            w as nat == t.weight(),
            forall|j: int| 0 <= j < at ==> (#[trigger] queue@[j]).weight() <= w,
        decreases queue.len() - at,
    {
        at += 1;
    }
    proof {
        lemma_slot_is(queue@, w as nat, at as int);
    }
    queue.insert(at, t);
}

/// Builds the prefix-code tree of a frequency table: one leaf per symbol,
/// then the two lightest trees joined, the first taken to the left, until
/// one tree is left. Among trees of one weight the one that entered the
/// queue first leaves it first.
///
/// No tree whose leaves weigh what the entries weigh has a smaller weighted
/// path length.
///
/// An empty table has no tree. The counts together must fit in a `u64`, as
/// the root holds their sum.
pub fn huffman_tree(char_map: FrequencyTable) -> (result: Result<Tree<char>, CodecError>)
    requires
        total_weight(char_map@) <= u64::MAX,
    ensures
        result is Err <==> char_map@.len() == 0,
        result matches Err(e) ==> e == CodecError::EmptyInput,
        result matches Ok(tree) ==> {
            &&& tree == huffman(char_map@)
            &&& tree.well_formed()
            &&& tree.weight() == total_weight(char_map@)
            &&& tree.leaves().to_multiset() == char_map@.to_multiset()
            &&& distinct_symbols(tree.leaves())
            &&& forall|other: Tree<char>|
                entry_weights(other.leaves()).to_multiset() == entry_weights(
                    char_map@,
                ).to_multiset() ==> path_cost(tree) <= #[trigger] path_cost(other)
        },
{
    let ghost table = char_map@;
    let entries = char_map.into_entries();
    if entries.len() == 0 {
        return Err(CodecError::EmptyInput);
    }
    let mut queue: Vec<Tree<char>> = Vec::new();
    let mut i: usize = 0;
    while i < entries.len()
        invariant
            0 <= i <= entries.len(),
            queue@ == leaf_queue(entries@.take(i as int)),
        decreases entries.len() - i,
    {
        proof {
            assert(entries@.take(i as int + 1).drop_last() == entries@.take(i as int));
        }
        enqueue_tree(&mut queue, Tree::Leaf { char: entries[i].0, freq: entries[i].1 });
        i += 1;
    }
    proof {
        assert(entries@.take(i as int) == entries@);
        lemma_leaf_queue(entries@);
    }
    while queue.len() > 1
        invariant
            queue@.len() >= 1,
            all_well_formed(queue@),
            queue_weight(queue@) == total_weight(table),
            total_weight(table) <= u64::MAX,
            merge_all(queue@) == huffman(table),
        decreases queue@.len(),
    {
        proof {
            lemma_merge_step(queue@);
        }
        let ghost before = queue@;
        let a = queue.remove(0);
        let b = queue.remove(0);
        let freq = a.freq() + b.freq();
        proof {
            assert(queue@ == before.skip(2));
        }
        enqueue_tree(&mut queue, Tree::Node { freq, left: Box::new(a), right: Box::new(b) });
    }
    proof {
        lemma_merge_all(leaf_queue(table));
        lemma_huffman_leaves(table);
        assert forall|other: Tree<char>|
            entry_weights(other.leaves()).to_multiset() == entry_weights(
                table,
            ).to_multiset() implies path_cost(huffman(table)) <= #[trigger] path_cost(other) by {
            lemma_huffman_optimal(table, other);
        }
    }
    let tree = queue.remove(0);
    Ok(tree)
}

} // verus!
