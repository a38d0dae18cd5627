use crate::code_table::is_prefix;
use crate::placement::two_to;
use vstd::prelude::*;

verus! {

/// No word is the beginning of another word, or equal to it.
pub open spec fn prefix_free_words(words: Seq<Seq<bool>>) -> bool {
    forall|i: int, j: int|
        0 <= i < words.len() && 0 <= j < words.len() && i != j ==> !is_prefix(
            #[trigger] words[i],
            #[trigger] words[j],
        )
}

/// No word is longer than `h`.
pub open spec fn words_within(words: Seq<Seq<bool>>, h: nat) -> bool {
    forall|i: int| 0 <= i < words.len() ==> (#[trigger] words[i]).len() <= h
}

/// The room that the words take up in the level `h` of a binary tree: a
/// word of length `n` covers two to the `h - n` places of that level.
pub open spec fn words_room(words: Seq<Seq<bool>>, h: nat) -> nat
    decreases words.len(),
{
    if words.len() == 0 {
        0
    } else {
        words_room(words.drop_last(), h) + two_to((h - words.last().len()) as nat)
    }
}

/// The words that begin with `bit`, each without that bit.
pub open spec fn branch(words: Seq<Seq<bool>>, bit: bool) -> Seq<Seq<bool>>
    decreases words.len(),
{
    if words.len() == 0 {
        Seq::empty()
    } else if words.last().len() > 0 && words.last()[0] == bit {
        branch(words.drop_last(), bit).push(words.last().drop_first())
    } else {
        branch(words.drop_last(), bit)
    }
}

/// Two words with the same first bit, one of which begins the other once
/// that bit is taken off, begin one another as they are.
pub proof fn lemma_prefix_tail(a: Seq<bool>, b: Seq<bool>)
    requires
        a.len() > 0,
        b.len() > 0,
        a[0] == b[0],
        is_prefix(a.drop_first(), b.drop_first()),
    ensures
        is_prefix(a, b),
{
    let ta = a.drop_first();
    let tb = b.drop_first();
    assert forall|k: int| 0 <= k < a.len() implies b.take(a.len() as int)[k] == a[k] by {
        if k > 0 {
            assert(tb.take(ta.len() as int)[k - 1] == ta[k - 1]);
        }
    }
    assert(b.take(a.len() as int) =~= a);
}

/// `tail` is what follows the first bit of one of the words that begin
/// with `bit`.
pub open spec fn follows(words: Seq<Seq<bool>>, bit: bool, tail: Seq<bool>) -> bool {
    exists|i: int|
        0 <= i < words.len() && (#[trigger] words[i]).len() > 0 && words[i][0] == bit
            && words[i].drop_first() == tail
}

/// The words of a branch of prefix-free words are prefix-free, each is what
/// follows the first bit of one of the words, and none is as long as the
/// longest word may be.
pub proof fn lemma_branch(words: Seq<Seq<bool>>, bit: bool, h: nat)
    requires
        prefix_free_words(words),
        words_within(words, h),
    ensures
        prefix_free_words(branch(words, bit)),
        forall|k: int|
            0 <= k < branch(words, bit).len() ==> follows(
                words,
                bit,
                #[trigger] branch(words, bit)[k],
            ),
        h >= 1 ==> words_within(branch(words, bit), (h - 1) as nat),
    decreases words.len(),
{
    if words.len() > 0 {
        let front = words.drop_last();
        let last = words.last();
        let n = words.len() - 1;
        lemma_branch(front, bit, h);
        let before = branch(front, bit);
        let after = branch(words, bit);
        assert forall|k: int| 0 <= k < before.len() implies follows(
            words,
            bit,
            #[trigger] before[k],
        ) by {
            assert(follows(front, bit, before[k]));
        }
        if last.len() > 0 && last[0] == bit {
            assert forall|k: int, l: int|
                0 <= k < after.len() && 0 <= l < after.len() && k != l implies !is_prefix(
                #[trigger] after[k],
                #[trigger] after[l],
            ) by {
                if !(k < before.len() && l < before.len()) {
                    let m = if k < before.len() {
                        k
                    } else {
                        l
                    };
                    let i = choose|i: int|
                        0 <= i < front.len() && (#[trigger] front[i]).len() > 0 && front[i][0]
                            == bit && front[i].drop_first() == before[m];
                    if is_prefix(after[k], after[l]) {
                        if k < before.len() {
                            lemma_prefix_tail(words[i], words[n]);
                        } else {
                            lemma_prefix_tail(words[n], words[i]);
                        }
                    }
                }
            }
        }
    }
}

/// Words of at least one bit take up the room that their two branches take
/// up one level higher.
pub proof fn lemma_branch_room(words: Seq<Seq<bool>>, h: nat)
    requires
        h >= 1,
        words_within(words, h),
        forall|i: int| 0 <= i < words.len() ==> (#[trigger] words[i]).len() > 0,
    ensures
        words_room(words, h) == words_room(branch(words, false), (h - 1) as nat) + words_room(
            branch(words, true),
            (h - 1) as nat,
        ),
    decreases words.len(),
{
    if words.len() > 0 {
        let front = words.drop_last();
        let last = words.last();
        lemma_branch_room(front, h);
        let bit = last[0];
        let grown = branch(front, bit).push(last.drop_first());
        assert(grown.drop_last() =~= branch(front, bit));
    }
}

/// Prefix-free words take up no more room than a level has.
pub proof fn lemma_kraft(words: Seq<Seq<bool>>, h: nat)
    requires
        prefix_free_words(words),
        words_within(words, h),
    ensures
        words_room(words, h) <= two_to(h),
    decreases h,
{
    if words.len() == 0 {
        // no word, no room taken
    } else if exists|i: int| 0 <= i < words.len() && (#[trigger] words[i]).len() == 0 {
        let i = choose|i: int| 0 <= i < words.len() && (#[trigger] words[i]).len() == 0;
        if words.len() > 1 {
            let j = if i == 0 {
                1int
            } else {
                0int
            };
            assert(words[j].take(0) =~= words[i]);
        }
        assert(words_room(words.drop_last(), h) == 0);
    } else {
        lemma_branch(words, false, h);
        lemma_branch(words, true, h);
        lemma_branch_room(words, h);
        lemma_kraft(branch(words, false), (h - 1) as nat);
        lemma_kraft(branch(words, true), (h - 1) as nat);
    }
}

} // verus!
