use vstd::prelude::*;

verus! {

/// Two to the power of `e`.
pub open spec fn two_to(e: nat) -> nat
    decreases e,
{
    if e == 0 {
        1
    } else {
        2 * two_to((e - 1) as nat)
    }
}

/// The weights of a list of leaves, each given as (weight, depth).
pub open spec fn weights_of(leaves: Seq<(nat, nat)>) -> Seq<nat> {
    Seq::new(leaves.len(), |i: int| leaves[i].0)
}

/// The weighted path length of a list of leaves: each weight times its
/// depth, added up.
pub open spec fn placed_cost(leaves: Seq<(nat, nat)>) -> nat
    decreases leaves.len(),
{
    if leaves.len() == 0 {
        0
    } else {
        placed_cost(leaves.drop_last()) + leaves.last().0 * leaves.last().1
    }
}

/// No leaf lies deeper than `h`.
pub open spec fn within(leaves: Seq<(nat, nat)>, h: nat) -> bool {
    forall|i: int| 0 <= i < leaves.len() ==> (#[trigger] leaves[i]).1 <= h
}

/// The share of the level `h` that the leaves take up: a leaf at depth `d`
/// covers two to the `h - d` places of that level.
pub open spec fn kraft_sum(leaves: Seq<(nat, nat)>, h: nat) -> nat
    decreases leaves.len(),
{
    if leaves.len() == 0 {
        0
    } else {
        kraft_sum(leaves.drop_last(), h) + two_to((h - leaves.last().1) as nat)
    }
}

/// The leaves find room in the level `h`, as the code words of a prefix
/// code do.
pub open spec fn fits(leaves: Seq<(nat, nat)>, h: nat) -> bool {
    within(leaves, h) && kraft_sum(leaves, h) <= two_to(h)
}

/// The leaves with every weight set to one: what they cost is the sum of
/// their depths.
pub open spec fn unit(leaves: Seq<(nat, nat)>) -> Seq<(nat, nat)> {
    Seq::new(leaves.len(), |i: int| (1nat, leaves[i].1))
}

/// The depth of the deepest leaf.
pub open spec fn deepest(leaves: Seq<(nat, nat)>) -> nat
    decreases leaves.len(),
{
    if leaves.len() == 0 {
        0
    } else if leaves.last().1 > deepest(leaves.drop_last()) {
        leaves.last().1
    } else {
        deepest(leaves.drop_last())
    }
}

/// The number of leaves at depth `d`.
pub open spec fn count_at(leaves: Seq<(nat, nat)>, d: nat) -> nat
    decreases leaves.len(),
{
    if leaves.len() == 0 {
        0
    } else {
        count_at(leaves.drop_last(), d) + if leaves.last().1 == d {
            1nat
        } else {
            0nat
        }
    }
}

/// A power of two is at least one.
pub proof fn lemma_two_to_pos(e: nat)
    ensures
        two_to(e) >= 1,
    decreases e,
{
    if e > 0 {
        lemma_two_to_pos((e - 1) as nat);
    }
}

/// Taking one leaf out takes its share out of the cost and of the level.
pub proof fn lemma_without(leaves: Seq<(nat, nat)>, i: int, h: nat)
    requires
        0 <= i < leaves.len(),
    ensures
        placed_cost(leaves) == placed_cost(leaves.remove(i)) + leaves[i].0 * leaves[i].1,
        kraft_sum(leaves, h) == kraft_sum(leaves.remove(i), h) + two_to((h - leaves[i].1) as nat),
    decreases leaves.len(),
{
    if !(i == leaves.len() - 1) {
        lemma_without(leaves.drop_last(), i, h);
        assert(leaves.remove(i).drop_last() =~= leaves.drop_last().remove(i));
    }
}

/// No leaf is deeper than the deepest, and some leaf is that deep.
pub proof fn lemma_deepest(leaves: Seq<(nat, nat)>)
    ensures
        within(leaves, deepest(leaves)),
        leaves.len() > 0 ==> exists|i: int|
            0 <= i < leaves.len() && (#[trigger] leaves[i]).1 == deepest(leaves),
    decreases leaves.len(),
{
    if leaves.len() > 0 {
        let front = leaves.drop_last();
        lemma_deepest(front);
        assert forall|i: int| 0 <= i < leaves.len() implies (#[trigger] leaves[i]).1 <= deepest(
            leaves,
        ) by {
            if i < front.len() {
                assert(front[i] == leaves[i]);
            }
        }
    }
}

/// A depth that some leaf has is counted at least once; one counted twice
/// or more is the depth of two leaves.
pub proof fn lemma_count_at(leaves: Seq<(nat, nat)>, d: nat)
    ensures
        (exists|i: int| 0 <= i < leaves.len() && (#[trigger] leaves[i]).1 == d) ==> count_at(
            leaves,
            d,
        ) >= 1,
        count_at(leaves, d) >= 2 ==> exists|p: int, q: int|
            0 <= p < q < leaves.len() && (#[trigger] leaves[p]).1 == d && (#[trigger] leaves[q]).1
                == d,
    decreases leaves.len(),
{
    if leaves.len() > 0 {
        let front = leaves.drop_last();
        lemma_count_at(front, d);
        if exists|i: int| 0 <= i < leaves.len() && (#[trigger] leaves[i]).1 == d {
            let i = choose|i: int| 0 <= i < leaves.len() && (#[trigger] leaves[i]).1 == d;
            if i < front.len() {
                assert(front[i] == leaves[i]);
            }
        }
        if count_at(leaves, d) >= 2 {
            if count_at(front, d) >= 2 {
                let (p, q) = choose|p: int, q: int|
                    0 <= p < q < front.len() && (#[trigger] front[p]).1 == d && (
                    #[trigger] front[q]).1 == d;
            } else {
                if forall|i: int| 0 <= i < front.len() ==> (#[trigger] front[i]).1 != d {
                    lemma_count_none(front, d);
                }
            }
        }
    }
}

/// A depth that no leaf has is counted zero times.
pub proof fn lemma_count_none(leaves: Seq<(nat, nat)>, d: nat)
    requires
        forall|i: int| 0 <= i < leaves.len() ==> (#[trigger] leaves[i]).1 != d,
    ensures
        count_at(leaves, d) == 0,
    decreases leaves.len(),
{
    if leaves.len() > 0 {
        let front = leaves.drop_last();
        lemma_count_none(front, d);
    }
}

/// Every leaf takes up at least one place of the level, and measured at the
/// deepest level the places taken are odd or even as the number of deepest
/// leaves is.
pub proof fn lemma_kraft_parity(leaves: Seq<(nat, nat)>, h: nat)
    requires
        within(leaves, h),
    ensures
        kraft_sum(leaves, h) >= leaves.len(),
        kraft_sum(leaves, h) % 2 == count_at(leaves, h) % 2,
    decreases leaves.len(),
{
    if leaves.len() > 0 {
        let front = leaves.drop_last();
        lemma_kraft_parity(front, h);
        let d = leaves.last().1;
        lemma_two_to_pos((h - d) as nat);
    }
}

/// One level up, the leaves take up half as many places.
pub proof fn lemma_halve(leaves: Seq<(nat, nat)>, h: nat)
    requires
        h >= 1,
        within(leaves, (h - 1) as nat),
    ensures
        kraft_sum(leaves, h) == 2 * kraft_sum(leaves, (h - 1) as nat),
    decreases leaves.len(),
{
    if leaves.len() > 0 {
        let front = leaves.drop_last();
        lemma_halve(front, h);
    }
}

/// Leaves that find room in a level find room in every level between it
/// and their deepest.
pub proof fn lemma_rebase(leaves: Seq<(nat, nat)>, h: nat, d: nat)
    requires
        fits(leaves, h),
        within(leaves, d),
        d <= h,
    ensures
        fits(leaves, d),
    decreases h - d,
{
    if d < h {
        assert forall|i: int| 0 <= i < leaves.len() implies (#[trigger] leaves[i]).1 <= h - 1 by {}
        lemma_halve(leaves, h);
        lemma_rebase(leaves, (h - 1) as nat, d);
    }
}

/// Leaves that find room in a level find room in every deeper level.
pub proof fn lemma_rebase_down(leaves: Seq<(nat, nat)>, d: nat, h: nat)
    requires
        fits(leaves, d),
        d <= h,
    ensures
        fits(leaves, h),
    decreases h - d,
{
    if d < h {
        lemma_halve(leaves, d + 1);
        assert forall|i: int| 0 <= i < leaves.len() implies (#[trigger] leaves[i]).1 <= d + 1 by {}
        lemma_rebase_down(leaves, d + 1, h);
    }
}

/// A leaf costs no more one level higher.
proof fn lemma_shallower(w: nat, d: nat)
    requires
        d >= 1,
    ensures
        w * ((d - 1) as nat) <= w * d,
{
    assert(w * (d - 1) <= w * d) by (nonlinear_arith)
        requires
            d >= 1,
    ;
}

/// Two or more leaves that find room in a level can be placed, none deeper
/// than before and at no cost, so that at least two of them are deepest. A
/// single deepest leaf leaves the place beside it empty, and can go up.
pub proof fn lemma_settle(leaves: Seq<(nat, nat)>, h: nat) -> (settled: Seq<(nat, nat)>)
    requires
        leaves.len() >= 2,
        fits(leaves, h),
    ensures
        settled.len() == leaves.len(),
        weights_of(settled) == weights_of(leaves),
        fits(settled, h),
        placed_cost(settled) <= placed_cost(leaves),
        1 <= deepest(settled) <= h,
        exists|p: int, q: int|
            0 <= p < q < settled.len() && (#[trigger] settled[p]).1 == deepest(settled) && (
            #[trigger] settled[q]).1 == deepest(settled),
    decreases placed_cost(unit(leaves)),
{
    let d = deepest(leaves);
    lemma_deepest(leaves);
    let top = choose|i: int| 0 <= i < leaves.len() && (#[trigger] leaves[i]).1 == d;
    lemma_rebase(leaves, h, d);
    lemma_kraft_parity(leaves, d);
    lemma_count_at(leaves, d);
    if count_at(leaves, d) >= 2 {
        leaves
    } else {
        let raised = leaves.update(top, (leaves[top].0, (d - 1) as nat));
        lemma_replace(leaves, top, (leaves[top].0, (d - 1) as nat), d);
        assert(two_to((d - (d - 1)) as nat) == 2);
        assert(within(raised, d));
        lemma_rebase_down(raised, d, h);
        lemma_shallower(leaves[top].0, d);
        lemma_replace(unit(leaves), top, (1nat, (d - 1) as nat), d);
        assert(unit(raised) =~= unit(leaves).update(top, (1nat, (d - 1) as nat)));
        assert(1 * d == d && 1 * ((d - 1) as nat) == d - 1) by (nonlinear_arith)
            requires
                d >= 1,
        ;
        lemma_settle(raised, h)
    }
}

/// The weights come in rising order.
pub open spec fn sorted(ws: Seq<nat>) -> bool {
    forall|i: int, j: int| 0 <= i <= j < ws.len() ==> ws[i] <= ws[j]
}

/// Where a weight enters a list of weights: before the first that is
/// greater.
pub open spec fn slot_of(ws: Seq<nat>, w: nat) -> int
    decreases ws.len(),
{
    if ws.len() == 0 {
        0
    } else if ws[0] > w {
        0
    } else {
        1 + slot_of(ws.drop_first(), w)
    }
}

/// The list of weights after its first two were joined.
pub open spec fn joined(ws: Seq<nat>) -> Seq<nat>
    recommends
        ws.len() >= 2,
{
    ws.skip(2).insert(slot_of(ws.skip(2), ws[0] + ws[1]), ws[0] + ws[1])
}

/// What joining the first two weights again and again costs, each join as
/// much as the two weigh together.
pub open spec fn greedy_cost(ws: Seq<nat>) -> nat
    decreases ws.len(),
{
    if ws.len() <= 1 {
        0
    } else {
        proof {
            lemma_slot_of(ws.skip(2), ws[0] + ws[1]);
        }
        ws[0] + ws[1] + greedy_cost(joined(ws))
    }
}

/// The slot lies within the list, behind weights that are at most `w` and
/// before one that is greater.
pub proof fn lemma_slot_of(ws: Seq<nat>, w: nat)
    ensures
        0 <= slot_of(ws, w) <= ws.len(),
        forall|j: int| 0 <= j < slot_of(ws, w) ==> ws[j] <= w,
        slot_of(ws, w) < ws.len() ==> ws[slot_of(ws, w)] > w,
    decreases ws.len(),
{
    if ws.len() > 0 && ws[0] <= w {
        let rest = ws.drop_first();
        lemma_slot_of(rest, w);
        let at = slot_of(rest, w);
        assert forall|j: int| 0 <= j < 1 + at implies ws[j] <= w by {
            if j > 0 {
                assert(ws[j] == rest[j - 1]);
            }
        }
    }
}

/// Joining the first two of a rising list leaves a rising list, one
/// shorter, that holds their sum in place of the two.
pub proof fn lemma_joined(ws: Seq<nat>)
    requires
        ws.len() >= 2,
        sorted(ws),
    ensures
        joined(ws).len() == ws.len() - 1,
        sorted(joined(ws)),
        joined(ws).to_multiset() == ws.to_multiset().remove(ws[0]).remove(ws[1]).insert(
            ws[0] + ws[1],
        ),
{
    broadcast use vstd::seq_lib::group_to_multiset_ensures;

    let rest = ws.skip(2);
    let w = ws[0] + ws[1];
    lemma_slot_of(rest, w);
    assert(sorted(rest));
    lemma_enter_sorted(rest, w);
    assert(ws.remove(0) =~= ws.skip(1));
    assert(ws.skip(1).remove(0) =~= rest);
}

/// Setting one leaf anew changes the cost, and the room taken, by what the
/// new leaf adds to it and the old one added.
pub proof fn lemma_replace(leaves: Seq<(nat, nat)>, i: int, leaf: (nat, nat), h: nat)
    requires
        0 <= i < leaves.len(),
    ensures
        placed_cost(leaves.update(i, leaf)) + leaves[i].0 * leaves[i].1 == placed_cost(leaves)
            + leaf.0 * leaf.1,
        kraft_sum(leaves.update(i, leaf), h) + two_to((h - leaves[i].1) as nat) == kraft_sum(
            leaves,
            h,
        ) + two_to((h - leaf.1) as nat),
{
    lemma_without(leaves, i, h);
    lemma_without(leaves.update(i, leaf), i, h);
    assert(leaves.update(i, leaf).remove(i) =~= leaves.remove(i));
}

/// The leaves with the depths of the leaves at `i` and `r` exchanged.
pub open spec fn swapped(leaves: Seq<(nat, nat)>, i: int, r: int) -> Seq<(nat, nat)> {
    leaves.update(i, (leaves[i].0, leaves[r].1)).update(r, (leaves[r].0, leaves[i].1))
}

/// Giving the greater depth to the lighter of two leaves costs no more
/// than giving it to the heavier.
proof fn lemma_exchange(wi: nat, wr: nat, di: nat, dr: nat)
    requires
        wi <= wr,
        di <= dr,
    ensures
        wi * dr + wr * di <= wi * di + wr * dr,
{
    assert((wr - wi) * (dr - di) >= 0) by (nonlinear_arith)
        requires
            wi <= wr,
            di <= dr,
    ;
    assert((wr - wi) * (dr - di) == wr * dr - wr * di - wi * dr + wi * di) by (nonlinear_arith);
}

/// Moving the lighter of two leaves to the deeper place costs nothing, and
/// the leaves take up the room that they took before.
pub proof fn lemma_swap(leaves: Seq<(nat, nat)>, i: int, r: int, h: nat)
    requires
        0 <= i < leaves.len(),
        0 <= r < leaves.len(),
        i != r,
        leaves[i].0 <= leaves[r].0,
        leaves[i].1 <= leaves[r].1,
    ensures
        swapped(leaves, i, r).len() == leaves.len(),
        weights_of(swapped(leaves, i, r)) == weights_of(leaves),
        placed_cost(swapped(leaves, i, r)) <= placed_cost(leaves),
        kraft_sum(swapped(leaves, i, r), h) == kraft_sum(leaves, h),
        within(leaves, h) ==> within(swapped(leaves, i, r), h),
        swapped(leaves, i, r)[i] == (leaves[i].0, leaves[r].1),
        swapped(leaves, i, r)[r] == (leaves[r].0, leaves[i].1),
        forall|k: int|
            0 <= k < leaves.len() && k != i && k != r ==> swapped(leaves, i, r)[k] == leaves[k],
{
    let first = leaves.update(i, (leaves[i].0, leaves[r].1));
    lemma_replace(leaves, i, (leaves[i].0, leaves[r].1), h);
    lemma_replace(first, r, (leaves[r].0, leaves[i].1), h);
    lemma_exchange(leaves[i].0, leaves[r].0, leaves[i].1, leaves[r].1);
}

/// The first of a rising list of weights is the weight of some leaf, and no
/// leaf is lighter.
pub proof fn lemma_lightest(ws: Seq<nat>, leaves: Seq<(nat, nat)>)
    requires
        ws.len() >= 1,
        sorted(ws),
        weights_of(leaves).to_multiset() == ws.to_multiset(),
    ensures
        leaves.len() == ws.len(),
        exists|i: int| 0 <= i < leaves.len() && (#[trigger] leaves[i]).0 == ws[0],
        forall|i: int| 0 <= i < leaves.len() ==> (#[trigger] leaves[i]).0 >= ws[0],
{
    broadcast use vstd::seq_lib::group_to_multiset_ensures;

    let weights = weights_of(leaves);
    assert(ws.len() == ws.to_multiset().len());
    assert(weights.to_multiset().count(ws[0]) > 0);
    assert forall|k: int| 0 <= k < leaves.len() implies (#[trigger] leaves[k]).0 >= ws[0] by {
        assert(ws.to_multiset().count(weights[k]) > 0);
    }
}

/// The first two of a rising list of weights are the weights of two leaves;
/// no leaf is lighter than the first, and none but that one lighter than
/// the second.
pub proof fn lemma_two_lightest(ws: Seq<nat>, leaves: Seq<(nat, nat)>) -> (found: (int, int))
    requires
        ws.len() >= 2,
        sorted(ws),
        weights_of(leaves).to_multiset() == ws.to_multiset(),
    ensures
        leaves.len() == ws.len(),
        0 <= found.0 < leaves.len(),
        0 <= found.1 < leaves.len(),
        found.0 != found.1,
        leaves[found.0].0 == ws[0],
        leaves[found.1].0 == ws[1],
        forall|i: int| 0 <= i < leaves.len() ==> (#[trigger] leaves[i]).0 >= ws[0],
        forall|i: int| 0 <= i < leaves.len() && i != found.0 ==> (#[trigger] leaves[i]).0 >= ws[1],
{
    broadcast use vstd::seq_lib::group_to_multiset_ensures;

    lemma_lightest(ws, leaves);
    let i0 = choose|i: int| 0 <= i < leaves.len() && (#[trigger] leaves[i]).0 == ws[0];
    let rest = leaves.remove(i0);
    let tail = ws.skip(1);
    assert(ws.remove(0) =~= tail);
    assert(weights_of(rest) =~= weights_of(leaves).remove(i0));
    assert(sorted(tail));
    lemma_lightest(tail, rest);
    let j = choose|j: int| 0 <= j < rest.len() && (#[trigger] rest[j]).0 == tail[0];
    let i1 = if j < i0 {
        j
    } else {
        j + 1
    };
    assert forall|i: int| 0 <= i < leaves.len() && i != i0 implies (#[trigger] leaves[i]).0
        >= ws[1] by {
        let k = if i < i0 {
            i
        } else {
            i - 1
        };
        assert(rest[k].0 >= tail[0]);
    }
    (i0, i1)
}

/// Where two leaves are deepest, the two lightest leaves can be moved to
/// the deepest level at no cost.
pub proof fn lemma_lift(leaves: Seq<(nat, nat)>, i0: int, i1: int, h: nat) -> (lifted: Seq<
    (nat, nat),
>)
    requires
        fits(leaves, h),
        exists|p: int, q: int|
            0 <= p < q < leaves.len() && (#[trigger] leaves[p]).1 == deepest(leaves) && (
            #[trigger] leaves[q]).1 == deepest(leaves),
        0 <= i0 < leaves.len(),
        0 <= i1 < leaves.len(),
        i0 != i1,
        forall|i: int| 0 <= i < leaves.len() ==> (#[trigger] leaves[i]).0 >= leaves[i0].0,
        forall|i: int| 0 <= i < leaves.len() && i != i0 ==> (#[trigger] leaves[i]).0 >= leaves[i1].0,
    ensures
        lifted.len() == leaves.len(),
        weights_of(lifted) == weights_of(leaves),
        fits(lifted, h),
        placed_cost(lifted) <= placed_cost(leaves),
        lifted[i0] == (leaves[i0].0, deepest(leaves)),
        lifted[i1] == (leaves[i1].0, deepest(leaves)),
{
    let d = deepest(leaves);
    lemma_deepest(leaves);
    let (p, q) = choose|p: int, q: int|
        0 <= p < q < leaves.len() && (#[trigger] leaves[p]).1 == d && (#[trigger] leaves[q]).1 == d;
    // first the lightest leaf
    let (first, spare) = if leaves[i0].1 == d {
        (leaves, if p != i0 { p } else { q })
    } else {
        let r = if p != i1 { p } else { q };
        let s = if p != i1 { q } else { p };
        lemma_swap(leaves, i0, r, h);
        (swapped(leaves, i0, r), s)
    };
    assert(first[i1].0 == leaves[i1].0);
    assert(first[i1].1 <= d);
    // then the second lightest
    if first[i1].1 == d {
        first
    } else {
        lemma_swap(first, i1, spare, h);
        let second = swapped(first, i1, spare);
        second
    }
}

/// The leaves without those at `i0` and `i1`, and with one leaf in their
/// stead that weighs as much as both and lies one level higher than `d`.
pub open spec fn contracted(leaves: Seq<(nat, nat)>, i0: int, i1: int, d: nat) -> Seq<(nat, nat)> {
    let hi = if i0 > i1 {
        i0
    } else {
        i1
    };
    let lo = if i0 > i1 {
        i1
    } else {
        i0
    };
    leaves.remove(hi).remove(lo).push((leaves[i0].0 + leaves[i1].0, (d - 1) as nat))
}

/// Two leaves at one depth cost what one leaf of their weight costs a
/// level higher, and their weight.
proof fn lemma_one_level_up(a: nat, b: nat, d: nat)
    requires
        d >= 1,
    ensures
        (a + b) * ((d - 1) as nat) + a + b == a * d + b * d,
{
    assert((a + b) * (d - 1) + a + b == a * d + b * d) by (nonlinear_arith)
        requires
            d >= 1,
    ;
}

/// Two leaves of one depth, put together as one leaf a level higher, take
/// up the room that they took before, and cost less by what the two weigh.
pub proof fn lemma_contract(leaves: Seq<(nat, nat)>, i0: int, i1: int, h: nat, d: nat)
    requires
        fits(leaves, h),
        0 <= i0 < leaves.len(),
        0 <= i1 < leaves.len(),
        i0 != i1,
        1 <= d <= h,
        leaves[i0].1 == d,
        leaves[i1].1 == d,
    ensures
        contracted(leaves, i0, i1, d).len() == leaves.len() - 1,
        fits(contracted(leaves, i0, i1, d), h),
        placed_cost(contracted(leaves, i0, i1, d)) + leaves[i0].0 + leaves[i1].0 == placed_cost(
            leaves,
        ),
        weights_of(contracted(leaves, i0, i1, d)).to_multiset() == weights_of(
            leaves,
        ).to_multiset().remove(leaves[i0].0).remove(leaves[i1].0).insert(
            leaves[i0].0 + leaves[i1].0,
        ),
{
    broadcast use vstd::seq_lib::group_to_multiset_ensures;

    let hi = if i0 > i1 {
        i0
    } else {
        i1
    };
    let lo = if i0 > i1 {
        i1
    } else {
        i0
    };
    let one = leaves.remove(hi);
    let two = one.remove(lo);
    let a = leaves[i0].0;
    let b = leaves[i1].0;
    let after = contracted(leaves, i0, i1, d);
    lemma_without(leaves, hi, h);
    lemma_without(one, lo, h);
    assert(after.drop_last() =~= two);
    lemma_one_level_up(a, b, d);
    assert forall|k: int| 0 <= k < after.len() implies (#[trigger] after[k]).1 <= h by {}
    let weights = weights_of(leaves);
    assert(weights_of(two) =~= weights.remove(hi).remove(lo));
    assert(weights_of(after) =~= weights_of(two).push(a + b));
}

/// Optimality of joining the two lightest: for weights in rising order,
/// what the joins cost is no more than the weighted path length of any
/// leaves with these weights that find room in a level: so of the leaves of
/// any code tree over these weights, and of the code words of any prefix
/// code.
pub proof fn lemma_greedy_least(ws: Seq<nat>, leaves: Seq<(nat, nat)>, h: nat)
    requires
        ws.len() >= 1,
        sorted(ws),
        weights_of(leaves).to_multiset() == ws.to_multiset(),
        fits(leaves, h),
    ensures
        greedy_cost(ws) <= placed_cost(leaves),
    decreases ws.len(),
{
    if ws.len() >= 2 {
        lemma_lightest(ws, leaves);
        let settled = lemma_settle(leaves, h);
        let (i0, i1) = lemma_two_lightest(ws, settled);
        let lifted = lemma_lift(settled, i0, i1, h);
        let d = deepest(settled);
        lemma_contract(lifted, i0, i1, h, d);
        let fewer = contracted(lifted, i0, i1, d);
        lemma_joined(ws);
        lemma_greedy_least(joined(ws), fewer, h);
    }
}

/// Entering a weight at its slot keeps a rising list rising.
pub proof fn lemma_enter_sorted(ws: Seq<nat>, w: nat)
    requires
        sorted(ws),
    ensures
        sorted(ws.insert(slot_of(ws, w), w)),
{
    let at = slot_of(ws, w);
    lemma_slot_of(ws, w);
    let after = ws.insert(at, w);
    assert forall|i: int, j: int| 0 <= i <= j < after.len() implies after[i] <= after[j] by {}
}

} // verus!
