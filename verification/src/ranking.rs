//! Stable ordering of lists by weight, then by time stamp, then by text.

use vstd::prelude::*;

use crate::text::{
    chars_less, lex_less, lemma_lex_irreflexive, lemma_lex_total, lemma_lex_transitive,
};

verus! {

/// What an item is ordered by.
pub struct Rank {
    /// The heavier item comes first.
    pub weight: int,
    /// Of two equally heavy items, the one with the later stamp comes first.
    pub stamp: Seq<char>,
    /// Of two items with the same weight and stamp, the lesser text comes first.
    pub text: Seq<char>,
}

/// The key of an item, as the program holds it.
pub struct RankKey {
    pub weight: i64,
    pub stamp: Vec<char>,
    pub text: Vec<char>,
}

impl View for RankKey {
    type V = Rank;

    open spec fn view(&self) -> Rank {
        Rank { weight: self.weight as int, stamp: self.stamp@, text: self.text@ }
    }
}

/// Whether an item of rank `a` has to stand before one of rank `b`.
pub open spec fn outranks(a: Rank, b: Rank) -> bool {
    ||| a.weight > b.weight
    ||| a.weight == b.weight && lex_less(b.stamp, a.stamp)
    ||| a.weight == b.weight && a.stamp == b.stamp && lex_less(a.text, b.text)
}

/// The positions `order` with `item` put behind every item that it does not
/// outrank.
pub open spec fn placed(order: Seq<int>, ranks: Seq<Rank>, item: int) -> Seq<int>
    decreases order.len(),
{
    if order.len() == 0 || !outranks(ranks[item], ranks[order.last()]) {
        order.push(item)
    } else {
        placed(order.drop_last(), ranks, item).push(order.last())
    }
}

/// The positions of the first `n` items, ordered by rank; items of equal rank
/// keep their order.
pub open spec fn order_of_first(ranks: Seq<Rank>, n: nat) -> Seq<int>
    decreases n,
{
    if n == 0 {
        Seq::empty()
    } else {
        placed(order_of_first(ranks, (n - 1) as nat), ranks, n - 1)
    }
}

/// The positions of all items, ordered by rank.
pub open spec fn ranked(ranks: Seq<Rank>) -> Seq<int> {
    order_of_first(ranks, ranks.len())
}

/// The ranks that a list of keys stands for.
pub open spec fn ranks_of(keys: Seq<RankKey>) -> Seq<Rank> {
    keys.map_values(|k: RankKey| k@)
}

/// Whether `order` lists the positions below `n`, each once, by rank, with
/// items of equal rank in their first order.
pub open spec fn in_order(order: Seq<int>, ranks: Seq<Rank>, n: nat) -> bool {
    &&& order.len() == n
    &&& forall|i: int| 0 <= i < n ==> 0 <= #[trigger] order[i] < n
    &&& forall|i: int, j: int|
        0 <= i < j < n ==> !outranks(ranks[#[trigger] order[j]], ranks[#[trigger] order[i]])
    &&& forall|i: int, j: int|
        0 <= i < j < n ==> outranks(ranks[#[trigger] order[i]], ranks[#[trigger] order[j]])
            || order[i] < order[j]
}

/// Outranking is irreflexive.
pub proof fn lemma_outranks_irreflexive(a: Rank)
    ensures
        !outranks(a, a),
{
    lemma_lex_irreflexive(a.stamp);
    lemma_lex_irreflexive(a.text);
}

/// Outranking is transitive.
pub proof fn lemma_outranks_transitive(a: Rank, b: Rank, c: Rank)
    requires
        outranks(a, b),
        outranks(b, c),
    ensures
        outranks(a, c),
{
    if a.weight == b.weight && b.weight == c.weight {
        if lex_less(b.stamp, a.stamp) && lex_less(c.stamp, b.stamp) {
            lemma_lex_transitive(c.stamp, b.stamp, a.stamp);
        } else if a.stamp == b.stamp && b.stamp == c.stamp {
            lemma_lex_transitive(a.text, b.text, c.text);
        }
    }
}

/// Of two different ranks, one outranks the other.
pub proof fn lemma_outranks_total(a: Rank, b: Rank)
    ensures
        outranks(a, b) || outranks(b, a) || a == b,
{
    lemma_lex_total(a.stamp, b.stamp);
    lemma_lex_total(a.text, b.text);
}

/// What is not outranked by a rank that outranks a third outranks the third,
/// too.
proof fn lemma_outranks_weak(a: Rank, b: Rank, c: Rank)
    requires
        outranks(a, c),
        !outranks(a, b),
    ensures
        outranks(b, c),
{
    lemma_outranks_total(a, b);
    if outranks(b, a) {
        lemma_outranks_transitive(b, a, c);
    }
}

/// Where the items from `at` on are outranked and those before are not, the
/// new item is put at `at`.
proof fn lemma_placed_at(order: Seq<int>, ranks: Seq<Rank>, item: int, at: int)
    requires
        0 <= at <= order.len(),
        forall|k: int| 0 <= k < at ==> !outranks(ranks[item], ranks[#[trigger] order[k]]),
        forall|k: int| at <= k < order.len() ==> outranks(ranks[item], ranks[#[trigger] order[k]]),
    ensures
        placed(order, ranks, item) == order.insert(at, item),
    decreases order.len(),
{
    if at == order.len() {
        if order.len() > 0 {
            assert(order.last() == order[order.len() - 1]);
        }
        assert(order.insert(at, item) =~= order.push(item));
    } else {
        assert(order.last() == order[order.len() - 1]);
        let shorter = order.drop_last();
        assert forall|k: int| at <= k < shorter.len() implies outranks(
            ranks[item],
            ranks[#[trigger] shorter[k]],
        ) by {
            assert(shorter[k] == order[k]);
        }
        assert forall|k: int| 0 <= k < at implies !outranks(
            ranks[item],
            ranks[#[trigger] shorter[k]],
        ) by {
            assert(shorter[k] == order[k]);
        }
        lemma_placed_at(shorter, ranks, item, at);
        assert(order.insert(at, item) =~= shorter.insert(at, item).push(order.last()));
    }
}

/// Putting the next item in its place keeps the list in order.
proof fn lemma_placed_in_order(order: Seq<int>, ranks: Seq<Rank>, n: nat, at: int)
    requires
        in_order(order, ranks, n),
        0 <= at <= n,
        forall|k: int| 0 <= k < at ==> !outranks(ranks[n as int], ranks[#[trigger] order[k]]),
        forall|k: int| at <= k < n ==> outranks(ranks[n as int], ranks[#[trigger] order[k]]),
    ensures
        in_order(order.insert(at, n as int), ranks, n + 1),
{
    let next = order.insert(at, n as int);
    assert forall|i: int| 0 <= i < next.len() implies 0 <= #[trigger] next[i] < n + 1 by {
        if i < at {
            assert(next[i] == order[i]);
        } else if i > at {
            assert(next[i] == order[i - 1]);
        }
    }
    assert forall|i: int, j: int| 0 <= i < j < n + 1 implies !outranks(
        ranks[#[trigger] next[j]],
        ranks[#[trigger] next[i]],
    ) && (outranks(ranks[next[i]], ranks[next[j]]) || next[i] < next[j]) by {
        if i < at {
            assert(next[i] == order[i]);
        } else if i > at {
            assert(next[i] == order[i - 1]);
        }
        if j < at {
            assert(next[j] == order[j]);
        } else if j > at {
            assert(next[j] == order[j - 1]);
        }
        if i == at {
            if outranks(ranks[next[j]], ranks[next[i]]) {
                lemma_outranks_transitive(ranks[next[i]], ranks[next[j]], ranks[next[i]]);
                lemma_outranks_irreflexive(ranks[next[i]]);
            }
        }
    }
}

/// In a list that is in order, the items that a rank outranks are the last
/// ones.
proof fn lemma_outranked_are_last(
    order: Seq<int>,
    ranks: Seq<Rank>,
    n: nat,
    item: int,
    i: int,
    j: int,
)
    requires
        in_order(order, ranks, n),
        0 <= i <= j < n,
        outranks(ranks[item], ranks[order[i]]),
    ensures
        outranks(ranks[item], ranks[order[j]]),
{
    if i < j && !outranks(ranks[item], ranks[order[j]]) {
        lemma_outranks_weak(ranks[item], ranks[order[j]], ranks[order[i]]);
        assert(!outranks(ranks[order[j]], ranks[order[i]]));
    }
}

/// The place that `placed` gives to an item.
proof fn lemma_place_exists(order: Seq<int>, ranks: Seq<Rank>, n: nat) -> (at: int)
    requires
        in_order(order, ranks, n),
    ensures
        0 <= at <= n,
        forall|k: int| 0 <= k < at ==> !outranks(ranks[n as int], ranks[#[trigger] order[k]]),
        forall|k: int| at <= k < n ==> outranks(ranks[n as int], ranks[#[trigger] order[k]]),
{
    lemma_place_exists_from(order, ranks, n, n as int)
}

/// The search for that place from the end of the list.
proof fn lemma_place_exists_from(order: Seq<int>, ranks: Seq<Rank>, n: nat, top: int) -> (at: int)
    requires
        in_order(order, ranks, n),
        0 <= top <= n,
        forall|k: int| top <= k < n ==> outranks(ranks[n as int], ranks[#[trigger] order[k]]),
    ensures
        0 <= at <= n,
        forall|k: int| 0 <= k < at ==> !outranks(ranks[n as int], ranks[#[trigger] order[k]]),
        forall|k: int| at <= k < n ==> outranks(ranks[n as int], ranks[#[trigger] order[k]]),
    decreases top,
{
    if top == 0 {
        0
    } else if outranks(ranks[n as int], ranks[order[top - 1]]) {
        lemma_place_exists_from(order, ranks, n, top - 1)
    } else {
        assert forall|k: int| 0 <= k < top implies !outranks(
            ranks[n as int],
            ranks[#[trigger] order[k]],
        ) by {
            if outranks(ranks[n as int], ranks[order[k]]) {
                lemma_outranked_are_last(order, ranks, n, n as int, k, top - 1);
            }
        }
        top
    }
}

/// The first `n` items come out in order.
pub proof fn lemma_first_in_order(ranks: Seq<Rank>, n: nat)
    requires
        n <= ranks.len(),
    ensures
        in_order(order_of_first(ranks, n), ranks, n),
    decreases n,
{
    if n > 0 {
        let m = (n - 1) as nat;
        lemma_first_in_order(ranks, m);
        let order = order_of_first(ranks, m);
        let at = lemma_place_exists(order, ranks, m);
        lemma_placed_at(order, ranks, m as int, at);
        lemma_placed_in_order(order, ranks, m, at);
    }
}

/// Ranking is a stable sort: it lists every position once, no item stands
/// behind one that it outranks, and items of equal rank keep their order.
pub proof fn ranking_is_a_stable_sort(ranks: Seq<Rank>)
    ensures
        in_order(ranked(ranks), ranks, ranks.len()),
        ranked(ranks).no_duplicates(),
        forall|i: int| 0 <= i < ranks.len() ==> #[trigger] ranked(ranks).contains(i),
{
    lemma_first_in_order(ranks, ranks.len());
    let order = ranked(ranks);
    assert forall|i: int, j: int| 0 <= i < order.len() && 0 <= j < order.len() && i
        != j implies order[i] != order[j] by {
        lemma_outranks_irreflexive(ranks[order[i]]);
        if i < j {
            assert(outranks(ranks[order[i]], ranks[order[j]]) || order[i] < order[j]);
        } else {
            assert(outranks(ranks[order[j]], ranks[order[i]]) || order[j] < order[i]);
        }
    }
    assert forall|i: int| 0 <= i < ranks.len() implies #[trigger] order.contains(i) by {
        lemma_lists_all(ranks, ranks.len(), i);
    }
}

/// Every position below `n` is listed.
proof fn lemma_lists_all(ranks: Seq<Rank>, n: nat, i: int)
    requires
        0 <= i < n <= ranks.len(),
    ensures
        order_of_first(ranks, n).contains(i),
    decreases n,
{
    let m = (n - 1) as nat;
    lemma_first_in_order(ranks, m);
    let order = order_of_first(ranks, m);
    let at = lemma_place_exists(order, ranks, m);
    lemma_placed_at(order, ranks, m as int, at);
    let next = order_of_first(ranks, n);
    if i == m {
        assert(next[at] == i);
    } else {
        lemma_lists_all(ranks, m, i);
        let k = choose|k: int| 0 <= k < order.len() && order[k] == i;
        if k < at {
            assert(next[k] == i);
        } else {
            assert(next[k + 1] == i);
        }
    }
}

/// The first positions of a list that is in order already.
proof fn lemma_first_as_they_are(ranks: Seq<Rank>, n: nat)
    requires
        n <= ranks.len(),
        forall|i: int, j: int| 0 <= i < j < ranks.len() ==> !outranks(ranks[j], ranks[i]),
    ensures
        order_of_first(ranks, n) == Seq::new(n, |i: int| i),
    decreases n,
{
    if n > 0 {
        lemma_first_as_they_are(ranks, (n - 1) as nat);
        assert(Seq::new((n - 1) as nat, |i: int| i).push(n - 1) =~= Seq::new(n, |i: int| i));
    } else {
        assert(order_of_first(ranks, n) =~= Seq::new(n, |i: int| i));
    }
}

/// A list that is in order already stays as it is.
pub proof fn ranking_keeps_what_is_in_order(ranks: Seq<Rank>)
    requires
        forall|i: int, j: int| 0 <= i < j < ranks.len() ==> !outranks(ranks[j], ranks[i]),
    ensures
        ranked(ranks) == Seq::new(ranks.len(), |i: int| i),
{
    lemma_first_as_they_are(ranks, ranks.len());
}

/// Whether an item with key `a` has to stand before one with key `b`.
pub fn key_outranks(a: &RankKey, b: &RankKey) -> (r: bool)
    ensures
        r == outranks(a@, b@),
{
    proof {
        lemma_lex_total(a.stamp@, b.stamp@);
        lemma_lex_irreflexive(a.stamp@);
    }
    if a.weight != b.weight {
        a.weight > b.weight
    } else if chars_less(&b.stamp, &a.stamp) {
        true
    } else if chars_less(&a.stamp, &b.stamp) {
        proof {
            lemma_lex_irreflexive(a.stamp@);
        }
        false
    } else {
        chars_less(&a.text, &b.text)
    }
}

/// The positions that a list of machine integers stands for.
pub open spec fn positions(s: Seq<usize>) -> Seq<int> {
    s.map_values(|i: usize| i as int)
}

/// The positions of the items with the given keys, ordered by rank.
pub fn rank(keys: &Vec<RankKey>) -> (r: Vec<usize>)
    ensures
        positions(r@) == ranked(ranks_of(keys@)),
{
    let mut order: Vec<usize> = Vec::new();
    let ghost ranks = ranks_of(keys@);
    assert(positions(order@) =~= order_of_first(ranks, 0));
    for n in 0..keys.len()
        invariant
            ranks == ranks_of(keys@),
            positions(order@) == order_of_first(ranks, n as nat),
    {
        proof {
            lemma_first_in_order(ranks, n as nat);
        }
        assert(positions(order@).len() == order@.len());
        let mut low: usize = 0;
        let mut high: usize = order.len();
        while low < high
            invariant
                n < keys@.len(),
                ranks == ranks_of(keys@),
                order@.len() == n,
                in_order(positions(order@), ranks, n as nat),
                low <= high <= n,
                forall|k: int|
                    0 <= k < low ==> !outranks(
                        ranks[n as int],
                        ranks[#[trigger] positions(order@)[k]],
                    ),
                forall|k: int|
                    high <= k < n ==> outranks(
                        ranks[n as int],
                        ranks[#[trigger] positions(order@)[k]],
                    ),
            decreases high - low,
        {
            let mid = low + (high - low) / 2;
            let other = order[mid];
            assert(positions(order@)[mid as int] == other);
            if key_outranks(&keys[n], &keys[other]) {
                assert forall|k: int| mid <= k < n implies outranks(
                    ranks[n as int],
                    ranks[#[trigger] positions(order@)[k]],
                ) by {
                    lemma_outranked_are_last(
                        positions(order@),
                        ranks,
                        n as nat,
                        n as int,
                        mid as int,
                        k,
                    );
                }
                high = mid;
            } else {
                assert forall|k: int| 0 <= k <= mid implies !outranks(
                    ranks[n as int],
                    ranks[#[trigger] positions(order@)[k]],
                ) by {
                    if outranks(ranks[n as int], ranks[positions(order@)[k]]) {
                        lemma_outranked_are_last(
                            positions(order@),
                            ranks,
                            n as nat,
                            n as int,
                            k,
                            mid as int,
                        );
                    }
                }
                low = mid + 1;
            }
        }
        proof {
            lemma_placed_at(positions(order@), ranks, n as int, low as int);
            assert(positions(order@.insert(low as int, n)) =~= positions(order@).insert(
                low as int,
                n as int,
            ));
        }
        order.insert(low, n);
    }
    order
}

} // verus!
