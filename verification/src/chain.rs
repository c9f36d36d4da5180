//! The longest domino train that can be laid from a starting number.
//!
//! A tile is a pair of numbers. A train from `start` lays tiles one after
//! another: the first tile shows `start` on its left end, each next tile shows
//! on its left the number that the previous one shows on its right, and every
//! tile of the hand is laid at most once, turned round where needed.
use vstd::prelude::*;

verus! {

/// Whether tile `p` can be laid next to an open end showing `start`.
pub open spec fn touches(p: (i32, i32), start: i32) -> bool {
    p.0 == start || p.1 == start
}

/// The number that tile `p` leaves open once laid against `start`.
pub open spec fn far_end(p: (i32, i32), start: i32) -> i32 {
    if p.0 == start {
        p.1
    } else {
        p.0
    }
}

/// Tile `p` turned so that its left end shows `start`.
pub open spec fn oriented(p: (i32, i32), start: i32) -> (i32, i32) {
    if p.0 == start {
        p
    } else {
        (p.1, p.0)
    }
}

/// The train that the depth-first search returns: `current` extended by the
/// longest train from `start` over `pairs`; among trains of equal length the
/// one found first (tiles tried in the order of `pairs`) wins.
pub open spec fn longest_chain(start: i32, pairs: Seq<(i32, i32)>, current: Seq<(i32, i32)>) -> Seq<
    (i32, i32),
>
    decreases pairs.len(), 1nat, 0nat,
{
    best_among(start, pairs, current, pairs.len())
}

/// The best train found after trying the first `k` tiles of `pairs` as the
/// next tile after `current`.
pub open spec fn best_among(
    start: i32,
    pairs: Seq<(i32, i32)>,
    current: Seq<(i32, i32)>,
    k: nat,
) -> Seq<(i32, i32)>
    decreases pairs.len(), 0nat, k,
{
    if k == 0 || k > pairs.len() {
        current
    } else {
        let prev = best_among(start, pairs, current, (k - 1) as nat);
        let p = pairs[k - 1];
        if touches(p, start) {
            let cand = longest_chain(
                far_end(p, start),
                pairs.remove(k - 1),
                current.push(oriented(p, start)),
            );
            if cand.len() > prev.len() {
                cand
            } else {
                prev
            }
        } else {
            prev
        }
    }
}

/// Whether `chain` is a train from `start` that lays tiles of `pairs`, each at
/// most once.
pub open spec fn is_chain(start: i32, pairs: Seq<(i32, i32)>, chain: Seq<(i32, i32)>) -> bool
    decreases chain.len(),
{
    chain.len() == 0 || exists|j: int|
        #![trigger pairs.remove(j)]
        0 <= j < pairs.len() && touches(pairs[j], start) && chain[0] == oriented(pairs[j], start)
            && is_chain(far_end(pairs[j], start), pairs.remove(j), chain.drop_first())
}

proof fn lemma_longest(start: i32, pairs: Seq<(i32, i32)>, current: Seq<(i32, i32)>)
    ensures
        longest_chain(start, pairs, current).len() >= current.len(),
        longest_chain(start, pairs, current).take(current.len() as int) == current,
        is_chain(start, pairs, longest_chain(start, pairs, current).skip(current.len() as int)),
        forall|c: Seq<(i32, i32)>|
            #[trigger] is_chain(start, pairs, c) ==> current.len() + c.len() <= longest_chain(
                start,
                pairs,
                current,
            ).len(),
    decreases pairs.len(), 1nat, 0nat,
{
    lemma_best_among(start, pairs, current, pairs.len());
    let r = longest_chain(start, pairs, current);
    assert forall|c: Seq<(i32, i32)>| #[trigger] is_chain(start, pairs, c) implies current.len()
        + c.len() <= r.len() by {
        if c.len() > 0 {
            let j = choose|j: int|
                #![trigger pairs.remove(j)]
                0 <= j < pairs.len() && touches(pairs[j], start) && c[0] == oriented(pairs[j], start)
                    && is_chain(far_end(pairs[j], start), pairs.remove(j), c.drop_first());
            assert(is_chain(far_end(pairs[j], start), pairs.remove(j), c.drop_first()));
        }
    }
}

proof fn lemma_best_among(start: i32, pairs: Seq<(i32, i32)>, current: Seq<(i32, i32)>, k: nat)
    requires
        k <= pairs.len(),
    ensures
        best_among(start, pairs, current, k).len() >= current.len(),
        best_among(start, pairs, current, k).take(current.len() as int) == current,
        is_chain(start, pairs, best_among(start, pairs, current, k).skip(current.len() as int)),
        forall|j: int, c: Seq<(i32, i32)>|
            0 <= j < k && touches(pairs[j], start) && #[trigger] is_chain(
                far_end(pairs[j], start),
                #[trigger] pairs.remove(j),
                c,
            ) ==> current.len() + 1 + c.len() <= best_among(start, pairs, current, k).len(),
    decreases pairs.len(), 0nat, k,
{
    let r = best_among(start, pairs, current, k);
    if k == 0 {
        assert(r.take(current.len() as int) =~= current);
        assert(r.skip(current.len() as int).len() == 0);
    } else {
        lemma_best_among(start, pairs, current, (k - 1) as nat);
        let prev = best_among(start, pairs, current, (k - 1) as nat);
        let p = pairs[k - 1];
        if touches(p, start) {
            let rest = pairs.remove(k - 1);
            let next = current.push(oriented(p, start));
            lemma_longest(far_end(p, start), rest, next);
            let cand = longest_chain(far_end(p, start), rest, next);
            let suffix = cand.skip(current.len() as int);
            assert(cand.take(current.len() as int) =~= next.take(current.len() as int));
            assert(next.take(current.len() as int) =~= current);
            assert(suffix[0] == cand.take(next.len() as int)[current.len() as int]);
            assert(suffix.drop_first() =~= cand.skip(next.len() as int));
            assert(is_chain(start, pairs, suffix)) by {
                assert(is_chain(far_end(pairs[k - 1], start), pairs.remove(k - 1), suffix.drop_first()));
            }
        }
    }
}

/// A train laid by the search is a train: the result of
/// `longest_chain(start, pairs, [])` lays tiles of `pairs`, each at most once,
/// from `start`.
pub proof fn law_best_chain_is_a_chain(start: i32, pairs: Seq<(i32, i32)>)
    ensures
        is_chain(start, pairs, longest_chain(start, pairs, Seq::empty())),
{
    lemma_longest(start, pairs, Seq::empty());
    assert(longest_chain(start, pairs, Seq::empty()).skip(0) =~= longest_chain(
        start,
        pairs,
        Seq::empty(),
    ));
}

/// No train from `start` over `pairs` is longer than the one the search
/// returns.
pub proof fn law_best_chain_is_longest(start: i32, pairs: Seq<(i32, i32)>, chain: Seq<(i32, i32)>)
    requires
        is_chain(start, pairs, chain),
    ensures
        chain.len() <= longest_chain(start, pairs, Seq::empty()).len(),
{
    lemma_longest(start, pairs, Seq::empty());
}

/// The search keeps the train it was given and extends it: the result starts
/// with `current` and what follows is a train from `start` over `pairs`.
pub proof fn law_search_extends_current(start: i32, pairs: Seq<(i32, i32)>, current: Seq<(i32, i32)>)
    ensures
        longest_chain(start, pairs, current).len() >= current.len(),
        longest_chain(start, pairs, current).take(current.len() as int) == current,
        is_chain(start, pairs, longest_chain(start, pairs, current).skip(current.len() as int)),
{
    lemma_longest(start, pairs, current);
}

/// Every train links up: its first tile shows `start`, each tile shows on its
/// left what the previous one shows on its right, and it is no longer than
/// the hand.
pub proof fn law_chain_links(start: i32, pairs: Seq<(i32, i32)>, chain: Seq<(i32, i32)>)
    requires
        is_chain(start, pairs, chain),
    ensures
        chain.len() <= pairs.len(),
        chain.len() > 0 ==> chain[0].0 == start,
        forall|i: int| 0 <= i < chain.len() - 1 ==> #[trigger] chain[i].1 == chain[i + 1].0,
    decreases chain.len(),
{
    if chain.len() > 0 {
        let j = choose|j: int|
            #![trigger pairs.remove(j)]
            0 <= j < pairs.len() && touches(pairs[j], start) && chain[0] == oriented(pairs[j], start)
                && is_chain(far_end(pairs[j], start), pairs.remove(j), chain.drop_first());
        let rest = chain.drop_first();
        law_chain_links(far_end(pairs[j], start), pairs.remove(j), rest);
        assert forall|i: int| 0 <= i < chain.len() - 1 implies #[trigger] chain[i].1 == chain[i
            + 1].0 by {
            if i > 0 {
                assert(chain[i] == rest[i - 1]);
                assert(chain[i + 1] == rest[i]);
            }
        }
    }
}

fn copy_tiles(tiles: &[(i32, i32)]) -> (copy: Vec<(i32, i32)>)
    ensures
        copy@ == tiles@,
{
    let mut copy: Vec<(i32, i32)> = Vec::new();
    let n = tiles.len();
    let mut i: usize = 0;
    while i < n
        invariant
            n == tiles@.len(),
            i <= n,
            copy@ == tiles@.take(i as int),
        decreases n - i,
    {
        copy.push(tiles[i]);
        i += 1;
        assert(copy@ =~= tiles@.take(i as int));
    }
    assert(tiles@.take(n as int) =~= tiles@);
    copy
}

/// Extends `current_chain` by the longest train from `start` over `pairs`
/// (depth-first search; the first train found wins among equally long ones).
pub fn find_longest_chain(start: i32, pairs: &[(i32, i32)], current_chain: Vec<(i32, i32)>) -> (longest: Vec<(i32, i32)>)
    ensures
        longest@ == longest_chain(start, pairs@, current_chain@),
    decreases pairs@.len(),
{
    let mut longest = copy_tiles(current_chain.as_slice());
    let n = pairs.len();
    let mut index: usize = 0;
    while index < n
        invariant
            n == pairs@.len(),
            index <= n,
            longest@ == best_among(start, pairs@, current_chain@, index as nat),
        decreases n - index,
    {
        let next_pair = pairs[index];
        if next_pair.0 == start || next_pair.1 == start {
            let next_start = if next_pair.0 == start {
                next_pair.1
            } else {
                next_pair.0
            };
            let ordered_pair = if next_pair.0 == start {
                (next_pair.0, next_pair.1)
            } else {
                (next_pair.1, next_pair.0)
            };
            let mut remaining_pairs = copy_tiles(pairs);
            remaining_pairs.remove(index);
            let mut new_chain = copy_tiles(current_chain.as_slice());
            new_chain.push(ordered_pair);
            let candidate_chain = find_longest_chain(next_start, remaining_pairs.as_slice(), new_chain);
            if candidate_chain.len() > longest.len() {
                longest = candidate_chain;
            }
        }
        index += 1;
    }
    longest
}

} // verus!
