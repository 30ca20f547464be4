//! What the requests of a player pick: where every request names a card and
//! no two name the same, the cards picked are the cards that stood at the
//! positions named when the picking began.

use crate::sequence_cards::Card;
use crate::turn::{count_below, pick_one, picking, start_picking, Picking};
use vstd::prelude::*;

verus! {

/// Whether every request is a position among `total` cards, and no two
/// requests are the same position.
pub open spec fn names_cards_once(requests: Seq<Option<usize>>, total: int) -> bool {
    &&& forall|i: int|
        0 <= i < requests.len() ==> (#[trigger] requests[i]) is Some && 1 <= requests[i]->0
            <= total
    &&& forall|i: int, j: int|
        0 <= i < j < requests.len() ==> (#[trigger] requests[i])->0 != (#[trigger] requests[j])->0
}

/// How often a position occurs among the positions asked for.
pub open spec fn occurrences(asked: Seq<int>, n: int) -> int
    decreases asked.len(),
{
    if asked.len() == 0 {
        0
    } else {
        occurrences(asked.drop_last(), n) + if asked.last() == n {
            1int
        } else {
            0int
        }
    }
}

/// No position was asked for twice.
pub open spec fn asked_once(asked: Seq<int>) -> bool {
    forall|i: int, j: int| 0 <= i < j < asked.len() ==> asked[i] != asked[j]
}

/// One position higher, the positions that lie below are those that lay
/// below and those that are the position itself.
proof fn lemma_count_below_next(asked: Seq<int>, n: int)
    ensures
        count_below(asked, n + 1) == count_below(asked, n) + occurrences(asked, n),
    decreases asked.len(),
{
    if asked.len() > 0 {
        lemma_count_below_next(asked.drop_last(), n);
    }
}

/// A position that was asked for at most once occurs once or not at all.
proof fn lemma_occurrences(asked: Seq<int>, n: int)
    requires
        asked_once(asked),
    ensures
        0 <= occurrences(asked, n) <= 1,
        !asked.contains(n) ==> occurrences(asked, n) == 0,
        occurrences(asked, n) == 0 ==> !asked.contains(n),
    decreases asked.len(),
{
    if asked.len() > 0 {
        let front = asked.drop_last();
        assert(asked_once(front)) by {
            assert forall|i: int, j: int| 0 <= i < j < front.len() implies front[i]
                != front[j] by {
                assert(front[i] == asked[i] && front[j] == asked[j]);
            }
        }
        lemma_occurrences(front, n);
        if asked.last() == n {
            if front.contains(n) {
                let k = choose|k: int| 0 <= k < front.len() && front[k] == n;
                assert(asked[k] == n && asked[asked.len() - 1] == n);
            }
            assert(asked[asked.len() - 1] == n);
        } else {
            if asked.contains(n) {
                let k = choose|k: int| 0 <= k < asked.len() && asked[k] == n;
                assert(front[k] == n);
            }
            if front.contains(n) {
                let k = choose|k: int| 0 <= k < front.len() && front[k] == n;
                assert(asked[k] == n);
            }
        }
    }
}

/// Between two positions as many positions were asked for, at most, as
/// there are; and one fewer where the lower of the two was not asked for.
proof fn lemma_count_below_spread(asked: Seq<int>, n: int, m: int)
    requires
        asked_once(asked),
        n <= m,
    ensures
        0 <= count_below(asked, m) - count_below(asked, n) <= m - n,
        n < m && !asked.contains(n) ==> count_below(asked, m) - count_below(asked, n) <= m - n
            - 1,
    decreases m - n,
{
    if n < m {
        lemma_count_below_spread(asked, n, m - 1);
        lemma_count_below_next(asked, m - 1);
        lemma_occurrences(asked, m - 1);
    }
}

/// One position more asked for lies below every higher position.
proof fn lemma_count_below_push(asked: Seq<int>, a: int, n: int)
    ensures
        count_below(asked.push(a), n) == count_below(asked, n) + if a < n {
            1int
        } else {
            0int
        },
{
    assert(asked.push(a).drop_last() =~= asked);
}

/// Whether what is left of a pile is the pile without the cards at the
/// positions asked for: the card that stood at a position that was not
/// asked for stands lower by the number of lower positions asked for.
pub open spec fn left_of(rest: Seq<Card>, pile: Seq<Card>, asked: Seq<int>) -> bool {
    &&& asked_once(asked)
    &&& forall|k: int| 0 <= k < asked.len() ==> 1 <= #[trigger] asked[k] <= pile.len()
    &&& rest.len() == pile.len() - asked.len()
    &&& forall|n: int|
        1 <= n <= pile.len() && !asked.contains(n) ==> {
            let j = n - 1 - #[trigger] count_below(asked, n);
            0 <= j < rest.len() && rest[j] == pile[n - 1]
        }
}

/// Taking the card of a position that was not asked for before leaves the
/// pile without the cards at the positions asked for.
proof fn lemma_left_of_after_taking(rest: Seq<Card>, pile: Seq<Card>, asked: Seq<int>, n0: int)
    requires
        left_of(rest, pile, asked),
        1 <= n0 <= pile.len(),
        !asked.contains(n0),
    ensures
        1 <= n0 - count_below(asked, n0) <= rest.len(),
        rest[n0 - count_below(asked, n0) - 1] == pile[n0 - 1],
        left_of(rest.remove(n0 - count_below(asked, n0) - 1), pile, asked.push(n0)),
{
    let j0 = n0 - 1 - count_below(asked, n0);
    let next = asked.push(n0);
    let rest2 = rest.remove(j0);
    assert(asked_once(next)) by {
        assert forall|i: int, j: int| 0 <= i < j < next.len() implies next[i] != next[j] by {
            if j == asked.len() {
                assert(asked[i] == next[i]);
                if asked[i] == n0 {
                    assert(asked.contains(n0));
                }
            } else {
                assert(asked[i] == next[i] && asked[j] == next[j]);
            }
        }
    }
    assert forall|k: int| 0 <= k < next.len() implies 1 <= #[trigger] next[k] <= pile.len() by {
        if k < asked.len() {
            assert(next[k] == asked[k]);
        }
    }
    assert forall|n: int| 1 <= n <= pile.len() && !next.contains(n) implies {
        let j = n - 1 - #[trigger] count_below(next, n);
        0 <= j < rest2.len() && rest2[j] == pile[n - 1]
    } by {
        lemma_count_below_push(asked, n0, n);
        assert(next[asked.len() as int] == n0);
        assert(n != n0);
        if asked.contains(n) {
            let k = choose|k: int| 0 <= k < asked.len() && asked[k] == n;
            assert(next[k] == n);
        }
        let j = n - 1 - count_below(asked, n);
        assert(0 <= j < rest.len() && rest[j] == pile[n - 1]);
        if n < n0 {
            lemma_count_below_spread(asked, n, n0);
            assert(j < j0);
        } else {
            lemma_count_below_spread(asked, n0, n);
            assert(j > j0);
        }
    }
}

/// Whether a picking stands as the requests so far ask: what is left of
/// the hand and of the borrowed cards is what the requests have not named,
/// and the cards picked are the cards named, in the order of the requests.
pub open spec fn picks_as_asked(
    p: Picking,
    hand: Seq<Card>,
    borrowed: Seq<Card>,
    requests: Seq<Option<usize>>,
) -> bool {
    &&& left_of(p.hand, hand, p.hand_asked)
    &&& left_of(p.borrowed, borrowed, p.borrowed_asked)
    &&& p.hand_asked.len() + p.borrowed_asked.len() == requests.len()
    &&& forall|k: int|
        0 <= k < p.hand_asked.len() ==> exists|i: int|
            0 <= i < requests.len() && (#[trigger] requests[i])->0 == #[trigger] p.hand_asked[k]
    &&& forall|k: int|
        0 <= k < p.borrowed_asked.len() ==> exists|i: int|
            0 <= i < requests.len() && (#[trigger] requests[i])->0
                == #[trigger] p.borrowed_asked[k] + hand.len()
    &&& p.picked.len() == requests.len()
    &&& forall|i: int|
        0 <= i < requests.len() ==> #[trigger] p.picked[i] == (hand + borrowed)[requests[i]->0
            - 1]
}

/// Where every request names a card of the hand or of the borrowed cards,
/// and no two name the same card, the cards picked are the cards at the
/// positions named, in the order of the requests, and as many cards are
/// gone from the hand and the borrowed cards as there are requests.
pub proof fn lemma_picks_are_the_cards_named(
    hand: Seq<Card>,
    borrowed: Seq<Card>,
    requests: Seq<Option<usize>>,
)
    requires
        names_cards_once(requests, (hand.len() + borrowed.len()) as int),
    ensures
        picking(hand, borrowed, requests).picked == Seq::new(
            requests.len(),
            |i: int| (hand + borrowed)[requests[i]->0 - 1],
        ),
        picking(hand, borrowed, requests).hand.len() + picking(
            hand,
            borrowed,
            requests,
        ).borrowed.len() == hand.len() + borrowed.len() - requests.len(),
        picks_as_asked(picking(hand, borrowed, requests), hand, borrowed, requests),
    decreases requests.len(),
{
    let p = picking(hand, borrowed, requests);
    if requests.len() == 0 {
        assert(p == start_picking(hand, borrowed));
        assert(picks_as_asked(p, hand, borrowed, requests));
    } else {
        let front = requests.drop_last();
        assert(names_cards_once(front, (hand.len() + borrowed.len()) as int)) by {
            assert forall|i: int| 0 <= i < front.len() implies (#[trigger] front[i]) is Some && 1
                <= front[i]->0 <= hand.len() + borrowed.len() by {
                assert(front[i] == requests[i]);
            }
            assert forall|i: int, j: int| 0 <= i < j < front.len() implies (#[trigger] front[i])->0
                != (#[trigger] front[j])->0 by {
                assert(front[i] == requests[i] && front[j] == requests[j]);
            }
        }
        lemma_picks_are_the_cards_named(hand, borrowed, front);
        let q = picking(hand, borrowed, front);
        let last = requests.len() - 1;
        let n = requests[last]->0 as int;
        assert(requests[last] is Some && 1 <= n <= hand.len() + borrowed.len());
        assert(p == pick_one(q, hand.len() as int, requests.last()));
        if n <= hand.len() {
            assert(!q.hand_asked.contains(n)) by {
                if q.hand_asked.contains(n) {
                    let k = choose|k: int| 0 <= k < q.hand_asked.len() && q.hand_asked[k] == n;
                    let i = choose|i: int|
                        0 <= i < front.len() && (#[trigger] front[i])->0 == q.hand_asked[k];
                    assert(front[i] == requests[i]);
                    assert(requests[i]->0 != requests[last]->0);
                }
            }
            lemma_left_of_after_taking(q.hand, hand, q.hand_asked, n);
            let at = n - count_below(q.hand_asked, n);
            assert(p.picked == q.picked.push(q.hand[at - 1]));
            assert(p.hand_asked == q.hand_asked.push(n));
        } else {
            let m = n - hand.len();
            assert(!q.borrowed_asked.contains(m)) by {
                if q.borrowed_asked.contains(m) {
                    let k = choose|k: int|
                        0 <= k < q.borrowed_asked.len() && q.borrowed_asked[k] == m;
                    let i = choose|i: int|
                        0 <= i < front.len() && (#[trigger] front[i])->0 == q.borrowed_asked[k]
                            + hand.len();
                    assert(front[i] == requests[i]);
                    assert(requests[i]->0 != requests[last]->0);
                }
            }
            lemma_left_of_after_taking(q.borrowed, borrowed, q.borrowed_asked, m);
            let at = m - count_below(q.borrowed_asked, m);
            assert(p.picked == q.picked.push(q.borrowed[at - 1]));
            assert(p.borrowed_asked == q.borrowed_asked.push(m));
        }
        assert forall|k: int| 0 <= k < p.hand_asked.len() implies exists|i: int|
            0 <= i < requests.len() && (#[trigger] requests[i])->0 == #[trigger] p.hand_asked[k] by {
            if k < q.hand_asked.len() {
                let i = choose|i: int|
                    0 <= i < front.len() && (#[trigger] front[i])->0 == q.hand_asked[k];
                assert(requests[i] == front[i]);
            } else {
                assert(requests[last]->0 == p.hand_asked[k]);
            }
        }
        assert forall|k: int| 0 <= k < p.borrowed_asked.len() implies exists|i: int|
            0 <= i < requests.len() && (#[trigger] requests[i])->0
                == #[trigger] p.borrowed_asked[k] + hand.len() by {
            if k < q.borrowed_asked.len() {
                let i = choose|i: int|
                    0 <= i < front.len() && (#[trigger] front[i])->0 == q.borrowed_asked[k]
                        + hand.len();
                assert(requests[i] == front[i]);
            } else {
                assert(requests[last]->0 == p.borrowed_asked[k] + hand.len());
            }
        }
        assert forall|i: int| 0 <= i < requests.len() implies #[trigger] p.picked[i] == (hand
            + borrowed)[requests[i]->0 - 1] by {
            if i < last {
                assert(p.picked[i] == q.picked[i]);
                assert(front[i] == requests[i]);
            }
        }
        assert(picks_as_asked(p, hand, borrowed, requests));
    }
    assert(p.picked =~= Seq::new(
        requests.len(),
        |i: int| (hand + borrowed)[requests[i]->0 - 1],
    ));
}

} // verus!
