//! What makes a sequence of cards a legal meld: a set of one rank in distinct
//! suits, or a run of consecutive ranks in one suit, with Jokers standing in
//! for missing cards.

use crate::sequence_cards::{only_jokers, suit_index, Card, Suit};
use vstd::prelude::*;
use vstd::relations::{sorted_by, total_ordering};

verus! {

/// Sorting key that puts the rank first and the suit second; Jokers last.
pub open spec fn rank_key(card: Card) -> int {
    match card {
        Card::Joker => 1025,
        Card::RegularCard(suit, rank) => 4 * rank + suit_index(suit),
    }
}

/// Sorting key that puts the suit first and the rank second; Jokers last.
pub open spec fn suit_key(card: Card) -> int {
    match card {
        Card::Joker => 1280,
        Card::RegularCard(suit, rank) => 256 * suit_index(suit) + rank,
    }
}

/// The order of cards by rank, then suit.
pub open spec fn rank_order() -> spec_fn(Card, Card) -> bool {
    |a: Card, b: Card| rank_key(a) <= rank_key(b)
}

/// The order of cards by suit, then rank.
pub open spec fn suit_order() -> spec_fn(Card, Card) -> bool {
    |a: Card, b: Card| suit_key(a) <= suit_key(b)
}

/// The cards in ascending order of rank, Jokers last.
pub open spec fn sorted_by_rank(cards: Seq<Card>) -> Seq<Card> {
    cards.sort_by(rank_order())
}

/// The cards suit by suit, each suit in ascending rank, Jokers last.
pub open spec fn sorted_by_suit(cards: Seq<Card>) -> Seq<Card> {
    cards.sort_by(suit_order())
}

/// Both card orders are total: no two different cards share a key.
pub proof fn lemma_card_orders_total()
    ensures
        total_ordering(rank_order()),
        total_ordering(suit_order()),
{
    assert forall|a: Card, b: Card| rank_key(a) == rank_key(b) implies a == b by {}
    assert forall|a: Card, b: Card| suit_key(a) == suit_key(b) implies a == b by {}
}

/// A sequence that holds the same cards as `cards` and ascends in the given
/// total order is the sorted form of `cards`.
pub proof fn lemma_sorted_is_sort_by(
    cards: Seq<Card>,
    out: Seq<Card>,
    leq: spec_fn(Card, Card) -> bool,
)
    requires
        total_ordering(leq),
        sorted_by(out, leq),
        out.to_multiset() == cards.to_multiset(),
    ensures
        out == cards.sort_by(leq),
{
    cards.lemma_sort_by_ensures(leq);
    vstd::seq_lib::lemma_sorted_unique(out, cards.sort_by(leq), leq);
}

/// Whether a card is no Joker.
pub open spec fn is_regular() -> spec_fn(Card) -> bool {
    |c: Card| c != Card::Joker
}

/// The cards that are no Jokers, in their order.
pub open spec fn regular_cards(cards: Seq<Card>) -> Seq<Card> {
    cards.filter(is_regular())
}

/// The number of Jokers among the cards.
pub open spec fn joker_count(cards: Seq<Card>) -> nat {
    (cards.len() - regular_cards(cards).len()) as nat
}

/// `n` Jokers.
pub open spec fn jokers(n: int) -> Seq<Card> {
    Seq::new(if n >= 0 { n as nat } else { 0 }, |i: int| Card::Joker)
}

/// The rank of a regular card (0 for a Joker).
pub open spec fn rank_of(card: Card) -> int {
    match card {
        Card::Joker => 0,
        Card::RegularCard(_, rank) => rank as int,
    }
}

/// The suit of a regular card.
pub open spec fn suit_of(card: Card) -> Suit {
    match card {
        Card::Joker => Suit::Heart,
        Card::RegularCard(suit, _) => suit,
    }
}

/// The same-rank rule: the cards that are no Jokers share one rank, and no
/// two of them share a suit.
pub open spec fn same_rank_set(cards: Seq<Card>) -> bool {
    forall|i: int, j: int|
        0 <= i < cards.len() && 0 <= j < cards.len() && #[trigger] cards[i] != Card::Joker
            && #[trigger] cards[j] != Card::Joker ==> rank_of(cards[i]) == rank_of(cards[j]) && (i
            != j ==> suit_of(cards[i]) != suit_of(cards[j]))
}

/// The step of the rank ladder on which a card of rank `rank` stands when it
/// follows a card on step `prev`. A card keeps its rank as its step, but an
/// Ace that follows another card stands above the King: on step 14, or one
/// step above `prev` where `prev` is the King's step or higher.
pub open spec fn next_level(prev: int, rank: int) -> int {
    if rank == 1 {
        if prev >= 13 {
            prev + 1
        } else {
            14
        }
    } else {
        rank
    }
}

/// The step of the rank ladder on which card `i` of a run stands.
pub open spec fn run_level(run: Seq<Card>, i: int) -> int
    decreases i,
{
    if i <= 0 {
        rank_of(run[0])
    } else {
        next_level(run_level(run, i - 1), rank_of(run[i]))
    }
}

/// Whether card `i` of a run stands on a higher step than the card before
/// it.
pub open spec fn steps_up(run: Seq<Card>, i: int) -> bool {
    run_level(run, i) > run_level(run, i - 1)
}

/// The number of steps left free between card `i` of a run and the card
/// before it.
pub open spec fn gap_before(run: Seq<Card>, i: int) -> int {
    if i <= 0 {
        0
    } else {
        run_level(run, i) - run_level(run, i - 1) - 1
    }
}

/// The number of steps left free between the first and the last card of a
/// run.
pub open spec fn gaps_total(run: Seq<Card>) -> int {
    if run.len() == 0 {
        0
    } else {
        run_level(run, run.len() - 1) - run_level(run, 0) - (run.len() - 1)
    }
}

/// The same-suit rule, for regular cards in the order in which they are to
/// be read and a number of Jokers: the cards share one suit, each stands on
/// a higher step than the one before it, and there are Jokers enough to fill
/// every step left free between them.
pub open spec fn is_run(run: Seq<Card>, n_jokers: int) -> bool {
    &&& forall|i: int| 0 < i < run.len() ==> suit_of(#[trigger] run[i]) == suit_of(run[0])
    &&& forall|i: int| 0 < i < run.len() ==> #[trigger] steps_up(run, i)
    &&& gaps_total(run) <= n_jokers
}

/// The first `k` cards of a run with a Joker on each step left free between
/// them.
pub open spec fn run_layout_prefix(run: Seq<Card>, k: int) -> Seq<Card>
    decreases k,
{
    if k <= 0 {
        Seq::empty()
    } else {
        run_layout_prefix(run, k - 1) + jokers(gap_before(run, k - 1)) + seq![run[k - 1]]
    }
}

/// A run laid out for display: its cards with a Joker on each free step
/// between them, and the Jokers that are left over at the end.
pub open spec fn run_layout(run: Seq<Card>, n_jokers: int) -> Seq<Card> {
    run_layout_prefix(run, run.len() as int) + jokers(n_jokers - gaps_total(run))
}

/// Whether the card is a King.
pub open spec fn is_king(card: Card) -> bool {
    card != Card::Joker && rank_of(card) == 13
}

/// Whether the card is an Ace.
pub open spec fn is_ace(card: Card) -> bool {
    card != Card::Joker && rank_of(card) == 1
}

/// A layout that would begin with a King followed by a Joker, or by an Ace
/// and a Joker, has that Joker moved to the front.
pub open spec fn tidy_leading_king(cards: Seq<Card>) -> Seq<Card> {
    if cards.len() >= 2 && is_king(cards[0]) && cards[1] == Card::Joker {
        cards.update(0, cards[1]).update(1, cards[0])
    } else if cards.len() >= 3 && is_king(cards[0]) && is_ace(cards[1]) && cards[2]
        == Card::Joker {
        cards.update(0, cards[2]).update(1, cards[0]).update(2, cards[1])
    } else {
        cards
    }
}

/// The cards with the first one moved to the end.
pub open spec fn first_to_end(cards: Seq<Card>) -> Seq<Card> {
    if cards.len() == 0 {
        cards
    } else {
        cards.drop_first().push(cards[0])
    }
}

/// Whether regular cards in rank order begin with an Ace that may also be
/// read as the high card: an Ace that no 2 follows.
pub open spec fn leading_ace_may_be_high(low: Seq<Card>) -> bool {
    low.len() >= 1 && is_ace(low[0]) && (low.len() >= 2 ==> rank_of(low[1]) != 2)
}

/// How a sequence is accepted as a meld: the arrangement in which it is laid
/// on the table, or `None` where it is no meld.
///
/// Only Jokers make a meld of any length from one up, left as they are.
/// Otherwise a meld has three cards or more. The same-rank rule is tried
/// first and leaves the cards in rank order. Then the same-suit rule is
/// tried on the regular cards in rank order: with a leading Ace moved to the
/// end where it may be the high card, and then as they stand.
pub open spec fn meld_reading(cards: Seq<Card>) -> Option<Seq<Card>> {
    if cards.len() == 0 {
        None
    } else if only_jokers(cards) {
        Some(cards)
    } else if cards.len() < 3 {
        None
    } else {
        let sorted = sorted_by_rank(cards);
        let low = regular_cards(sorted);
        let high = first_to_end(low);
        let n_jokers = joker_count(sorted) as int;
        if same_rank_set(cards) {
            Some(sorted)
        } else if leading_ace_may_be_high(low) && is_run(high, n_jokers) {
            Some(tidy_leading_king(run_layout(high, n_jokers)))
        } else if is_run(low, n_jokers) {
            Some(tidy_leading_king(run_layout(low, n_jokers)))
        } else {
            None
        }
    }
}

/// Whether a sequence of cards is a legal meld.
pub open spec fn is_meld(cards: Seq<Card>) -> bool {
    meld_reading(cards) is Some
}

/// A sequence of fewer than three cards that are not all Jokers is no meld.
pub proof fn lemma_short_sequence_is_no_meld(cards: Seq<Card>)
    requires
        cards.len() < 3,
        !only_jokers(cards),
    ensures
        !is_meld(cards),
{
}

/// One Joker or more, and nothing else, make a meld.
pub proof fn lemma_jokers_make_a_meld(cards: Seq<Card>)
    requires
        cards.len() >= 1,
        only_jokers(cards),
    ensures
        is_meld(cards),
        meld_reading(cards) == Some(cards),
{
}

/// In a run whose cards stand on rising steps from card `i` on, the free
/// steps up to a later card `j` are at least those up to card `i`.
pub proof fn lemma_gaps_grow(run: Seq<Card>, i: int, j: int)
    requires
        0 <= i <= j < run.len(),
        forall|k: int| i < k <= j ==> #[trigger] steps_up(run, k),
    ensures
        run_level(run, j) - j >= run_level(run, i) - i,
    decreases j - i,
{
    if i < j {
        lemma_gaps_grow(run, i, j - 1);
        assert(steps_up(run, j));
    }
}

/// Jokers put behind Jokers are as many Jokers as both together.
proof fn lemma_jokers_add(a: int, b: int)
    requires
        a >= 0,
        b >= 0,
    ensures
        jokers(a) + jokers(b) == jokers(a + b),
        jokers(a).to_multiset().add(jokers(b).to_multiset()) == jokers(a + b).to_multiset(),
{
    assert(jokers(a) + jokers(b) =~= jokers(a + b));
    vstd::seq_lib::lemma_multiset_commutative(jokers(a), jokers(b));
}

/// The cards of a sequence are its regular cards and as many Jokers as it
/// holds.
pub proof fn lemma_regular_cards_and_jokers(cards: Seq<Card>)
    ensures
        regular_cards(cards).len() <= cards.len(),
        cards.to_multiset() == regular_cards(cards).to_multiset().add(
            jokers(joker_count(cards) as int).to_multiset(),
        ),
    decreases cards.len(),
{
    broadcast use vstd::multiset::group_multiset_axioms;

    cards.lemma_filter_len(is_regular());
    if cards.len() == 0 {
        assert(regular_cards(cards) =~= Seq::<Card>::empty());
        assert(jokers(0) =~= Seq::<Card>::empty());
        assert(cards =~= Seq::<Card>::empty());
        vstd::seq_lib::lemma_multiset_commutative(Seq::<Card>::empty(), Seq::<Card>::empty());
        assert(Seq::<Card>::empty() + Seq::<Card>::empty() =~= Seq::<Card>::empty());
        vstd::seq_lib::to_multiset_len(Seq::<Card>::empty());
        assert(Seq::<Card>::empty().to_multiset() =~= vstd::multiset::Multiset::<Card>::empty());
    } else {
        let front = cards.drop_last();
        let c = cards.last();
        lemma_regular_cards_and_jokers(front);
        front.lemma_filter_len(is_regular());
        assert(front.push(c) =~= cards);
        front.lemma_filter_push(c, is_regular());
        vstd::seq_lib::to_multiset_build(front, c);
        let n = joker_count(front) as int;
        if c != Card::Joker {
            vstd::seq_lib::to_multiset_build(regular_cards(front), c);
            assert(cards.to_multiset() =~= regular_cards(cards).to_multiset().add(
                jokers(joker_count(cards) as int).to_multiset(),
            ));
        } else {
            assert(jokers(n).push(Card::Joker) =~= jokers(n + 1));
            vstd::seq_lib::to_multiset_build(jokers(n), c);
            assert(cards.to_multiset() =~= regular_cards(cards).to_multiset().add(
                jokers(joker_count(cards) as int).to_multiset(),
            ));
        }
    }
}

/// The first cards of a run that is laid out are those cards and the
/// Jokers on the steps between them.
proof fn lemma_layout_prefix_cards(run: Seq<Card>, k: int)
    requires
        0 <= k <= run.len(),
        forall|i: int| 0 < i < k ==> #[trigger] steps_up(run, i),
    ensures
        k > 0 ==> run_level(run, k - 1) - run_level(run, 0) - (k - 1) >= 0,
        run_layout_prefix(run, k).to_multiset() == run.take(k).to_multiset().add(
            jokers(
                if k == 0 {
                    0
                } else {
                    run_level(run, k - 1) - run_level(run, 0) - (k - 1)
                },
            ).to_multiset(),
        ),
    decreases k,
{
    broadcast use vstd::multiset::group_multiset_axioms;

    if k == 0 {
        assert(run_layout_prefix(run, 0) =~= Seq::<Card>::empty());
        assert(run.take(0) =~= Seq::<Card>::empty());
        assert(jokers(0) =~= Seq::<Card>::empty());
        vstd::seq_lib::lemma_multiset_commutative(Seq::<Card>::empty(), Seq::<Card>::empty());
        assert(Seq::<Card>::empty() + Seq::<Card>::empty() =~= Seq::<Card>::empty());
        vstd::seq_lib::to_multiset_len(Seq::<Card>::empty());
        assert(Seq::<Card>::empty().to_multiset() =~= vstd::multiset::Multiset::<Card>::empty());
    } else {
        lemma_layout_prefix_cards(run, k - 1);
        let before = run_layout_prefix(run, k - 1);
        let g = gap_before(run, k - 1);
        let c = run[k - 1];
        let used = if k - 1 == 0 {
            0
        } else {
            run_level(run, k - 2) - run_level(run, 0) - (k - 2)
        };
        if k - 1 > 0 {
            assert(steps_up(run, k - 1));
        }
        assert(g >= 0);
        assert(run_layout_prefix(run, k) =~= (before + jokers(g)).push(c));
        vstd::seq_lib::to_multiset_build(before + jokers(g), c);
        vstd::seq_lib::lemma_multiset_commutative(before, jokers(g));
        assert(run.take(k) =~= run.take(k - 1).push(c));
        vstd::seq_lib::to_multiset_build(run.take(k - 1), c);
        lemma_jokers_add(used, g);
        assert(run_layout_prefix(run, k).to_multiset() =~= run.take(k).to_multiset().add(
            jokers(used + g).to_multiset(),
        ));
    }
}

/// A run that is laid out holds the cards of the run and the Jokers that
/// were at hand.
proof fn lemma_layout_cards(run: Seq<Card>, n_jokers: int)
    requires
        is_run(run, n_jokers),
        n_jokers >= 0,
    ensures
        run_layout(run, n_jokers).to_multiset() == run.to_multiset().add(
            jokers(n_jokers).to_multiset(),
        ),
{
    broadcast use vstd::multiset::group_multiset_axioms;

    let k = run.len() as int;
    assert forall|i: int| 0 < i < k implies #[trigger] steps_up(run, i) by {}
    lemma_layout_prefix_cards(run, k);
    assert(run.take(k) =~= run);
    let used = gaps_total(run);
    assert(used >= 0);
    vstd::seq_lib::lemma_multiset_commutative(
        run_layout_prefix(run, k),
        jokers(n_jokers - used),
    );
    lemma_jokers_add(used, n_jokers - used);
    assert(run_layout(run, n_jokers).to_multiset() =~= run.to_multiset().add(
        jokers(n_jokers).to_multiset(),
    ));
}

/// Tidying a layout moves a Joker and keeps the cards.
proof fn lemma_tidy_cards(cards: Seq<Card>)
    ensures
        tidy_leading_king(cards).to_multiset() == cards.to_multiset(),
{
    broadcast use vstd::multiset::group_multiset_axioms;

    if cards.len() >= 2 && is_king(cards[0]) && cards[1] == Card::Joker {
        let t = cards.update(0, cards[1]);
        vstd::seq_lib::to_multiset_update(cards, 0, cards[1]);
        vstd::seq_lib::to_multiset_update(t, 1, cards[0]);
        vstd::seq_lib::to_multiset_contains(cards, cards[0]);
        vstd::seq_lib::to_multiset_contains(cards, cards[1]);
        assert(tidy_leading_king(cards).to_multiset() =~= cards.to_multiset());
    } else if cards.len() >= 3 && is_king(cards[0]) && is_ace(cards[1]) && cards[2]
        == Card::Joker {
        let t = cards.update(0, cards[2]);
        let u = t.update(1, cards[0]);
        vstd::seq_lib::to_multiset_update(cards, 0, cards[2]);
        vstd::seq_lib::to_multiset_update(t, 1, cards[0]);
        vstd::seq_lib::to_multiset_update(u, 2, cards[1]);
        vstd::seq_lib::to_multiset_contains(cards, cards[0]);
        vstd::seq_lib::to_multiset_contains(cards, cards[1]);
        vstd::seq_lib::to_multiset_contains(cards, cards[2]);
        assert(tidy_leading_king(cards).to_multiset() =~= cards.to_multiset());
    }
}

/// Moving the first card to the end keeps the cards.
proof fn lemma_first_to_end_cards(cards: Seq<Card>)
    ensures
        first_to_end(cards).to_multiset() == cards.to_multiset(),
{
    broadcast use vstd::multiset::group_multiset_axioms;

    if cards.len() > 0 {
        assert(cards.remove(0) =~= cards.drop_first());
        vstd::seq_lib::to_multiset_remove(cards, 0);
        vstd::seq_lib::to_multiset_build(cards.drop_first(), cards[0]);
        vstd::seq_lib::to_multiset_contains(cards, cards[0]);
        assert(first_to_end(cards).to_multiset() =~= cards.to_multiset());
    }
}

/// Cards that are read as a run as they stand are laid out with the same
/// cards.
pub proof fn lemma_run_keeps_its_cards(cards: Seq<Card>)
    requires
        is_run(regular_cards(cards), joker_count(cards) as int),
    ensures
        tidy_leading_king(
            run_layout(regular_cards(cards), joker_count(cards) as int),
        ).to_multiset() == cards.to_multiset(),
{
    let run = regular_cards(cards);
    let n = joker_count(cards) as int;
    lemma_regular_cards_and_jokers(cards);
    lemma_layout_cards(run, n);
    lemma_tidy_cards(run_layout(run, n));
}

/// A meld is laid on the table with the cards that were submitted: reading
/// a sequence as a meld adds no card and loses none.
pub proof fn lemma_meld_keeps_its_cards(cards: Seq<Card>)
    ensures
        meld_reading(cards) matches Some(reading) ==> reading.to_multiset()
            == cards.to_multiset(),
{
    if meld_reading(cards) is Some && !only_jokers(cards) {
        lemma_card_orders_total();
        let sorted = sorted_by_rank(cards);
        cards.lemma_sort_by_ensures(rank_order());
        let low = regular_cards(sorted);
        let high = first_to_end(low);
        let n = joker_count(sorted) as int;
        lemma_regular_cards_and_jokers(sorted);
        if same_rank_set(cards) {
        } else if leading_ace_may_be_high(low) && is_run(high, n) {
            lemma_layout_cards(high, n);
            lemma_tidy_cards(run_layout(high, n));
            lemma_first_to_end_cards(low);
        } else {
            lemma_layout_cards(low, n);
            lemma_tidy_cards(run_layout(low, n));
        }
    }
}

} // verus!
