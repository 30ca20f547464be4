//! Where the cards of a game are: what a turn may do to the hand, the
//! table, the deck and the borrowed cards never makes a card or loses one,
//! but for giving up twice in one turn.

use crate::meld::{
    lemma_card_orders_total, lemma_meld_keeps_its_cards, meld_reading, rank_order, suit_order,
};
use crate::sequence_cards::Card;
use crate::turn::{
    drawn_cards, extended_meld, give_up_step, in_sort_mode, penalty_size, pick_one, picking,
    start_picking, take_one, taking, turn_step, Picking, Taking, TurnView, SORT_MODE_RANK,
    SORT_MODE_SUIT,
};
use vstd::multiset::Multiset;
use vstd::prelude::*;

verus! {

/// The cards of the melds on a table.
pub open spec fn table_cards(melds: Seq<Seq<Card>>) -> Multiset<Card>
    decreases melds.len(),
{
    if melds.len() == 0 {
        Multiset::empty()
    } else {
        table_cards(melds.drop_last()).add(melds.last().to_multiset())
    }
}

/// The cards that a turn works on: those of the hand, of the borrowed
/// cards and of the table.
pub open spec fn cards_in_play(v: TurnView) -> Multiset<Card> {
    v.hand.to_multiset().add(v.borrowed.to_multiset()).add(table_cards(v.table))
}

/// All the cards of the game that a turn can reach: those in play, and
/// the deck.
pub open spec fn cards_in_game(v: TurnView) -> Multiset<Card> {
    cards_in_play(v).add(v.deck.to_multiset())
}

/// No cards are no cards.
proof fn lemma_empty_cards()
    ensures
        Seq::<Card>::empty().to_multiset() == Multiset::<Card>::empty(),
{
    broadcast use vstd::multiset::group_multiset_axioms;

    vstd::seq_lib::to_multiset_len(Seq::<Card>::empty());
    assert(Seq::<Card>::empty().to_multiset() =~= Multiset::<Card>::empty());
}

/// The cards of a table with one meld more at position 1.
proof fn lemma_table_cards_front(meld: Seq<Card>, melds: Seq<Seq<Card>>)
    ensures
        table_cards(seq![meld] + melds) == meld.to_multiset().add(table_cards(melds)),
    decreases melds.len(),
{
    broadcast use vstd::multiset::group_multiset_axioms;

    let all = seq![meld] + melds;
    if melds.len() == 0 {
        assert(all.drop_last() =~= melds);
        assert(all.last() == meld);
        assert(table_cards(all) =~= meld.to_multiset().add(table_cards(melds)));
    } else {
        lemma_table_cards_front(meld, melds.drop_last());
        assert(all.drop_last() =~= seq![meld] + melds.drop_last());
        assert(all.last() == melds.last());
        assert(table_cards(all) =~= meld.to_multiset().add(table_cards(melds)));
    }
}

/// The cards of a table are those of one of its melds and those of the
/// table without that meld.
proof fn lemma_table_cards_remove(melds: Seq<Seq<Card>>, i: int)
    requires
        0 <= i < melds.len(),
    ensures
        table_cards(melds) == table_cards(melds.remove(i)).add(melds[i].to_multiset()),
    decreases melds.len(),
{
    broadcast use vstd::multiset::group_multiset_axioms;

    if i == melds.len() - 1 {
        assert(melds.remove(i) =~= melds.drop_last());
    } else {
        lemma_table_cards_remove(melds.drop_last(), i);
        assert(melds.remove(i).drop_last() =~= melds.drop_last().remove(i));
        assert(melds.remove(i).last() == melds.last());
        assert(table_cards(melds) =~= table_cards(melds.remove(i)).add(melds[i].to_multiset()));
    }
}

/// Cards in the opposite order are the same cards.
proof fn lemma_reverse_cards(cards: Seq<Card>)
    ensures
        cards.reverse().to_multiset() == cards.to_multiset(),
    decreases cards.len(),
{
    broadcast use vstd::multiset::group_multiset_axioms;

    if cards.len() == 0 {
        assert(cards.reverse() =~= cards);
    } else {
        let front = cards.drop_last();
        lemma_reverse_cards(front);
        assert(cards.reverse() =~= seq![cards.last()] + front.reverse());
        vstd::seq_lib::lemma_multiset_commutative(seq![cards.last()], front.reverse());
        assert(front.push(cards.last()) =~= cards);
        vstd::seq_lib::to_multiset_build(front, cards.last());
        assert(Seq::<Card>::empty().push(cards.last()) =~= seq![cards.last()]);
        vstd::seq_lib::to_multiset_build(Seq::<Card>::empty(), cards.last());
        lemma_empty_cards();
        assert(cards.reverse().to_multiset() =~= cards.to_multiset());
    }
}

/// Cards in the order of a sort mode are the same cards.
proof fn lemma_sort_mode_cards(cards: Seq<Card>, sort_mode: u8)
    ensures
        in_sort_mode(cards, sort_mode).to_multiset() == cards.to_multiset(),
{
    lemma_card_orders_total();
    if sort_mode == SORT_MODE_RANK {
        cards.lemma_sort_by_ensures(rank_order());
    } else if sort_mode == SORT_MODE_SUIT {
        cards.lemma_sort_by_ensures(suit_order());
    }
}

/// Whether a picking has kept the cards: what is left of the hand and what
/// was taken from it are the hand, likewise for the borrowed cards, and all
/// the cards taken are those taken from the one and from the other.
pub open spec fn picking_keeps_cards(p: Picking, hand: Seq<Card>, borrowed: Seq<Card>) -> bool {
    &&& p.hand.to_multiset().add(p.from_hand.to_multiset()) == hand.to_multiset()
    &&& p.borrowed.to_multiset().add(p.from_borrowed.to_multiset()) == borrowed.to_multiset()
    &&& p.picked.to_multiset() == p.from_hand.to_multiset().add(p.from_borrowed.to_multiset())
}

/// One request keeps the cards.
proof fn lemma_pick_one_keeps_cards(
    p: Picking,
    n_hand: int,
    request: Option<usize>,
    hand: Seq<Card>,
    borrowed: Seq<Card>,
)
    requires
        picking_keeps_cards(p, hand, borrowed),
    ensures
        picking_keeps_cards(pick_one(p, n_hand, request), hand, borrowed),
{
    broadcast use vstd::multiset::group_multiset_axioms;

    let q = pick_one(p, n_hand, request);
    if q != p {
        let n = request->0;
        if n <= n_hand {
            let at = n - crate::turn::count_below(p.hand_asked, n as int);
            let card = p.hand[at - 1];
            vstd::seq_lib::to_multiset_remove(p.hand, at - 1);
            vstd::seq_lib::to_multiset_build(p.from_hand, card);
            vstd::seq_lib::to_multiset_build(p.picked, card);
            vstd::seq_lib::to_multiset_contains(p.hand, card);
            assert(q.hand.to_multiset().add(q.from_hand.to_multiset()) =~= hand.to_multiset());
            assert(q.picked.to_multiset() =~= q.from_hand.to_multiset().add(
                q.from_borrowed.to_multiset(),
            ));
        } else {
            let m = n - n_hand;
            let at = m - crate::turn::count_below(p.borrowed_asked, m);
            let card = p.borrowed[at - 1];
            vstd::seq_lib::to_multiset_remove(p.borrowed, at - 1);
            vstd::seq_lib::to_multiset_build(p.from_borrowed, card);
            vstd::seq_lib::to_multiset_build(p.picked, card);
            vstd::seq_lib::to_multiset_contains(p.borrowed, card);
            assert(q.borrowed.to_multiset().add(q.from_borrowed.to_multiset())
                =~= borrowed.to_multiset());
            assert(q.picked.to_multiset() =~= q.from_hand.to_multiset().add(
                q.from_borrowed.to_multiset(),
            ));
        }
    }
}

/// Picking cards takes them from the hand and from the borrowed cards and
/// makes none and loses none.
pub proof fn lemma_picking_keeps_cards(
    hand: Seq<Card>,
    borrowed: Seq<Card>,
    requests: Seq<Option<usize>>,
)
    ensures
        picking_keeps_cards(picking(hand, borrowed, requests), hand, borrowed),
    decreases requests.len(),
{
    broadcast use vstd::multiset::group_multiset_axioms;

    lemma_empty_cards();
    if requests.len() == 0 {
        let p = start_picking(hand, borrowed);
        assert(p.hand.to_multiset().add(p.from_hand.to_multiset()) =~= hand.to_multiset());
        assert(p.borrowed.to_multiset().add(p.from_borrowed.to_multiset())
            =~= borrowed.to_multiset());
        assert(p.picked.to_multiset() =~= p.from_hand.to_multiset().add(
            p.from_borrowed.to_multiset(),
        ));
    } else {
        lemma_picking_keeps_cards(hand, borrowed, requests.drop_last());
        lemma_pick_one_keeps_cards(
            picking(hand, borrowed, requests.drop_last()),
            hand.len() as int,
            requests.last(),
            hand,
            borrowed,
        );
    }
}

/// Taking melds moves their cards from the table to the borrowed cards and
/// makes none and loses none.
pub proof fn lemma_taking_keeps_cards(
    table: Seq<Seq<Card>>,
    borrowed: Seq<Card>,
    requests: Seq<Option<usize>>,
)
    ensures
        taking(table, borrowed, requests).borrowed.to_multiset().add(
            table_cards(taking(table, borrowed, requests).table),
        ) == borrowed.to_multiset().add(table_cards(table)),
    decreases requests.len(),
{
    broadcast use vstd::multiset::group_multiset_axioms;

    if requests.len() > 0 {
        lemma_taking_keeps_cards(table, borrowed, requests.drop_last());
        let t = taking(table, borrowed, requests.drop_last());
        let u = take_one(t, requests.last());
        if u.table != t.table {
            let n = requests.last()->0;
            let at = n - crate::turn::count_below(t.asked, n as int);
            lemma_table_cards_remove(t.table, at - 1);
            vstd::seq_lib::lemma_multiset_commutative(t.borrowed, t.table[at - 1]);
            assert(u.borrowed.to_multiset().add(table_cards(u.table)) =~= t.borrowed.to_multiset().add(
                table_cards(t.table),
            ));
        }
    }
}

/// No action of a turn but giving up makes a card or loses one: the cards
/// of the hand, of the borrowed cards, of the table and of the deck are the
/// same cards after it as before.
pub proof fn lemma_actions_keep_the_cards(v: TurnView, mes: Seq<u8>)
    requires
        mes.len() == 0 || mes[0] != crate::turn::ACTION_GIVE_UP,
    ensures
        cards_in_game(turn_step(v, mes).0) == cards_in_game(v),
{
    broadcast use vstd::multiset::group_multiset_axioms;

    let w = turn_step(v, mes).0;
    if w != v {
        let action = mes[0];
        let requests = crate::text::requests_of(vstd::utf8::decode_utf8(mes.skip(1)));
        if action == crate::turn::ACTION_END_TURN {
            lemma_sort_mode_cards(v.hand, v.sort_mode);
            if v.deck.len() > 0 {
                let card = v.deck.last();
                lemma_sort_mode_cards(v.hand.push(card), v.sort_mode);
                vstd::seq_lib::to_multiset_build(v.hand, card);
                assert(v.deck.remove(v.deck.len() - 1) =~= v.deck.drop_last());
                vstd::seq_lib::to_multiset_remove(v.deck, v.deck.len() - 1);
                vstd::seq_lib::to_multiset_contains(v.deck, card);
            }
            assert(cards_in_game(w) =~= cards_in_game(v));
        } else if action == crate::turn::ACTION_SORT_BY_RANK || action
            == crate::turn::ACTION_SORT_BY_SUIT {
            lemma_sort_mode_cards(v.hand, SORT_MODE_RANK);
            lemma_sort_mode_cards(v.hand, SORT_MODE_SUIT);
            lemma_sort_mode_cards(v.borrowed, SORT_MODE_RANK);
            lemma_sort_mode_cards(v.borrowed, SORT_MODE_SUIT);
            assert(cards_in_game(w) =~= cards_in_game(v));
        } else if action == crate::turn::ACTION_PLAY {
            let p = picking(v.hand, v.borrowed, requests);
            lemma_picking_keeps_cards(v.hand, v.borrowed, requests);
            lemma_meld_keeps_its_cards(p.picked);
            lemma_table_cards_front(meld_reading(p.picked)->0, v.table);
            assert(cards_in_game(w) =~= cards_in_game(v));
        } else if action == crate::turn::ACTION_TAKE {
            lemma_taking_keeps_cards(v.table, v.borrowed, requests);
            let t = taking(v.table, v.borrowed, requests);
            assert forall|c: Card|
                t.borrowed.to_multiset().count(c) + table_cards(t.table).count(c)
                    == v.borrowed.to_multiset().count(c) + table_cards(v.table).count(c) by {
                assert(t.borrowed.to_multiset().add(table_cards(t.table)).count(c)
                    == v.borrowed.to_multiset().add(table_cards(v.table)).count(c));
            }
            assert(cards_in_game(w) =~= cards_in_game(v));
        } else if action == crate::turn::ACTION_ADD {
            let n = requests[0]->0;
            let target = v.table[n - 1];
            let p = picking(v.hand, v.borrowed, requests.drop_first());
            let submitted = extended_meld(target, p);
            lemma_picking_keeps_cards(v.hand, v.borrowed, requests.drop_first());
            lemma_meld_keeps_its_cards(submitted);
            lemma_table_cards_remove(v.table, n - 1);
            lemma_table_cards_front(meld_reading(submitted)->0, v.table.remove(n - 1));
            let addition = p.from_hand + p.from_borrowed.reverse();
            lemma_reverse_cards(addition);
            lemma_reverse_cards(p.from_borrowed);
            vstd::seq_lib::lemma_multiset_commutative(p.from_hand, p.from_borrowed.reverse());
            vstd::seq_lib::lemma_multiset_commutative(target, addition.reverse());
            let reading = meld_reading(submitted)->0;
            assert(w.table == seq![reading] + v.table.remove(n - 1));
            assert(w.hand == p.hand && w.borrowed == p.borrowed && w.deck == v.deck);
            assert(submitted == target + addition.reverse());
            assert(submitted.to_multiset() =~= target.to_multiset().add(
                p.from_hand.to_multiset(),
            ).add(p.from_borrowed.to_multiset()));
            assert(table_cards(w.table) =~= table_cards(v.table.remove(n - 1)).add(
                target.to_multiset(),
            ).add(p.from_hand.to_multiset()).add(p.from_borrowed.to_multiset()));
            assert(cards_in_game(w) =~= cards_in_game(v));
        }
    }
}

/// Giving up keeps the cards of the game where the cards in play are those
/// with which the turn began. It does not where the player has given up
/// before in the same turn: the hand goes back to that of the start of the
/// turn, and what was drawn as a penalty before is lost.
pub proof fn lemma_giving_up_keeps_the_cards(v: TurnView)
    requires
        cards_in_play(v) == v.hand_start.to_multiset().add(table_cards(v.table_start)),
    ensures
        cards_in_game(give_up_step(v).0) == cards_in_game(v),
{
    broadcast use vstd::multiset::group_multiset_axioms;

    let w = give_up_step(v).0;
    if v.borrowed.len() > 0 {
        let k = penalty_size(v.deck);
        let rest = v.deck.take(v.deck.len() - k);
        let drawn = v.deck.skip(v.deck.len() - k);
        assert(rest + drawn =~= v.deck);
        vstd::seq_lib::lemma_multiset_commutative(rest, drawn);
        lemma_reverse_cards(drawn);
        vstd::seq_lib::lemma_multiset_commutative(v.hand_start, drawn_cards(v.deck, k));
        lemma_empty_cards();
        assert(cards_in_game(w) =~= cards_in_game(v));
    }
}

} // verus!
