//! One player's turn: what each action does to the hand, the table, the deck
//! and the cards borrowed from the table.

use crate::errors::{NoMoreCards, StreamError};
use crate::meld::{meld_reading, sorted_by_rank, sorted_by_suit};
use crate::sequence_cards::{Card, Sequence};
use crate::table::Table;
use crate::text::{parse_requests, requests_of};
use vstd::prelude::*;
use vstd::string::StringExecFns;
use vstd::utf8::{decode_utf8, valid_utf8};

verus! {

/// The number of cards that a player who gives up has to draw.
pub const PENALTY_RESET: usize = 3;

/// The cards that come off a deck when `n` cards are drawn from it, in the
/// order in which they are drawn: the last card of the deck first.
pub open spec fn drawn_cards(deck: Seq<Card>, n: int) -> Seq<Card> {
    deck.skip(deck.len() - n).reverse()
}

/// The number of cards that giving up costs: three, or all that the deck
/// still holds.
pub open spec fn penalty_size(deck: Seq<Card>) -> int {
    if deck.len() < PENALTY_RESET {
        deck.len() as int
    } else {
        PENALTY_RESET as int
    }
}

/// Moves the last card of the deck to the end of the hand.
pub fn pick_a_card(hand: &mut Sequence, deck: &mut Sequence) -> (res: Result<Card, NoMoreCards>)
    ensures
        old(deck)@.len() == 0 ==> res is Err && final(hand)@ == old(hand)@ && final(deck)@ == old(
            deck,
        )@,
        old(deck)@.len() > 0 ==> res is Ok && res->Ok_0 == old(deck)@.last(),
        old(deck)@.len() > 0 ==> final(deck)@ == old(deck)@.drop_last(),
        old(deck)@.len() > 0 ==> final(hand)@ == old(hand)@.push(old(deck)@.last()),
{
    let card = match deck.draw_card() {
        Some(c) => c,
        None => {
            return Err(NoMoreCards {  });
        },
    };
    hand.add_card(card);
    Ok(card)
}

/// Gives the turn up: the hand and the table go back to what they were when
/// the turn began, the borrowed cards are dropped, and the player draws the
/// penalty, as far as the deck lasts. Returns the number of cards drawn.
pub fn give_up(
    table: &mut Table,
    hand: &mut Sequence,
    deck: &mut Sequence,
    hand_start_round: &Sequence,
    table_start_round: &Table,
    cards_from_table: &mut Sequence,
) -> (drawn: usize)
    ensures
        drawn == penalty_size(old(deck)@),
        final(table)@ == table_start_round@,
        final(cards_from_table)@ == Seq::<Card>::empty(),
        final(hand)@ == hand_start_round@ + drawn_cards(old(deck)@, drawn as int),
        final(deck)@ == old(deck)@.take(old(deck)@.len() - drawn),
{
    *hand = hand_start_round.clone();
    *table = table_start_round.clone();
    *cards_from_table = Sequence::new();
    let mut drawn: usize = 0;
    assert(hand@ =~= hand_start_round@ + drawn_cards(old(deck)@, 0));
    assert(deck@ =~= old(deck)@.take(old(deck)@.len() - 0));
    while drawn < PENALTY_RESET
        invariant
            drawn <= PENALTY_RESET,
            drawn <= old(deck)@.len(),
            hand@ == hand_start_round@ + drawn_cards(old(deck)@, drawn as int),
            deck@ == old(deck)@.take(old(deck)@.len() - drawn),
            table@ == table_start_round@,
            cards_from_table@ == Seq::<Card>::empty(),
        ensures
            drawn == penalty_size(old(deck)@),
            hand@ == hand_start_round@ + drawn_cards(old(deck)@, drawn as int),
            deck@ == old(deck)@.take(old(deck)@.len() - drawn),
            table@ == table_start_round@,
            cards_from_table@ == Seq::<Card>::empty(),
        decreases PENALTY_RESET - drawn,
    {
        match pick_a_card(hand, deck) {
            Ok(_) => {
                assert(hand@ =~= hand_start_round@ + drawn_cards(old(deck)@, drawn + 1));
                assert(deck@ =~= old(deck)@.take(old(deck)@.len() - (drawn + 1)));
                drawn += 1;
            },
            Err(_) => {
                break ;
            },
        }
    }
    drawn
}

/// The state of picking cards out of the hand and out of the borrowed
/// cards, one request after the other.
pub struct Picking {
    /// What is left of the hand.
    pub hand: Seq<Card>,
    /// What is left of the borrowed cards.
    pub borrowed: Seq<Card>,
    /// The positions at which a card was taken from the hand.
    pub hand_asked: Seq<int>,
    /// The positions at which a card was taken from the borrowed cards.
    pub borrowed_asked: Seq<int>,
    /// The cards taken from the hand, in the order of the requests.
    pub from_hand: Seq<Card>,
    /// The cards taken from the borrowed cards, in the order of the requests.
    pub from_borrowed: Seq<Card>,
    /// All the cards taken, in the order of the requests.
    pub picked: Seq<Card>,
}

/// The start of a picking: nothing taken yet.
pub open spec fn start_picking(hand: Seq<Card>, borrowed: Seq<Card>) -> Picking {
    Picking {
        hand,
        borrowed,
        hand_asked: Seq::empty(),
        borrowed_asked: Seq::empty(),
        from_hand: Seq::empty(),
        from_borrowed: Seq::empty(),
        picked: Seq::empty(),
    }
}

/// How many of the positions asked for before lie below `n`.
pub open spec fn count_below(asked: Seq<int>, n: int) -> int
    decreases asked.len(),
{
    if asked.len() == 0 {
        0
    } else {
        count_below(asked.drop_last(), n) + if asked.last() < n {
            1int
        } else {
            0int
        }
    }
}

/// One request. Positions count from 1 through the hand as it was when the
/// picking began (`n_hand` cards) and go on through the borrowed cards. A
/// position is moved down by the number of positions below it at which a
/// card was taken before, and the card now at that place is taken. A request
/// that is no number, or that names no card, changes nothing.
pub open spec fn pick_one(p: Picking, n_hand: int, request: Option<usize>) -> Picking {
    match request {
        None => p,
        Some(n) => {
            if n <= n_hand {
                let at = n - count_below(p.hand_asked, n as int);
                if 1 <= at <= p.hand.len() {
                    Picking {
                        hand: p.hand.remove(at - 1),
                        hand_asked: p.hand_asked.push(n as int),
                        from_hand: p.from_hand.push(p.hand[at - 1]),
                        picked: p.picked.push(p.hand[at - 1]),
                        ..p
                    }
                } else {
                    p
                }
            } else {
                let m = n - n_hand;
                let at = m - count_below(p.borrowed_asked, m);
                if 1 <= at <= p.borrowed.len() {
                    Picking {
                        borrowed: p.borrowed.remove(at - 1),
                        borrowed_asked: p.borrowed_asked.push(m),
                        from_borrowed: p.from_borrowed.push(p.borrowed[at - 1]),
                        picked: p.picked.push(p.borrowed[at - 1]),
                        ..p
                    }
                } else {
                    p
                }
            }
        },
    }
}

/// The requests one after the other.
pub open spec fn pick_all(p: Picking, n_hand: int, requests: Seq<Option<usize>>) -> Picking
    decreases requests.len(),
{
    if requests.len() == 0 {
        p
    } else {
        pick_one(pick_all(p, n_hand, requests.drop_last()), n_hand, requests.last())
    }
}

/// What a picking of the given requests leaves and yields.
pub open spec fn picking(hand: Seq<Card>, borrowed: Seq<Card>, requests: Seq<Option<usize>>) -> Picking {
    pick_all(start_picking(hand, borrowed), hand.len() as int, requests)
}

/// How many of the positions asked for before lie below `n`.
fn count_lower(asked: &Vec<usize>, n: usize) -> (res: usize)
    ensures
        res == count_below(asked@.map_values(|x: usize| x as int), n as int),
        res <= asked@.len(),
{
    let ghost all = asked@.map_values(|x: usize| x as int);
    let len: usize = asked.len();
    let mut res: usize = 0;
    let mut i: usize = 0;
    assert(all.take(0) =~= Seq::<int>::empty());
    while i < len
        invariant
            len == asked@.len(),
            all == asked@.map_values(|x: usize| x as int),
            i <= len,
            res <= i,
            res == count_below(all.take(i as int), n as int),
        decreases len - i,
    {
        proof {
            assert(all.take(i + 1).drop_last() =~= all.take(i as int));
            assert(all.take(i + 1).last() == asked@[i as int] as int);
        }
        if asked[i] < n {
            res += 1;
        }
        i += 1;
    }
    assert(all.take(len as int) =~= all);
    res
}

/// Takes the cards that the requests ask for out of the hand and out of the
/// borrowed cards. Returns all the cards taken, those taken from the hand,
/// and those taken from the borrowed cards.
pub fn pick_cards(
    hand: &mut Sequence,
    cards_from_table: &mut Sequence,
    requests: &Vec<Option<usize>>,
) -> (res: (Sequence, Sequence, Sequence))
    ensures
        final(hand)@ == picking(old(hand)@, old(cards_from_table)@, requests@).hand,
        final(cards_from_table)@ == picking(
            old(hand)@,
            old(cards_from_table)@,
            requests@,
        ).borrowed,
        res.0@ == picking(old(hand)@, old(cards_from_table)@, requests@).picked,
        res.1@ == picking(old(hand)@, old(cards_from_table)@, requests@).from_hand,
        res.2@ == picking(old(hand)@, old(cards_from_table)@, requests@).from_borrowed,
{
    let mut picked = Sequence::new();
    let mut from_hand = Sequence::new();
    let mut from_borrowed = Sequence::new();
    let mut seq_i_hand: Vec<usize> = Vec::new();
    let mut seq_i_cft: Vec<usize> = Vec::new();
    let n_hand: usize = hand.number_cards();
    let len: usize = requests.len();
    let mut i: usize = 0;
    let ghost start = start_picking(old(hand)@, old(cards_from_table)@);
    assert(requests@.take(0) =~= Seq::<Option<usize>>::empty());
    assert(seq_i_hand@.map_values(|x: usize| x as int) =~= Seq::<int>::empty());
    assert(seq_i_cft@.map_values(|x: usize| x as int) =~= Seq::<int>::empty());
    while i < len
        invariant
            len == requests@.len(),
            i <= len,
            n_hand == old(hand)@.len(),
            start == start_picking(old(hand)@, old(cards_from_table)@),
            seq_i_hand@.len() <= i,
            seq_i_cft@.len() <= i,
            pick_all(start, n_hand as int, requests@.take(i as int)) == (Picking {
                hand: hand@,
                borrowed: cards_from_table@,
                hand_asked: seq_i_hand@.map_values(|x: usize| x as int),
                borrowed_asked: seq_i_cft@.map_values(|x: usize| x as int),
                from_hand: from_hand@,
                from_borrowed: from_borrowed@,
                picked: picked@,
            }),
        decreases len - i,
    {
        let ghost before = pick_all(start, n_hand as int, requests@.take(i as int));
        proof {
            assert(requests@.take(i + 1).drop_last() =~= requests@.take(i as int));
            assert(requests@.take(i + 1).last() == requests@[i as int]);
        }
        match requests[i] {
            Some(n) => {
                if n <= n_hand {
                    let n_i = count_lower(&seq_i_hand, n);
                    if n >= n_i {
                        match hand.take_card(n - n_i) {
                            Some(card) => {
                                picked.add_card(card);
                                from_hand.add_card(card);
                                seq_i_hand.push(n);
                                assert(seq_i_hand@.map_values(|x: usize| x as int)
                                    =~= before.hand_asked.push(n as int));
                            },
                            None => {},
                        }
                    }
                } else {
                    let m = n - n_hand;
                    let n_i = count_lower(&seq_i_cft, m);
                    if m >= n_i {
                        match cards_from_table.take_card(m - n_i) {
                            Some(card) => {
                                picked.add_card(card);
                                from_borrowed.add_card(card);
                                seq_i_cft.push(m);
                                assert(seq_i_cft@.map_values(|x: usize| x as int)
                                    =~= before.borrowed_asked.push(m as int));
                            },
                            None => {},
                        }
                    }
                }
            },
            None => {},
        }
        i += 1;
    }
    assert(requests@.take(len as int) =~= requests@);
    (picked, from_hand, from_borrowed)
}

/// What went wrong with one request to take a meld from the table.
#[derive(Clone, Copy, PartialEq, Eq, Structural, Debug)]
pub enum TakeFailure {
    /// The request is no number.
    ParseError,
    /// There is no meld at that position.
    NotOnTable,
}

/// The state of taking melds from the table, one request after the other.
pub struct Taking {
    /// What is left on the table.
    pub table: Seq<Seq<Card>>,
    /// The borrowed cards.
    pub borrowed: Seq<Card>,
    /// The positions asked for so far.
    pub asked: Seq<int>,
    /// The requests that failed, in their order.
    pub failures: Seq<TakeFailure>,
}

/// One request to take a meld. The position is moved down by the number of
/// lower positions asked for before; the meld now at that place leaves the
/// table, and its cards go behind the borrowed cards in their order. A
/// request that fails is recorded and changes nothing else.
pub open spec fn take_one(t: Taking, request: Option<usize>) -> Taking {
    match request {
        None => Taking { failures: t.failures.push(TakeFailure::ParseError), ..t },
        Some(n) => {
            let at = n - count_below(t.asked, n as int);
            if 1 <= at <= t.table.len() {
                Taking {
                    table: t.table.remove(at - 1),
                    borrowed: t.borrowed + t.table[at - 1],
                    asked: t.asked.push(n as int),
                    ..t
                }
            } else {
                Taking {
                    asked: t.asked.push(n as int),
                    failures: t.failures.push(TakeFailure::NotOnTable),
                    ..t
                }
            }
        },
    }
}

/// The requests to take melds, one after the other.
pub open spec fn take_all(t: Taking, requests: Seq<Option<usize>>) -> Taking
    decreases requests.len(),
{
    if requests.len() == 0 {
        t
    } else {
        take_one(take_all(t, requests.drop_last()), requests.last())
    }
}

/// What taking the melds asked for leaves and yields.
pub open spec fn taking(
    table: Seq<Seq<Card>>,
    borrowed: Seq<Card>,
    requests: Seq<Option<usize>>,
) -> Taking {
    take_all(Taking { table, borrowed, asked: Seq::empty(), failures: Seq::empty() }, requests)
}

/// The meld that adding cards to a meld of the table submits: the meld, then
/// the cards picked from the borrowed cards, then those picked from the
/// hand, these last in the opposite order.
pub open spec fn extended_meld(target: Seq<Card>, p: Picking) -> Seq<Card> {
    target + (p.from_hand + p.from_borrowed.reverse()).reverse()
}

/// How a request to add cards to a meld ends.
pub enum AddOutcome {
    /// The extended meld lies at position 1 of the table.
    Added,
    /// The cards do not extend the meld to a meld; nothing has changed. The
    /// cards submitted come along.
    NotAMeld(Sequence),
    /// The position of the meld is no number; nothing has changed.
    ParseError,
    /// There is no meld at the position; nothing has changed.
    NotOnTable(usize),
}

/// Plays the cards that a message asks for as a new meld. Where they make a
/// meld it goes to position 1 of the table and `None` is returned. Where
/// they make none, the hand and the borrowed cards stay as they were and the
/// cards submitted are returned. A message that is not valid UTF-8 is an
/// error and changes nothing.
pub fn play_sequence_remote(
    hand: &mut Sequence,
    cards_from_table: &mut Sequence,
    table: &mut Table,
    mes: &[u8],
) -> (res: Result<Option<Sequence>, StreamError>)
    ensures
        res is Ok <==> valid_utf8(mes@),
        res is Err ==> final(hand)@ == old(hand)@ && final(cards_from_table)@ == old(
            cards_from_table,
        )@ && final(table)@ == old(table)@,
        res is Ok ==> ({
            let p = picking(old(hand)@, old(cards_from_table)@, requests_of(decode_utf8(mes@)));
            match meld_reading(p.picked) {
                Some(reading) => {
                    &&& res->Ok_0 is None
                    &&& final(hand)@ == p.hand
                    &&& final(cards_from_table)@ == p.borrowed
                    &&& final(table)@ == seq![reading] + old(table)@
                },
                None => {
                    &&& res->Ok_0 is Some
                    &&& res->Ok_0->0@ == p.picked
                    &&& final(hand)@ == old(hand)@
                    &&& final(cards_from_table)@ == old(cards_from_table)@
                    &&& final(table)@ == old(table)@
                },
            }
        }),
{
    let requests = match parse_requests(mes) {
        Some(requests) => requests,
        None => {
            return Err(unreadable());
        },
    };
    let mut new_hand = hand.clone();
    let mut new_borrowed = cards_from_table.clone();
    let (picked, _, _) = pick_cards(&mut new_hand, &mut new_borrowed, &requests);
    let mut meld = picked.clone();
    if meld.is_valid() {
        *hand = new_hand;
        *cards_from_table = new_borrowed;
        table.add(meld);
        Ok(None)
    } else {
        Ok(Some(picked))
    }
}

/// Takes the melds that a message asks for off the table and puts their
/// cards behind the borrowed cards. Returns the requests that failed. A
/// message that is not valid UTF-8 is an error and changes nothing.
pub fn take_sequence_remote(table: &mut Table, cards_from_table: &mut Sequence, mes: &[u8]) -> (res:
    Result<Vec<TakeFailure>, StreamError>)
    ensures
        res is Ok <==> valid_utf8(mes@),
        res is Err ==> final(table)@ == old(table)@ && final(cards_from_table)@ == old(
            cards_from_table,
        )@,
        res is Ok ==> ({
            let t = taking(old(table)@, old(cards_from_table)@, requests_of(decode_utf8(mes@)));
            &&& final(table)@ == t.table
            &&& final(cards_from_table)@ == t.borrowed
            &&& res->Ok_0@ == t.failures
        }),
{
    let requests = match parse_requests(mes) {
        Some(requests) => requests,
        None => {
            return Err(unreadable());
        },
    };
    let mut failures: Vec<TakeFailure> = Vec::new();
    let mut seq_i: Vec<usize> = Vec::new();
    let len: usize = requests.len();
    let mut i: usize = 0;
    let ghost start = Taking {
        table: old(table)@,
        borrowed: old(cards_from_table)@,
        asked: Seq::empty(),
        failures: Seq::empty(),
    };
    assert(requests@.take(0) =~= Seq::<Option<usize>>::empty());
    assert(seq_i@.map_values(|x: usize| x as int) =~= Seq::<int>::empty());
    while i < len
        invariant
            len == requests@.len(),
            i <= len,
            take_all(start, requests@.take(i as int)) == (Taking {
                table: table@,
                borrowed: cards_from_table@,
                asked: seq_i@.map_values(|x: usize| x as int),
                failures: failures@,
            }),
        decreases len - i,
    {
        let ghost before = take_all(start, requests@.take(i as int));
        proof {
            assert(requests@.take(i + 1).drop_last() =~= requests@.take(i as int));
            assert(requests@.take(i + 1).last() == requests@[i as int]);
        }
        match requests[i] {
            Some(n) => {
                let n_i = count_lower(&seq_i, n);
                seq_i.push(n);
                assert(seq_i@.map_values(|x: usize| x as int) =~= before.asked.push(n as int));
                let taken = if n >= n_i {
                    table.take(n - n_i)
                } else {
                    None
                };
                match taken {
                    Some(seq) => {
                        cards_from_table.merge(seq.reverse());
                        assert(seq@.reverse().reverse() =~= seq@);
                    },
                    None => {
                        failures.push(TakeFailure::NotOnTable);
                    },
                }
            },
            None => {
                failures.push(TakeFailure::ParseError);
            },
        }
        i += 1;
    }
    assert(requests@.take(len as int) =~= requests@);
    Ok(failures)
}

/// Adds the cards that a message asks for to a meld of the table: the first
/// number is the position of the meld, the others name the cards. Where the
/// extended meld is a meld it goes to position 1 of the table. Otherwise
/// nothing changes. A message that is not valid UTF-8 is an error and
/// changes nothing.
pub fn add_to_table_sequence_remote(
    table: &mut Table,
    hand: &mut Sequence,
    cards_from_table: &mut Sequence,
    mes: &[u8],
) -> (res: Result<AddOutcome, StreamError>)
    ensures
        res is Ok <==> valid_utf8(mes@),
        res is Err ==> final(hand)@ == old(hand)@ && final(cards_from_table)@ == old(
            cards_from_table,
        )@ && final(table)@ == old(table)@,
        res is Ok ==> adding_outcome(
            old(table)@,
            old(hand)@,
            old(cards_from_table)@,
            requests_of(decode_utf8(mes@)),
            final(table)@,
            final(hand)@,
            final(cards_from_table)@,
            res->Ok_0,
        ),
{
    let requests = match parse_requests(mes) {
        Some(requests) => requests,
        None => {
            return Err(unreadable());
        },
    };
    if requests.len() == 0 {
        return Ok(AddOutcome::Added);
    }
    let n: usize = match requests[0] {
        Some(n) => n,
        None => {
            return Ok(AddOutcome::ParseError);
        },
    };
    let mut new_table = table.clone();
    let mut target = match new_table.take(n) {
        Some(seq) => seq,
        None => {
            return Ok(AddOutcome::NotOnTable(n));
        },
    };
    let mut others: Vec<Option<usize>> = Vec::new();
    let len: usize = requests.len();
    let mut i: usize = 1;
    assert(others@ =~= requests@.subrange(1, 1));
    while i < len
        invariant
            len == requests@.len(),
            1 <= i <= len,
            others@ == requests@.subrange(1, i as int),
        decreases len - i,
    {
        others.push(requests[i]);
        assert(others@ =~= requests@.subrange(1, i + 1));
        i += 1;
    }
    assert(others@ =~= requests@.drop_first());
    let mut new_hand = hand.clone();
    let mut new_borrowed = cards_from_table.clone();
    let (_, from_hand, from_borrowed) = pick_cards(&mut new_hand, &mut new_borrowed, &others);
    let mut addition = from_hand;
    addition.merge(from_borrowed);
    target.merge(addition);
    let submitted = target.clone();
    if target.is_valid() {
        new_table.add(target);
        *table = new_table;
        *hand = new_hand;
        *cards_from_table = new_borrowed;
        Ok(AddOutcome::Added)
    } else {
        Ok(AddOutcome::NotAMeld(submitted))
    }
}

/// What adding cards to a meld does, from the state before to the state
/// after and the outcome.
pub open spec fn adding_outcome(
    table: Seq<Seq<Card>>,
    hand: Seq<Card>,
    borrowed: Seq<Card>,
    requests: Seq<Option<usize>>,
    new_table: Seq<Seq<Card>>,
    new_hand: Seq<Card>,
    new_borrowed: Seq<Card>,
    outcome: AddOutcome,
) -> bool {
    let unchanged = new_table == table && new_hand == hand && new_borrowed == borrowed;
    if requests.len() == 0 {
        unchanged && outcome is Added
    } else {
        match requests[0] {
            None => unchanged && outcome is ParseError,
            Some(n) => {
                if !(1 <= n <= table.len()) {
                    unchanged && outcome == AddOutcome::NotOnTable(n)
                } else {
                    let p = picking(hand, borrowed, requests.drop_first());
                    let submitted = extended_meld(table[n - 1], p);
                    match meld_reading(submitted) {
                        Some(reading) => {
                            &&& outcome is Added
                            &&& new_table == seq![reading] + table.remove(n - 1)
                            &&& new_hand == p.hand
                            &&& new_borrowed == p.borrowed
                        },
                        None => {
                            &&& unchanged
                            &&& outcome matches AddOutcome::NotAMeld(cards)
                            &&& cards@ == submitted
                        },
                    }
                }
            },
        }
    }
}

/// The action byte of a message: end the turn.
pub const ACTION_END_TURN: u8 = 101;

/// The action byte of a message: play a new meld.
pub const ACTION_PLAY: u8 = 112;

/// The action byte of a message: take melds from the table.
pub const ACTION_TAKE: u8 = 116;

/// The action byte of a message: add cards to a meld of the table.
pub const ACTION_ADD: u8 = 97;

/// The action byte of a message: sort by rank.
pub const ACTION_SORT_BY_RANK: u8 = 114;

/// The action byte of a message: sort by suit.
pub const ACTION_SORT_BY_SUIT: u8 = 115;

/// The action byte of a message: give up.
pub const ACTION_GIVE_UP: u8 = 103;

/// The sort mode in which a hand is kept sorted by rank.
pub const SORT_MODE_RANK: u8 = 1;

/// The sort mode in which a hand is kept sorted by suit.
pub const SORT_MODE_SUIT: u8 = 2;

/// The cards in the order that a sort mode asks for.
pub open spec fn in_sort_mode(cards: Seq<Card>, sort_mode: u8) -> Seq<Card> {
    if sort_mode == SORT_MODE_RANK {
        sorted_by_rank(cards)
    } else if sort_mode == SORT_MODE_SUIT {
        sorted_by_suit(cards)
    } else {
        cards
    }
}

/// What a player's turn works on, as plain values.
pub struct TurnView {
    pub table: Seq<Seq<Card>>,
    pub hand: Seq<Card>,
    pub deck: Seq<Card>,
    pub borrowed: Seq<Card>,
    pub hand_start: Seq<Card>,
    pub table_start: Seq<Seq<Card>>,
    pub custom_rule_jokers: bool,
    pub sort_mode: u8,
}

/// The answer to an action, as plain values.
pub enum ReplyView {
    Nothing,
    BorrowedCardsLeft,
    JokersMustBePlayed,
    TurnOver,
    TurnOverDrew(Card),
    TurnOverDeckEmpty,
    Played { turn_over: bool },
    NotAMeld(Seq<Card>),
    Taken(Seq<TakeFailure>),
    ParseError,
    NotOnTable(usize),
    Sorted,
    GaveUp(usize),
    CommunicationError,
    InvalidInput,
}

/// Ending the turn. It is refused while borrowed cards are left, and, under
/// the rule that Jokers must be played, while the hand holds a Joker. A
/// player whose hand still holds all the cards it began with draws a card,
/// if the deck has one, and the hand is put in the order of the sort mode.
pub open spec fn end_turn_step(v: TurnView) -> (TurnView, ReplyView) {
    if v.borrowed.len() > 0 {
        (v, ReplyView::BorrowedCardsLeft)
    } else if v.custom_rule_jokers && v.hand.contains(Card::Joker) {
        (v, ReplyView::JokersMustBePlayed)
    } else if v.hand_start.to_multiset().subset_of(v.hand.to_multiset()) {
        if v.deck.len() > 0 {
            (
                TurnView {
                    hand: in_sort_mode(v.hand.push(v.deck.last()), v.sort_mode),
                    deck: v.deck.drop_last(),
                    ..v
                },
                ReplyView::TurnOverDrew(v.deck.last()),
            )
        } else {
            (
                TurnView { hand: in_sort_mode(v.hand, v.sort_mode), ..v },
                ReplyView::TurnOverDeckEmpty,
            )
        }
    } else {
        (v, ReplyView::TurnOver)
    }
}

/// Playing a new meld. The turn is over when the hand and the borrowed
/// cards are both empty afterwards.
pub open spec fn play_step(v: TurnView, requests: Seq<Option<usize>>) -> (TurnView, ReplyView) {
    let p = picking(v.hand, v.borrowed, requests);
    match meld_reading(p.picked) {
        Some(reading) => (
            TurnView { hand: p.hand, borrowed: p.borrowed, table: seq![reading] + v.table, ..v },
            ReplyView::Played { turn_over: p.hand.len() == 0 && p.borrowed.len() == 0 },
        ),
        None => (v, ReplyView::NotAMeld(p.picked)),
    }
}

/// Taking melds from the table.
pub open spec fn take_step(v: TurnView, requests: Seq<Option<usize>>) -> (TurnView, ReplyView) {
    let t = taking(v.table, v.borrowed, requests);
    (TurnView { table: t.table, borrowed: t.borrowed, ..v }, ReplyView::Taken(t.failures))
}

/// Adding cards to a meld of the table. The turn is over when the hand and
/// the borrowed cards are both empty afterwards.
pub open spec fn add_step(v: TurnView, requests: Seq<Option<usize>>) -> (TurnView, ReplyView) {
    if requests.len() == 0 {
        (v, ReplyView::Played { turn_over: v.hand.len() == 0 && v.borrowed.len() == 0 })
    } else {
        match requests[0] {
            None => (v, ReplyView::ParseError),
            Some(n) => {
                if !(1 <= n <= v.table.len()) {
                    (v, ReplyView::NotOnTable(n))
                } else {
                    let p = picking(v.hand, v.borrowed, requests.drop_first());
                    let submitted = extended_meld(v.table[n - 1], p);
                    match meld_reading(submitted) {
                        Some(reading) => (
                            TurnView {
                                hand: p.hand,
                                borrowed: p.borrowed,
                                table: seq![reading] + v.table.remove(n - 1),
                                ..v
                            },
                            ReplyView::Played {
                                turn_over: p.hand.len() == 0 && p.borrowed.len() == 0,
                            },
                        ),
                        None => (v, ReplyView::NotAMeld(submitted)),
                    }
                }
            },
        }
    }
}

/// Sorting: the hand and the borrowed cards are put in the order asked for,
/// and the sort mode remembers it.
pub open spec fn sort_step(v: TurnView, sort_mode: u8) -> (TurnView, ReplyView) {
    (
        TurnView {
            hand: in_sort_mode(v.hand, sort_mode),
            borrowed: in_sort_mode(v.borrowed, sort_mode),
            sort_mode,
            ..v
        },
        ReplyView::Sorted,
    )
}

/// Giving up. With no borrowed cards there is nothing to give up. Otherwise
/// the hand and the table go back to what they were when the turn began,
/// the borrowed cards are dropped, and the penalty is drawn.
pub open spec fn give_up_step(v: TurnView) -> (TurnView, ReplyView) {
    if v.borrowed.len() == 0 {
        (v, ReplyView::Nothing)
    } else {
        let k = penalty_size(v.deck);
        (
            TurnView {
                table: v.table_start,
                hand: v.hand_start + drawn_cards(v.deck, k),
                deck: v.deck.take(v.deck.len() - k),
                borrowed: Seq::empty(),
                ..v
            },
            ReplyView::GaveUp(k as usize),
        )
    }
}

/// What a message from the player whose turn it is does. Its first byte
/// names the action, and the bytes behind it are the action's text.
pub open spec fn turn_step(v: TurnView, mes: Seq<u8>) -> (TurnView, ReplyView) {
    if mes.len() == 0 {
        (v, ReplyView::Nothing)
    } else {
        let text = mes.skip(1);
        let action = mes[0];
        if action == ACTION_END_TURN {
            end_turn_step(v)
        } else if action == ACTION_SORT_BY_RANK {
            sort_step(v, SORT_MODE_RANK)
        } else if action == ACTION_SORT_BY_SUIT {
            sort_step(v, SORT_MODE_SUIT)
        } else if action == ACTION_GIVE_UP {
            give_up_step(v)
        } else if action == ACTION_PLAY || action == ACTION_TAKE || action == ACTION_ADD {
            if !valid_utf8(text) {
                (v, ReplyView::CommunicationError)
            } else if action == ACTION_PLAY {
                play_step(v, requests_of(decode_utf8(text)))
            } else if action == ACTION_TAKE {
                take_step(v, requests_of(decode_utf8(text)))
            } else {
                add_step(v, requests_of(decode_utf8(text)))
            }
        } else {
            (v, ReplyView::InvalidInput)
        }
    }
}

/// While borrowed cards are left, asking to end the turn is refused and
/// changes nothing.
pub proof fn lemma_turn_cannot_end_with_borrowed_cards(v: TurnView, mes: Seq<u8>)
    requires
        v.borrowed.len() > 0,
        mes.len() > 0,
        mes[0] == ACTION_END_TURN,
    ensures
        turn_step(v, mes) == (v, ReplyView::BorrowedCardsLeft),
{
}

/// While borrowed cards are left, giving up always costs the penalty: the
/// hand is the hand of the start of the turn and as many cards more as the
/// penalty asks for and the deck can give, three at most, and these cards
/// have left the deck. The table is the table of the start of the turn, and
/// no borrowed cards are left.
pub proof fn lemma_giving_up_costs_the_penalty(v: TurnView, mes: Seq<u8>)
    requires
        v.borrowed.len() > 0,
        mes.len() > 0,
        mes[0] == ACTION_GIVE_UP,
    ensures
        ({
            let k = if v.deck.len() < 3 {
                v.deck.len() as int
            } else {
                3
            };
            let (w, reply) = turn_step(v, mes);
            &&& reply == ReplyView::GaveUp(k as usize)
            &&& w.hand.len() == v.hand_start.len() + k
            &&& w.hand.take(v.hand_start.len() as int) == v.hand_start
            &&& w.hand.skip(v.hand_start.len() as int) == drawn_cards(v.deck, k)
            &&& w.deck.len() == v.deck.len() - k
            &&& w.deck + drawn_cards(v.deck, k).reverse() == v.deck
            &&& w.table == v.table_start
            &&& w.borrowed.len() == 0
        }),
{
    let k = penalty_size(v.deck);
    let (w, reply) = turn_step(v, mes);
    assert(w.hand.take(v.hand_start.len() as int) =~= v.hand_start);
    assert(w.hand.skip(v.hand_start.len() as int) =~= drawn_cards(v.deck, k));
    assert(drawn_cards(v.deck, k).reverse() =~= v.deck.skip(v.deck.len() - k));
    assert(w.deck + drawn_cards(v.deck, k).reverse() =~= v.deck);
}

/// What a player at the terminal asks for besides the actions of a turn.
#[derive(Clone, Copy, PartialEq, Eq, Structural, Debug)]
pub enum LocalChoice {
    /// Save the game and quit.
    Save,
    /// Pick a card and end the turn.
    Pick,
    /// End the turn without picking a card.
    Pass,
}

/// Whether a player at the terminal may do what was asked for.
#[derive(Clone, Copy, PartialEq, Eq, Structural, Debug)]
pub enum LocalGate {
    /// The player may.
    Allowed,
    /// Not while borrowed cards are left.
    BorrowedCardsLeft,
    /// Not after a card of the hand was played.
    PlayedSomething,
    /// Not before a card of the hand was played.
    NothingPlayed,
    /// Not with a Joker in hand, under the rule that Jokers must be played.
    JokersMustBePlayed,
}

/// Whether a player at the terminal may save, pick a card or pass. None of
/// them is allowed while borrowed cards are left. Saving and picking a card
/// are for a player who has played no card of the hand, and passing is for
/// one who has. Under the rule that Jokers must be played, a player with a
/// Joker in hand can neither pick a card nor pass.
pub open spec fn local_gate_of(v: TurnView, choice: LocalChoice) -> LocalGate {
    let nothing_played = v.hand_start.to_multiset().subset_of(v.hand.to_multiset());
    if v.borrowed.len() > 0 {
        LocalGate::BorrowedCardsLeft
    } else if choice != LocalChoice::Pass && !nothing_played {
        LocalGate::PlayedSomething
    } else if choice == LocalChoice::Pass && nothing_played {
        LocalGate::NothingPlayed
    } else if choice != LocalChoice::Save && v.custom_rule_jokers && v.hand.contains(
        Card::Joker,
    ) {
        LocalGate::JokersMustBePlayed
    } else {
        LocalGate::Allowed
    }
}

/// How an action was answered.
pub enum TurnReply {
    /// Nothing was asked for, or there was nothing to do.
    Nothing,
    /// The turn cannot end: borrowed cards are left.
    BorrowedCardsLeft,
    /// The turn cannot end: the hand holds a Joker that must be played.
    JokersMustBePlayed,
    /// The turn is over.
    TurnOver,
    /// The turn is over, and the player drew this card.
    TurnOverDrew(Card),
    /// The turn is over; the player had to draw, but the deck is empty.
    TurnOverDeckEmpty,
    /// Cards went to the table.
    Played { turn_over: bool },
    /// The cards submitted are no meld.
    NotAMeld(Sequence),
    /// Melds were taken from the table, but for the requests that failed.
    Taken(Vec<TakeFailure>),
    /// The position of a meld is no number.
    ParseError,
    /// There is no meld at the position.
    NotOnTable(usize),
    /// The cards were sorted.
    Sorted,
    /// The player gave up and drew this many cards.
    GaveUp(usize),
    /// The text of the message is not valid UTF-8.
    CommunicationError,
    /// The message names no action.
    InvalidInput,
}

impl View for TurnReply {
    type V = ReplyView;

    open spec fn view(&self) -> ReplyView {
        match *self {
            TurnReply::Nothing => ReplyView::Nothing,
            TurnReply::BorrowedCardsLeft => ReplyView::BorrowedCardsLeft,
            TurnReply::JokersMustBePlayed => ReplyView::JokersMustBePlayed,
            TurnReply::TurnOver => ReplyView::TurnOver,
            TurnReply::TurnOverDrew(card) => ReplyView::TurnOverDrew(card),
            TurnReply::TurnOverDeckEmpty => ReplyView::TurnOverDeckEmpty,
            TurnReply::Played { turn_over } => ReplyView::Played { turn_over },
            TurnReply::NotAMeld(cards) => ReplyView::NotAMeld(cards@),
            TurnReply::Taken(failures) => ReplyView::Taken(failures@),
            TurnReply::ParseError => ReplyView::ParseError,
            TurnReply::NotOnTable(n) => ReplyView::NotOnTable(n),
            TurnReply::Sorted => ReplyView::Sorted,
            TurnReply::GaveUp(n) => ReplyView::GaveUp(n),
            TurnReply::CommunicationError => ReplyView::CommunicationError,
            TurnReply::InvalidInput => ReplyView::InvalidInput,
        }
    }
}

/// What a player's turn works on: the table, the player's hand, the deck,
/// the cards borrowed from the table, and the hand and the table as they were
/// when the turn began.
pub struct Turn {
    pub table: Table,
    pub hand: Sequence,
    pub deck: Sequence,
    pub cards_from_table: Sequence,
    pub hand_start_round: Sequence,
    pub table_start_round: Table,
    pub custom_rule_jokers: bool,
    pub sort_mode: u8,
}

impl View for Turn {
    type V = TurnView;

    open spec fn view(&self) -> TurnView {
        TurnView {
            table: self.table@,
            hand: self.hand@,
            deck: self.deck@,
            borrowed: self.cards_from_table@,
            hand_start: self.hand_start_round@,
            table_start: self.table_start_round@,
            custom_rule_jokers: self.custom_rule_jokers,
            sort_mode: self.sort_mode,
        }
    }
}

impl Turn {
    /// The start of a turn: nothing is borrowed, and the hand and the table
    /// are remembered as they are.
    pub fn new(
        table: Table,
        hand: Sequence,
        deck: Sequence,
        custom_rule_jokers: bool,
        sort_mode: u8,
    ) -> (res: Turn)
        ensures
            res@ == (TurnView {
                table: table@,
                hand: hand@,
                deck: deck@,
                borrowed: Seq::empty(),
                hand_start: hand@,
                table_start: table@,
                custom_rule_jokers,
                sort_mode,
            }),
    {
        let hand_start_round = hand.clone();
        let table_start_round = table.clone();
        Turn {
            table,
            hand,
            deck,
            cards_from_table: Sequence::new(),
            hand_start_round,
            table_start_round,
            custom_rule_jokers,
            sort_mode,
        }
    }

    /// Whether the player has played a card of the hand since the turn
    /// began.
    pub fn has_played_something(&self) -> (res: bool)
        ensures
            res == !self@.hand_start.to_multiset().subset_of(self@.hand.to_multiset()),
    {
        !self.hand.contains(&self.hand_start_round)
    }

    /// Whether a player at the terminal may save, pick a card or pass.
    pub fn local_gate(&self, choice: LocalChoice) -> (res: LocalGate)
        ensures
            res == local_gate_of(self@, choice),
    {
        let nothing_played = self.hand.contains(&self.hand_start_round);
        let is_pass = match choice {
            LocalChoice::Pass => true,
            _ => false,
        };
        let is_save = match choice {
            LocalChoice::Save => true,
            _ => false,
        };
        if self.cards_from_table.number_cards() != 0 {
            LocalGate::BorrowedCardsLeft
        } else if !is_pass && !nothing_played {
            LocalGate::PlayedSomething
        } else if is_pass && nothing_played {
            LocalGate::NothingPlayed
        } else if !is_save && self.custom_rule_jokers && self.hand.contains_joker() {
            LocalGate::JokersMustBePlayed
        } else {
            LocalGate::Allowed
        }
    }

    /// Ends the turn, if it may end.
    pub fn end_turn(&mut self) -> (reply: TurnReply)
        ensures
            (final(self)@, reply@) == end_turn_step(old(self)@),
    {
        if self.cards_from_table.number_cards() != 0 {
            TurnReply::BorrowedCardsLeft
        } else if self.custom_rule_jokers && self.hand.contains_joker() {
            TurnReply::JokersMustBePlayed
        } else if self.hand.contains(&self.hand_start_round) {
            let reply = match pick_a_card(&mut self.hand, &mut self.deck) {
                Ok(card) => TurnReply::TurnOverDrew(card),
                Err(_) => TurnReply::TurnOverDeckEmpty,
            };
            if self.sort_mode == SORT_MODE_RANK {
                self.hand.sort_by_rank();
            } else if self.sort_mode == SORT_MODE_SUIT {
                self.hand.sort_by_suit();
            }
            reply
        } else {
            TurnReply::TurnOver
        }
    }

    /// Sorts the hand and the borrowed cards, by rank or by suit.
    pub fn sort_cards(&mut self, by_rank: bool) -> (reply: TurnReply)
        ensures
            (final(self)@, reply@) == sort_step(
                old(self)@,
                if by_rank {
                    SORT_MODE_RANK
                } else {
                    SORT_MODE_SUIT
                },
            ),
    {
        if by_rank {
            self.hand.sort_by_rank();
            self.cards_from_table.sort_by_rank();
            self.sort_mode = SORT_MODE_RANK;
        } else {
            self.hand.sort_by_suit();
            self.cards_from_table.sort_by_suit();
            self.sort_mode = SORT_MODE_SUIT;
        }
        TurnReply::Sorted
    }

    /// Carries out the action that a message from the player asks for.
    pub fn handle_action(&mut self, mes: &[u8]) -> (reply: TurnReply)
        ensures
            (final(self)@, reply@) == turn_step(old(self)@, mes@),
    {
        if mes.len() == 0 {
            return TurnReply::Nothing;
        }
        let action: u8 = mes[0];
        let text = vstd::slice::slice_subrange(mes, 1, mes.len());
        assert(text@ =~= mes@.skip(1));
        if action == ACTION_END_TURN {
            self.end_turn()
        } else if action == ACTION_SORT_BY_RANK {
            self.sort_cards(true)
        } else if action == ACTION_SORT_BY_SUIT {
            self.sort_cards(false)
        } else if action == ACTION_GIVE_UP {
            if self.cards_from_table.number_cards() == 0 {
                TurnReply::Nothing
            } else {
                let drawn = give_up(
                    &mut self.table,
                    &mut self.hand,
                    &mut self.deck,
                    &self.hand_start_round,
                    &self.table_start_round,
                    &mut self.cards_from_table,
                );
                TurnReply::GaveUp(drawn)
            }
        } else if action == ACTION_PLAY {
            match play_sequence_remote(
                &mut self.hand,
                &mut self.cards_from_table,
                &mut self.table,
                text,
            ) {
                Ok(None) => TurnReply::Played {
                    turn_over: self.hand.number_cards() == 0
                        && self.cards_from_table.number_cards() == 0,
                },
                Ok(Some(cards)) => TurnReply::NotAMeld(cards),
                Err(_) => TurnReply::CommunicationError,
            }
        } else if action == ACTION_TAKE {
            match take_sequence_remote(&mut self.table, &mut self.cards_from_table, text) {
                Ok(failures) => TurnReply::Taken(failures),
                Err(_) => TurnReply::CommunicationError,
            }
        } else if action == ACTION_ADD {
            match add_to_table_sequence_remote(
                &mut self.table,
                &mut self.hand,
                &mut self.cards_from_table,
                text,
            ) {
                Ok(AddOutcome::Added) => TurnReply::Played {
                    turn_over: self.hand.number_cards() == 0
                        && self.cards_from_table.number_cards() == 0,
                },
                Ok(AddOutcome::NotAMeld(cards)) => TurnReply::NotAMeld(cards),
                Ok(AddOutcome::ParseError) => TurnReply::ParseError,
                Ok(AddOutcome::NotOnTable(n)) => TurnReply::NotOnTable(n),
                Err(_) => TurnReply::CommunicationError,
            }
        } else {
            TurnReply::InvalidInput
        }
    }
}

/// The error for a message that is not valid UTF-8.
fn unreadable() -> (res: StreamError)
    ensures
        res@ == "UTF-8 error"@,
{
    StreamError::new(String::from_str("UTF-8 error"))
}

} // verus!
