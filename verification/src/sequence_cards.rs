//! Cards, their one-byte codes, and ordered sequences of cards (hands, decks,
//! melds and the cards a player has borrowed from the table).

use crate::meld::{
    first_to_end, gap_before, is_meld, is_regular, is_run, joker_count, jokers,
    leading_ace_may_be_high, lemma_card_orders_total, lemma_gaps_grow,
    lemma_meld_keeps_its_cards, lemma_run_keeps_its_cards, lemma_sorted_is_sort_by,
    meld_reading, rank_key, rank_of, rank_order, regular_cards, run_layout, run_layout_prefix,
    run_level, same_rank_set, sorted_by_rank, sorted_by_suit, steps_up, suit_key, suit_of,
    suit_order, tidy_leading_king,
};
use crate::random::shuffle_cards;
use crate::sort::{arranged, comes_before, is_sorting_order, sort};
use rand::rngs::ThreadRng;
use vstd::prelude::*;
use vstd::relations::sorted_by;

verus! {

/// Highest rank of a suit (the King).
pub const MAX_VAL: u8 = 13;

/// The four suits.
#[derive(Clone, Copy, PartialEq, Eq, Structural, Hash, Debug)]
pub enum Suit {
    Heart,
    Diamond,
    Club,
    Spade,
}

/// A card: a suit and a rank from 1 (Ace) to 13 (King), or a Joker.
#[derive(Clone, Copy, PartialEq, Eq, Structural, Hash, Debug)]
pub enum Card {
    RegularCard(Suit, u8),
    Joker,
}

/// Position of a suit in the byte code: Heart 1, Club 2, Diamond 3, Spade 4.
pub open spec fn suit_index(suit: Suit) -> int {
    match suit {
        Suit::Heart => 1,
        Suit::Club => 2,
        Suit::Diamond => 3,
        Suit::Spade => 4,
    }
}

/// The byte that stands for a card: 0 for a Joker, else
/// `(suit_index - 1) * 13 + rank`.
pub open spec fn card_code(card: Card) -> int {
    match card {
        Card::Joker => 0,
        Card::RegularCard(suit, rank) => (suit_index(suit) - 1) * 13 + rank,
    }
}

/// The card that a byte stands for, if any: 0 is the Joker, 1 to 52 are the
/// regular cards suit by suit, and no other byte is a card.
pub open spec fn code_card(x: u8) -> Option<Card> {
    if x == 0 {
        Some(Card::Joker)
    } else if x <= 13 {
        Some(Card::RegularCard(Suit::Heart, x))
    } else if x <= 26 {
        Some(Card::RegularCard(Suit::Club, (x - 13) as u8))
    } else if x <= 39 {
        Some(Card::RegularCard(Suit::Diamond, (x - 26) as u8))
    } else if x <= 52 {
        Some(Card::RegularCard(Suit::Spade, (x - 39) as u8))
    } else {
        None
    }
}

/// The position of a suit in the byte code.
pub fn suit_to_int(suit: Suit) -> (r: u8)
    ensures
        r == suit_index(suit),
{
    match suit {
        Suit::Heart => 1,
        Suit::Club => 2,
        Suit::Diamond => 3,
        Suit::Spade => 4,
    }
}

/// The suit at a position of the byte code: 1 to 4.
pub fn int_to_suit(s: u8) -> (r: Option<Suit>)
    ensures
        r matches Some(suit) ==> suit_index(suit) == s,
        r is Some <==> 1 <= s <= 4,
{
    match s {
        1 => Some(Suit::Heart),
        2 => Some(Suit::Club),
        3 => Some(Suit::Diamond),
        4 => Some(Suit::Spade),
        _ => None,
    }
}

impl Card {
    /// A regular card is well formed when its rank lies in 1..=13.
    pub open spec fn wf(self) -> bool {
        match self {
            Card::Joker => true,
            Card::RegularCard(_, rank) => 1 <= rank <= 13,
        }
    }

    /// Whether the card is well formed.
    pub fn is_well_formed(&self) -> (res: bool)
        ensures
            res == self.wf(),
    {
        match *self {
            Card::Joker => true,
            Card::RegularCard(_, rank) => 1 <= rank && rank <= MAX_VAL,
        }
    }

    /// The card that a byte stands for, if any.
    pub fn from_byte(x: u8) -> (r: Option<Card>)
        ensures
            r == code_card(x),
            r matches Some(card) ==> card.wf() && card_code(card) == x,
    {
        if x == 0 {
            return Some(Card::Joker);
        }
        let mut val: u8 = x % MAX_VAL;
        if val == 0 {
            val = MAX_VAL;
        }
        match int_to_suit((x - 1) / MAX_VAL + 1) {
            Some(suit) => Some(Card::RegularCard(suit, val)),
            None => None,
        }
    }

    /// The byte that stands for the card.
    pub fn to_byte(&self) -> (r: u8)
        requires
            self.wf(),
        ensures
            r == card_code(*self),
            r <= 52,
    {
        match self {
            Card::Joker => 0,
            Card::RegularCard(suit, value) => (suit_to_int(*suit) - 1) * MAX_VAL + *value,
        }
    }
}

/// Decoding the code of a well-formed card gives the card back.
pub proof fn lemma_card_code_round_trip(card: Card)
    requires
        card.wf(),
    ensures
        0 <= card_code(card) <= 52,
        code_card(card_code(card) as u8) == Some(card),
{
}

/// The codes of a sequence of cards, card by card.
pub open spec fn cards_to_codes(cards: Seq<Card>) -> Seq<u8> {
    cards.map_values(|c: Card| card_code(c) as u8)
}

/// The cards that a sequence of bytes stands for: each byte that is a card
/// code gives its card, and every other byte is passed over.
pub open spec fn codes_to_cards(bytes: Seq<u8>) -> Seq<Card> {
    bytes.filter_map(|b: u8| code_card(b))
}

/// Every card of the sequence has a rank in 1..=13.
pub open spec fn all_wf(cards: Seq<Card>) -> bool {
    forall|i: int| 0 <= i < cards.len() ==> (#[trigger] cards[i]).wf()
}

/// Decoding the codes of well-formed cards gives the same cards back.
pub proof fn lemma_codes_round_trip(cards: Seq<Card>)
    requires
        all_wf(cards),
    ensures
        codes_to_cards(cards_to_codes(cards)) == cards,
    decreases cards.len(),
{
    let f = |b: u8| code_card(b);
    let codes = cards_to_codes(cards);
    if cards.len() == 0 {
        assert(codes_to_cards(codes) =~= cards);
    } else {
        let front = cards.drop_last();
        lemma_codes_round_trip(front);
        assert(codes.drop_last() =~= cards_to_codes(front));
        lemma_card_code_round_trip(cards.last());
        assert(f(codes.last()) == Some(cards.last()));
        assert(codes.filter_map(f) == codes.drop_last().filter_map(f) + seq![cards.last()]);
        assert(codes_to_cards(codes) =~= cards);
    }
}

/// An ordered sequence of cards. Positions given to its methods count from 1.
#[derive(Debug, PartialEq)]
pub struct Sequence(Vec<Card>);

impl View for Sequence {
    type V = Seq<Card>;

    closed spec fn view(&self) -> Seq<Card> {
        self.0@
    }
}

impl Clone for Sequence {
    fn clone(&self) -> (res: Self)
        ensures
            res@ == self@,
    {
        Sequence(self.0.clone())
    }
}

impl Sequence {
    /// Every card of the sequence has a rank in 1..=13.
    pub open spec fn wf(&self) -> bool {
        all_wf(self@)
    }

    /// Whether every card of the sequence is well formed.
    pub fn is_well_formed(&self) -> (res: bool)
        ensures
            res == self.wf(),
    {
        let n: usize = self.0.len();
        let mut i: usize = 0;
        while i < n
            invariant
                n == self.0@.len(),
                i <= n,
                forall|k: int| 0 <= k < i ==> (#[trigger] self.0@[k]).wf(),
            decreases n - i,
        {
            if !self.0[i].is_well_formed() {
                return false;
            }
            i += 1;
        }
        true
    }

    /// An empty sequence.
    pub fn new() -> (res: Sequence)
        ensures
            res@ == Seq::<Card>::empty(),
    {
        Sequence(Vec::new())
    }

    /// The sequence that holds the given cards, in their order.
    pub fn from_cards(cards: &[Card]) -> (res: Sequence)
        ensures
            res@ == cards@,
    {
        Sequence(vstd::slice::slice_to_vec(cards))
    }

    /// Decodes a sequence from card codes; a byte that is no card code is
    /// passed over.
    pub fn from_bytes(bytes: &[u8]) -> (res: Sequence)
        ensures
            res@ == codes_to_cards(bytes@),
            res.wf(),
    {
        let mut cards: Vec<Card> = Vec::new();
        let n: usize = bytes.len();
        let mut i: usize = 0;
        while i < n
            invariant
                n == bytes@.len(),
                i <= n,
                cards@ == codes_to_cards(bytes@.take(i as int)),
                all_wf(cards@),
            decreases n - i,
        {
            proof {
                bytes@.lemma_filter_map_take_succ(|b: u8| code_card(b), i as int);
            }
            match Card::from_byte(bytes[i]) {
                Some(card) => cards.push(card),
                None => (),
            }
            i += 1;
        }
        assert(bytes@.take(n as int) =~= bytes@);
        Sequence(cards)
    }

    /// The card codes of the sequence, card by card.
    pub fn to_bytes(&self) -> (res: Vec<u8>)
        requires
            self.wf(),
        ensures
            res@ == cards_to_codes(self@),
    {
        let mut res: Vec<u8> = Vec::new();
        let n: usize = self.0.len();
        let mut i: usize = 0;
        while i < n
            invariant
                n == self.0@.len(),
                i <= n,
                all_wf(self.0@),
                res@ == cards_to_codes(self.0@.take(i as int)),
            decreases n - i,
        {
            let b: u8 = self.0[i].to_byte();
            res.push(b);
            assert(self.0@.take(i + 1) =~= self.0@.take(i as int).push(self.0@[i as int]));
            assert(res@ =~= cards_to_codes(self.0@.take(i + 1)));
            i += 1;
        }
        assert(self.0@.take(n as int) =~= self.0@);
        res
    }

    /// The number of cards.
    pub fn number_cards(&self) -> (n: usize)
        ensures
            n == self@.len(),
    {
        self.0.len()
    }

    /// The cards as a vector.
    pub fn to_vec(&self) -> (res: Vec<Card>)
        ensures
            res@ == self@,
    {
        self.0.clone()
    }

    /// Puts a card at the end.
    pub fn add_card(&mut self, card: Card)
        ensures
            final(self)@ == old(self)@.push(card),
    {
        self.0.push(card);
    }

    /// Takes the last card, if there is one.
    pub fn draw_card(&mut self) -> (res: Option<Card>)
        ensures
            old(self)@.len() == 0 ==> res is None && final(self)@ == old(self)@,
            old(self)@.len() > 0 ==> res == Some(old(self)@.last()) && final(self)@ == old(
                self,
            )@.drop_last(),
    {
        self.0.pop()
    }

    /// Takes the card at position `i` (counted from 1); the cards behind it
    /// move up by one. No card is taken where `i` is no position.
    pub fn take_card(&mut self, i: usize) -> (res: Option<Card>)
        ensures
            1 <= i <= old(self)@.len() ==> res == Some(old(self)@[i - 1]) && final(self)@ == old(
                self,
            )@.remove(i - 1),
            !(1 <= i <= old(self)@.len()) ==> res is None && final(self)@ == old(self)@,
    {
        if i > 0 && i <= self.0.len() {
            let card = self.0.remove(i - 1);
            return Some(card);
        }
        None
    }

    /// The cards in the opposite order.
    pub fn reverse(self) -> (res: Sequence)
        ensures
            res@ == self@.reverse(),
    {
        let mut src = self;
        let ghost all = src@;
        let mut res = Sequence::new();
        while src.0.len() > 0
            invariant
                src@.len() <= all.len(),
                src@ == all.take(src@.len() as int),
                res@ == all.skip(src@.len() as int).reverse(),
            decreases src@.len(),
        {
            let card = src.draw_card();
            match card {
                Some(c) => {
                    res.add_card(c);
                    assert(src@ =~= all.take(src@.len() as int));
                    assert(res@ =~= all.skip(src@.len() as int).reverse());
                },
                None => {},
            }
        }
        assert(all.skip(0) =~= all);
        res
    }

    /// Moves the cards of `seq` to the end of this sequence, the last card
    /// of `seq` first.
    pub fn merge(&mut self, seq: Sequence)
        ensures
            final(self)@ == old(self)@ + seq@.reverse(),
    {
        let mut src = seq;
        let ghost all = src@;
        let ghost start = self@;
        while src.0.len() > 0
            invariant
                src@.len() <= all.len(),
                src@ == all.take(src@.len() as int),
                self@ == start + all.skip(src@.len() as int).reverse(),
            decreases src@.len(),
        {
            let card = src.draw_card();
            match card {
                Some(c) => {
                    self.add_card(c);
                    assert(src@ =~= all.take(src@.len() as int));
                    assert(self@ =~= start + all.skip(src@.len() as int).reverse());
                },
                None => {},
            }
        }
        assert(all.skip(0) =~= all);
    }

    /// Sorts the cards by rank, then suit; Jokers go last.
    pub fn sort_by_rank(&mut self)
        ensures
            final(self)@ == sorted_by_rank(old(self)@),
    {
        let mut keys: Vec<i64> = Vec::new();
        let n: usize = self.0.len();
        let mut i: usize = 0;
        while i < n
            invariant
                n == self.0@.len(),
                i <= n,
                keys@.len() == i,
                forall|k: int| 0 <= k < i ==> #[trigger] keys@[k] == rank_key(self.0@[k]),
            decreases n - i,
        {
            keys.push(value_card_by_rank(&self.0[i]));
            i += 1;
        }
        let sorted = sort(&self.0, &keys);
        proof {
            lemma_card_orders_total();
            lemma_arranged_is_sorted(self.0@, keys@, sorted@, |c: Card| rank_key(c), rank_order());
            lemma_sorted_is_sort_by(self.0@, sorted@, rank_order());
        }
        self.0 = sorted;
    }

    /// Sorts the cards by suit, then rank; Jokers go last.
    pub fn sort_by_suit(&mut self)
        ensures
            final(self)@ == sorted_by_suit(old(self)@),
    {
        let mut keys: Vec<i64> = Vec::new();
        let n: usize = self.0.len();
        let mut i: usize = 0;
        while i < n
            invariant
                n == self.0@.len(),
                i <= n,
                keys@.len() == i,
                forall|k: int| 0 <= k < i ==> #[trigger] keys@[k] == suit_key(self.0@[k]),
            decreases n - i,
        {
            keys.push(value_card_by_suit(&self.0[i]));
            i += 1;
        }
        let sorted = sort(&self.0, &keys);
        proof {
            lemma_card_orders_total();
            lemma_arranged_is_sorted(self.0@, keys@, sorted@, |c: Card| suit_key(c), suit_order());
            lemma_sorted_is_sort_by(self.0@, sorted@, suit_order());
        }
        self.0 = sorted;
    }

    /// Takes the Jokers out of the sequence and returns them; the other
    /// cards keep their order.
    pub fn take_jokers(&mut self) -> (res: Sequence)
        ensures
            final(self)@ == regular_cards(old(self)@),
            res@ == jokers(joker_count(old(self)@) as int),
    {
        let mut kept: Vec<Card> = Vec::new();
        let mut taken: Vec<Card> = Vec::new();
        let n: usize = self.0.len();
        let mut i: usize = 0;
        assert(self.0@.take(0) =~= Seq::<Card>::empty());
        assert(Seq::<Card>::empty().filter(is_regular()) =~= Seq::<Card>::empty()) by {
            reveal(Seq::filter);
        }
        while i < n
            invariant
                n == self.0@.len(),
                i <= n,
                kept@ == regular_cards(self.0@.take(i as int)),
                kept@.len() + taken@.len() == i,
                taken@ == jokers(taken@.len() as int),
            decreases n - i,
        {
            let card = self.0[i];
            proof {
                assert(self.0@.take(i + 1) =~= self.0@.take(i as int).push(card));
                self.0@.take(i as int).lemma_filter_push(card, is_regular());
            }
            if card == Card::Joker {
                taken.push(card);
                assert(taken@ =~= jokers(taken@.len() as int));
            } else {
                kept.push(card);
            }
            i += 1;
        }
        assert(self.0@.take(n as int) =~= self.0@);
        self.0 = kept;
        Sequence(taken)
    }

    /// The same-rank rule: whether the cards that are no Jokers share one
    /// rank and have pairwise distinct suits.
    pub fn is_valid_sequence_same_val(&self) -> (res: bool)
        ensures
            res == same_rank_set(self@),
    {
        let mut common: Option<u8> = None;
        let mut seen_heart: bool = false;
        let mut seen_diamond: bool = false;
        let mut seen_club: bool = false;
        let mut seen_spade: bool = false;
        let ghost mut first: int = 0;
        let ghost mut place: Map<Suit, int> = Map::empty();
        let n: usize = self.0.len();
        let mut i: usize = 0;
        while i < n
            invariant
                n == self.0@.len(),
                i <= n,
                common is None ==> forall|k: int| 0 <= k < i ==> self.0@[k] == Card::Joker,
                common matches Some(v) ==> 0 <= first < i && self.0@[first] != Card::Joker
                    && rank_of(self.0@[first]) == v,
                common matches Some(v) ==> forall|k: int|
                    0 <= k < i && self.0@[k] != Card::Joker ==> rank_of(self.0@[k]) == v,
                forall|k: int|
                    0 <= k < i && self.0@[k] != Card::Joker ==> place.dom().contains(
                        suit_of(#[trigger] self.0@[k]),
                    ),
                forall|s: Suit| #[trigger]
                    place.dom().contains(s) ==> 0 <= place[s] < i && self.0@[place[s]]
                        != Card::Joker && suit_of(self.0@[place[s]]) == s,
                seen_heart == place.dom().contains(Suit::Heart),
                seen_diamond == place.dom().contains(Suit::Diamond),
                seen_club == place.dom().contains(Suit::Club),
                seen_spade == place.dom().contains(Suit::Spade),
                forall|k1: int, k2: int|
                    0 <= k1 < i && 0 <= k2 < i && k1 != k2 && #[trigger] self.0@[k1] != Card::Joker
                        && #[trigger] self.0@[k2] != Card::Joker ==> suit_of(self.0@[k1])
                        != suit_of(self.0@[k2]),
            decreases n - i,
        {
            match self.0[i] {
                Card::RegularCard(suit, value) => {
                    match common {
                        Some(v) => {
                            if value != v {
                                assert(self.0@[first] != Card::Joker && self.0@[i as int]
                                    != Card::Joker);
                                return false;
                            }
                        },
                        None => {
                            common = Some(value);
                            proof {
                                first = i as int;
                            }
                        },
                    }
                    let seen = match suit {
                        Suit::Heart => seen_heart,
                        Suit::Diamond => seen_diamond,
                        Suit::Club => seen_club,
                        Suit::Spade => seen_spade,
                    };
                    if seen {
                        assert(self.0@[place[suit]] != Card::Joker && self.0@[i as int]
                            != Card::Joker);
                        return false;
                    }
                    match suit {
                        Suit::Heart => {
                            seen_heart = true;
                        },
                        Suit::Diamond => {
                            seen_diamond = true;
                        },
                        Suit::Club => {
                            seen_club = true;
                        },
                        Suit::Spade => {
                            seen_spade = true;
                        },
                    }
                    proof {
                        place = place.insert(suit, i as int);
                    }
                },
                Card::Joker => {},
            }
            i += 1;
        }
        true
    }

    /// The same-suit rule, on the cards as they stand: whether the cards
    /// that are no Jokers make a run in their order, with the Jokers to fill
    /// its gaps. Where they do, the sequence becomes the run laid out for
    /// display; where they do not, it is left as it was.
    pub fn is_valid_sequence_same_suit(&mut self) -> (res: bool)
        ensures
            res == is_run(regular_cards(old(self)@), joker_count(old(self)@) as int),
            res ==> final(self)@ == tidy_leading_king(
                run_layout(regular_cards(old(self)@), joker_count(old(self)@) as int),
            ),
            !res ==> final(self)@ == old(self)@,
            final(self)@.to_multiset() == old(self)@.to_multiset(),
    {
        proof {
            if is_run(regular_cards(self@), joker_count(self@) as int) {
                lemma_run_keeps_its_cards(self@);
            }
        }
        let mut work = self.clone();
        let taken = work.take_jokers();
        match lay_out_run(&work.0, taken.0.len()) {
            Some(layout) => {
                self.0 = layout;
                true
            },
            None => false,
        }
    }

    /// Decides whether the sequence is a legal meld. An accepted meld is
    /// left in the arrangement in which it was read; a rejected sequence is
    /// left exactly as it was.
    pub fn is_valid(&mut self) -> (res: bool)
        ensures
            res == is_meld(old(self)@),
            final(self)@ == match meld_reading(old(self)@) {
                Some(reading) => reading,
                None => old(self)@,
            },
            old(self)@.len() < 3 && !only_jokers(old(self)@) ==> !res,
            old(self)@.len() >= 1 && only_jokers(old(self)@) ==> res,
            final(self)@.to_multiset() == old(self)@.to_multiset(),
    {
        proof {
            lemma_meld_keeps_its_cards(self@);
        }
        if self.0.len() == 0 {
            return false;
        }
        if self.has_only_jokers() {
            return true;
        }
        if self.0.len() < 3 {
            return false;
        }
        let mut sorted = self.clone();
        sorted.sort_by_rank();
        if self.is_valid_sequence_same_val() {
            *self = sorted;
            return true;
        }
        let mut low = sorted.clone();
        let taken = low.take_jokers();
        if leading_ace_is_open(&low.0) {
            let high = move_first_to_end(&low.0);
            match lay_out_run(&high, taken.0.len()) {
                Some(layout) => {
                    self.0 = layout;
                    return true;
                },
                None => {},
            }
        }
        if sorted.is_valid_sequence_same_suit() {
            *self = sorted;
            return true;
        }
        false
    }

    /// Puts the cards in a random order.
    pub fn shuffle(&mut self, rng: &mut ThreadRng)
        ensures
            final(self)@.to_multiset() == old(self)@.to_multiset(),
            final(self)@.len() == old(self)@.len(),
            old(self).wf() ==> final(self).wf(),
    {
        let ghost before = self.0@;
        shuffle_cards(&mut self.0, rng);
        proof {
            vstd::seq_lib::to_multiset_len(before);
            vstd::seq_lib::to_multiset_len(self.0@);
            if all_wf(before) {
                assert forall|i: int| 0 <= i < self.0@.len() implies (#[trigger] self.0@[i]).wf() by {
                    let c = self.0@[i];
                    vstd::seq_lib::to_multiset_contains(self.0@, c);
                    vstd::seq_lib::to_multiset_contains(before, c);
                    assert(self.0@.contains(c));
                    let k = choose|k: int| 0 <= k < before.len() && before[k] == c;
                    assert(before[k].wf());
                }
            }
        }
    }

    /// A shuffled deck: `n_decks` times the 52 regular cards, and `n_jokers`
    /// Jokers.
    pub fn multi_deck(n_decks: u8, n_jokers: u8, rng: &mut ThreadRng) -> (res: Sequence)
        ensures
            res@.to_multiset() == fresh_deck(n_decks as nat, n_jokers as nat).to_multiset(),
            res@.len() == 52 * n_decks + n_jokers,
            res.wf(),
    {
        let mut deck = Sequence::new();
        let ghost all = fresh_deck(n_decks as nat, n_jokers as nat);
        let mut d: u8 = 0;
        assert(deck@ =~= all.take(0));
        while d < n_decks
            invariant
                d <= n_decks,
                all == fresh_deck(n_decks as nat, n_jokers as nat),
                deck@ == all.take(52 * d),
            decreases n_decks - d,
        {
            let mut val: u8 = 1;
            while val <= MAX_VAL
                invariant
                    d < n_decks,
                    1 <= val <= MAX_VAL + 1,
                    all == fresh_deck(n_decks as nat, n_jokers as nat),
                    deck@ == all.take(52 * d + 4 * (val - 1)),
                decreases MAX_VAL + 1 - val,
            {
                let ghost base = 52 * d + 4 * (val - 1);
                proof {
                    lemma_fresh_deck_card(n_decks as nat, n_jokers as nat, d as int, val as int, 0);
                    lemma_fresh_deck_card(n_decks as nat, n_jokers as nat, d as int, val as int, 1);
                    lemma_fresh_deck_card(n_decks as nat, n_jokers as nat, d as int, val as int, 2);
                    lemma_fresh_deck_card(n_decks as nat, n_jokers as nat, d as int, val as int, 3);
                }
                deck.add_card(Card::RegularCard(Suit::Heart, val));
                assert(deck@ =~= all.take(base + 1));
                deck.add_card(Card::RegularCard(Suit::Diamond, val));
                assert(deck@ =~= all.take(base + 2));
                deck.add_card(Card::RegularCard(Suit::Club, val));
                assert(deck@ =~= all.take(base + 3));
                deck.add_card(Card::RegularCard(Suit::Spade, val));
                assert(deck@ =~= all.take(base + 4));
                val += 1;
            }
            d += 1;
        }
        let mut j: u8 = 0;
        while j < n_jokers
            invariant
                j <= n_jokers,
                all == fresh_deck(n_decks as nat, n_jokers as nat),
                deck@ == all.take(52 * n_decks + j),
            decreases n_jokers - j,
        {
            deck.add_card(Card::Joker);
            assert(deck@ =~= all.take(52 * n_decks + j + 1));
            j += 1;
        }
        assert(all.take(52 * n_decks + n_jokers) =~= all);
        assert(all_wf(all));
        deck.shuffle(rng);
        deck
    }

    /// Whether this sequence holds every card of `seq`, each at least as
    /// often as `seq` holds it.
    pub fn contains(&self, seq: &Sequence) -> (res: bool)
        ensures
            res == seq@.to_multiset().subset_of(self@.to_multiset()),
    {
        let n: usize = seq.0.len();
        let mut j: usize = 0;
        while j < n
            invariant
                n == seq.0@.len(),
                j <= n,
                forall|k: int|
                    0 <= k < j ==> seq.0@.to_multiset().count(#[trigger] seq.0@[k])
                        <= self.0@.to_multiset().count(seq.0@[k]),
            decreases n - j,
        {
            let card = seq.0[j];
            if count_card(&seq.0, card) > count_card(&self.0, card) {
                return false;
            }
            j += 1;
        }
        proof {
            assert forall|c: Card|
                seq.0@.to_multiset().count(c) <= self.0@.to_multiset().count(c) by {
                vstd::seq_lib::to_multiset_contains(seq.0@, c);
                if seq.0@.contains(c) {
                    let k = choose|k: int| 0 <= k < seq.0@.len() && seq.0@[k] == c;
                    assert(seq.0@.to_multiset().count(seq.0@[k]) <= self.0@.to_multiset().count(
                        seq.0@[k],
                    ));
                }
            }
        }
        true
    }

    /// Whether the sequence holds a Joker.
    pub fn contains_joker(&self) -> (res: bool)
        ensures
            res == self@.contains(Card::Joker),
    {
        let n: usize = self.0.len();
        let mut i: usize = 0;
        while i < n
            invariant
                n == self.0@.len(),
                i <= n,
                forall|j: int| 0 <= j < i ==> self.0@[j] != Card::Joker,
            decreases n - i,
        {
            if self.0[i] == Card::Joker {
                return true;
            }
            i += 1;
        }
        false
    }

    /// Whether every card is a Joker (true of the empty sequence).
    pub fn has_only_jokers(&self) -> (res: bool)
        ensures
            res == only_jokers(self@),
    {
        let n: usize = self.0.len();
        let mut i: usize = 0;
        while i < n
            invariant
                n == self.0@.len(),
                i <= n,
                forall|j: int| 0 <= j < i ==> self.0@[j] == Card::Joker,
            decreases n - i,
        {
            if self.0[i] != Card::Joker {
                return false;
            }
            i += 1;
        }
        true
    }
}

/// The key by which cards are sorted by rank: the rank weighs more than the
/// suit, and a Joker more than any card.
pub fn value_card_by_rank(card: &Card) -> (key: i64)
    ensures
        key == rank_key(*card),
{
    match *card {
        Card::Joker => 1025,
        Card::RegularCard(suit, val) => 4 * (val as i64) + (suit_to_int(suit) as i64),
    }
}

/// The key by which cards are sorted by suit: the suit weighs more than the
/// rank, and a Joker more than any card.
pub fn value_card_by_suit(card: &Card) -> (key: i64)
    ensures
        key == suit_key(*card),
{
    match *card {
        Card::Joker => 1280,
        Card::RegularCard(suit, val) => 256 * (suit_to_int(suit) as i64) + (val as i64),
    }
}

/// Cards that were arranged in a sorting order of their keys ascend in the
/// order that the keys stand for.
proof fn lemma_arranged_is_sorted(
    cards: Seq<Card>,
    keys: Seq<i64>,
    out: Seq<Card>,
    key_of: spec_fn(Card) -> int,
    leq: spec_fn(Card, Card) -> bool,
)
    requires
        keys.len() == cards.len(),
        forall|i: int| 0 <= i < cards.len() ==> #[trigger] keys[i] == key_of(cards[i]),
        forall|a: Card, b: Card| #[trigger] leq(a, b) == (key_of(a) <= key_of(b)),
        exists|order: Seq<int>| #[trigger]
            is_sorting_order(order, keys) && arranged(cards, order, out),
    ensures
        sorted_by(out, leq),
{
    let order = choose|order: Seq<int>| #[trigger]
        is_sorting_order(order, keys) && arranged(cards, order, out);
    assert forall|i: int, j: int| 0 <= i < j < out.len() implies #[trigger] leq(
        out[i],
        out[j],
    ) by {
        assert(comes_before(keys, order[i], order[j]));
        assert(out[i] == cards[order[i]]);
        assert(out[j] == cards[order[j]]);
        assert(keys[order[i]] == key_of(cards[order[i]]));
        assert(keys[order[j]] == key_of(cards[order[j]]));
    }
}

/// How often a card occurs among the cards.
fn count_card(cards: &Vec<Card>, card: Card) -> (n: usize)
    ensures
        n == cards@.to_multiset().count(card),
{
    broadcast use vstd::multiset::group_multiset_axioms;

    let len: usize = cards.len();
    let mut n: usize = 0;
    let mut i: usize = 0;
    assert(cards@.take(0) =~= Seq::<Card>::empty());
    assert(Seq::<Card>::empty().to_multiset() =~= vstd::multiset::Multiset::<Card>::empty()) by {
        vstd::seq_lib::to_multiset_len(Seq::<Card>::empty());
    }
    while i < len
        invariant
            len == cards@.len(),
            i <= len,
            n <= i,
            n == cards@.take(i as int).to_multiset().count(card),
        decreases len - i,
    {
        proof {
            assert(cards@.take(i + 1) =~= cards@.take(i as int).push(cards@[i as int]));
            vstd::seq_lib::to_multiset_build(cards@.take(i as int), cards@[i as int]);
        }
        if cards[i] == card {
            n += 1;
        }
        i += 1;
    }
    assert(cards@.take(len as int) =~= cards@);
    n
}

/// Puts `n` Jokers at the end of `out`.
fn push_jokers(out: &mut Vec<Card>, n: usize)
    ensures
        final(out)@ == old(out)@ + jokers(n as int),
{
    let mut k: usize = 0;
    assert(out@ =~= old(out)@ + jokers(0));
    while k < n
        invariant
            k <= n,
            out@ == old(out)@ + jokers(k as int),
        decreases n - k,
    {
        out.push(Card::Joker);
        assert(out@ =~= old(out)@ + jokers(k + 1));
        k += 1;
    }
}

/// Moves a Joker that stands behind a leading King, or behind a leading
/// King and Ace, to the front.
fn tidy_layout(cards: &mut Vec<Card>)
    ensures
        final(cards)@ == tidy_leading_king(old(cards)@),
{
    if cards.len() < 2 {
        return ;
    }
    let c0 = cards[0];
    let c1 = cards[1];
    let leading_king = match c0 {
        Card::RegularCard(_, val) => val == MAX_VAL,
        Card::Joker => false,
    };
    if !leading_king {
        return ;
    }
    match c1 {
        Card::Joker => {
            cards.set(0, c1);
            cards.set(1, c0);
        },
        Card::RegularCard(_, val) => {
            if val == 1 && cards.len() >= 3 {
                let c2 = cards[2];
                if c2 == Card::Joker {
                    cards.set(0, c2);
                    cards.set(1, c0);
                    cards.set(2, c1);
                }
            }
        },
    }
}

/// Whether regular cards in rank order begin with an Ace that no 2 follows.
fn leading_ace_is_open(low: &Vec<Card>) -> (res: bool)
    ensures
        res == leading_ace_may_be_high(low@),
{
    if low.len() == 0 {
        return false;
    }
    let first_is_ace = match low[0] {
        Card::RegularCard(_, val) => val == 1,
        Card::Joker => false,
    };
    if !first_is_ace {
        return false;
    }
    if low.len() >= 2 {
        match low[1] {
            Card::RegularCard(_, val) => val != 2,
            Card::Joker => true,
        }
    } else {
        true
    }
}

/// The cards with the first one moved to the end.
fn move_first_to_end(cards: &Vec<Card>) -> (res: Vec<Card>)
    ensures
        res@ == first_to_end(cards@),
{
    let mut res: Vec<Card> = Vec::new();
    let n: usize = cards.len();
    if n == 0 {
        assert(res@ =~= cards@);
        return res;
    }
    let mut i: usize = 1;
    assert(res@ =~= cards@.subrange(1, 1));
    while i < n
        invariant
            n == cards@.len(),
            1 <= i <= n,
            res@ == cards@.subrange(1, i as int),
        decreases n - i,
    {
        res.push(cards[i]);
        assert(res@ =~= cards@.subrange(1, i + 1));
        i += 1;
    }
    res.push(cards[0]);
    assert(res@ =~= first_to_end(cards@));
    res
}

/// Reads regular cards, in the order given, as a run with `n_jokers` Jokers
/// at hand, and lays the run out for display where it is one.
fn lay_out_run(run: &Vec<Card>, n_jokers: usize) -> (res: Option<Vec<Card>>)
    ensures
        res is Some <==> is_run(run@, n_jokers as int),
        res matches Some(layout) ==> layout@ == tidy_leading_king(
            run_layout(run@, n_jokers as int),
        ),
{
    let mut out: Vec<Card> = Vec::new();
    let m: usize = run.len();
    let mut level: u128 = 0;
    let mut first_suit: Suit = Suit::Club;
    let mut used: usize = 0;
    let mut i: usize = 0;
    while i < m
        invariant
            m == run@.len(),
            i <= m,
            used <= n_jokers,
            i > 0 ==> level == run_level(run@, i - 1) && first_suit == suit_of(run@[0]),
            i > 0 ==> used == run_level(run@, i - 1) - run_level(run@, 0) - (i - 1),
            i == 0 ==> used == 0,
            level <= 255 + i + used,
            forall|k: int| 0 < k < i ==> suit_of(#[trigger] run@[k]) == suit_of(run@[0]),
            forall|k: int| 0 < k < i ==> #[trigger] steps_up(run@, k),
            out@ == run_layout_prefix(run@, i as int),
        decreases m - i,
    {
        let card = run[i];
        let (suit, rank): (Suit, u8) = match card {
            Card::RegularCard(s, v) => (s, v),
            Card::Joker => (Suit::Heart, 0),
        };
        assert(suit == suit_of(card) && rank == rank_of(card));
        if i == 0 {
            first_suit = suit;
            level = rank as u128;
            assert(jokers(gap_before(run@, 0)) =~= Seq::<Card>::empty());
            out.push(card);
            assert(out@ =~= run_layout_prefix(run@, 1)) by {
                assert(run_layout_prefix(run@, 0) =~= Seq::<Card>::empty());
            }
        } else {
            if suit != first_suit {
                return None;
            }
            let next: u128 = if rank == 1 {
                if level >= 13 {
                    level + 1
                } else {
                    14
                }
            } else {
                rank as u128
            };
            assert(next == run_level(run@, i as int));
            if next <= level {
                assert(!steps_up(run@, i as int));
                return None;
            }
            assert(steps_up(run@, i as int));
            let gap: u128 = next - level - 1;
            if gap > (n_jokers - used) as u128 {
                proof {
                    if is_run(run@, n_jokers as int) {
                        lemma_gaps_grow(run@, i as int, m - 1);
                    }
                }
                return None;
            }
            push_jokers(&mut out, gap as usize);
            out.push(card);
            assert(out@ =~= run_layout_prefix(run@, i + 1));
            used = used + gap as usize;
            level = next;
        }
        i += 1;
    }
    push_jokers(&mut out, n_jokers - used);
    assert(out@ == run_layout(run@, n_jokers as int));
    tidy_layout(&mut out);
    Some(out)
}

/// The suits in the order in which a new deck holds them.
pub open spec fn suit_in_deck(i: int) -> Suit {
    if i == 0 {
        Suit::Heart
    } else if i == 1 {
        Suit::Diamond
    } else if i == 2 {
        Suit::Club
    } else {
        Suit::Spade
    }
}

/// Card `i` of a new deck of 52 cards: the four Aces, then the four 2s, and
/// so on to the Kings.
pub open spec fn deck_card(i: int) -> Card {
    Card::RegularCard(suit_in_deck(i % 4), (i / 4 + 1) as u8)
}

/// Where each card of each deck stands among the cards of a game before
/// they are shuffled.
proof fn lemma_fresh_deck_card(n_decks: nat, n_jokers: nat, d: int, val: int, s: int)
    requires
        0 <= d < n_decks,
        1 <= val <= 13,
        0 <= s < 4,
    ensures
        0 <= 52 * d + 4 * (val - 1) + s < 52 * n_decks,
        fresh_deck(n_decks, n_jokers)[52 * d + 4 * (val - 1) + s] == Card::RegularCard(
            suit_in_deck(s),
            val as u8,
        ),
{
    let r = 4 * (val - 1) + s;
    let i = 52 * d + r;
    assert(0 <= r < 52);
    assert(i % 52 == r) by (nonlinear_arith)
        requires
            i == 52 * d + r,
            0 <= r < 52,
            0 <= d,
    ;
    assert(r % 4 == s && r / 4 == val - 1) by (nonlinear_arith)
        requires
            r == 4 * (val - 1) + s,
            0 <= s < 4,
            1 <= val,
    ;
}

/// The cards of a game before they are shuffled: `n_decks` decks of 52
/// cards, then `n_jokers` Jokers.
pub open spec fn fresh_deck(n_decks: nat, n_jokers: nat) -> Seq<Card> {
    Seq::new(
        52 * n_decks + n_jokers,
        |i: int|
            if i < 52 * n_decks {
                deck_card(i % 52)
            } else {
                Card::Joker
            },
    )
}

/// Every card of the sequence is a Joker.
pub open spec fn only_jokers(cards: Seq<Card>) -> bool {
    forall|i: int| 0 <= i < cards.len() ==> cards[i] == Card::Joker
}

} // verus!
