//! A session of the game: dealing, whose turn it is, how a round ends, and
//! whether another round is played.

use crate::protocol::Instruction;
use crate::random::random_below;
use crate::render::{situation_text, situation_to_string};
use crate::save::{hands_view, names_view, Config, GameView};
use crate::sequence_cards::{fresh_deck, Card, Sequence};
use crate::table::Table;
use crate::text::{chars_of, trim, trimmed};
use crate::turn::{drawn_cards, Turn, TurnView};
use rand::rngs::ThreadRng;
use vstd::prelude::*;

verus! {

/// The text in lower case, as the standard library's `str::to_lowercase`
/// gives it.
pub uninterp spec fn lowercase(text: Seq<char>) -> Seq<char>;

/// Calls `str::to_lowercase`, whose result is what `lowercase` names.
#[verifier::external_body]
fn lowercase_of(text: &Vec<char>) -> (res: Vec<char>)
    ensures
        res@ == lowercase(text@),
{
    let s: String = text.iter().collect();
    s.to_lowercase().chars().collect()
}

/// Whether a word, in lower case, is one of the words for yes.
pub open spec fn is_yes_word(word: Seq<char>) -> bool {
    ||| word == "y"@
    ||| word == "yes"@
    ||| word == "yeah"@
    ||| word == "aye"@
    ||| word == "oui"@
    ||| word == "ja"@
    ||| word == "da"@
    ||| word == "ok"@
    ||| word == "si"@
    ||| word == "sim"@
}

/// Whether the characters are those of the word.
fn text_is(chars: &Vec<char>, word: &str) -> (res: bool)
    ensures
        res == (chars@ == word@),
{
    let other = chars_of(word);
    if other.len() != chars.len() {
        return false;
    }
    let n: usize = chars.len();
    let mut i: usize = 0;
    while i < n
        invariant
            n == chars@.len(),
            n == other@.len(),
            other@ == word@,
            i <= n,
            forall|k: int| 0 <= k < i ==> chars@[k] == other@[k],
        decreases n - i,
    {
        if chars[i] != other[i] {
            return false;
        }
        i += 1;
    }
    assert(chars@ =~= other@);
    true
}

/// Whether a word that is in lower case already is one of the words for
/// yes.
pub fn is_yes_lowered(word: &Vec<char>) -> (res: bool)
    ensures
        res == is_yes_word(word@),
{
    text_is(word, "y") || text_is(word, "yes") || text_is(word, "yeah") || text_is(word, "aye")
        || text_is(word, "oui") || text_is(word, "ja") || text_is(word, "da") || text_is(
        word,
        "ok",
    ) || text_is(word, "si") || text_is(word, "sim")
}

/// Whether a text is a word for yes, in upper or lower case.
pub fn is_yes(s: &str) -> (res: bool)
    ensures
        res == is_yes_word(lowercase(s@)),
{
    let chars = chars_of(s);
    let lowered = lowercase_of(&chars);
    is_yes_lowered(&lowered)
}

/// Whether a reply says yes: the reply without the white space around it is
/// a word for yes.
pub open spec fn says_yes(reply: Seq<char>) -> bool {
    is_yes_word(lowercase(trimmed(reply)))
}

/// Whether a reply says yes.
pub fn reply_is_yes(reply: &str) -> (res: bool)
    ensures
        res == says_yes(reply@),
{
    let chars = chars_of(reply);
    let word = trim(&chars);
    let lowered = lowercase_of(&word);
    is_yes_lowered(&lowered)
}

/// Whether every reply says yes.
pub fn all_agree(replies: &Vec<String>) -> (res: bool)
    ensures
        res == forall|i: int| 0 <= i < replies@.len() ==> says_yes((#[trigger] replies@[i])@),
{
    let n: usize = replies.len();
    let mut i: usize = 0;
    while i < n
        invariant
            n == replies@.len(),
            i <= n,
            forall|k: int| 0 <= k < i ==> says_yes((#[trigger] replies@[k])@),
        decreases n - i,
    {
        if !reply_is_yes(replies[i].as_str()) {
            return false;
        }
        i += 1;
    }
    true
}

/// The player whose turn comes after that of `player`, among `n_players`
/// players who play in the order of their slots.
pub open spec fn player_after(player: int, n_players: int) -> int {
    if player + 1 >= n_players {
        0
    } else {
        player + 1
    }
}

/// The player whose turn comes next.
pub fn next_player(player: u8, n_players: u8) -> (res: u8)
    requires
        player < n_players,
    ensures
        res == player_after(player as int, n_players as int),
        res < n_players,
{
    if player + 1 >= n_players {
        0
    } else {
        player + 1
    }
}

/// The hand of the player in slot `i` when each player is dealt `n` cards
/// from the end of the deck, slot by slot.
pub open spec fn dealt_hand(deck: Seq<Card>, i: int, n: int) -> Seq<Card> {
    drawn_cards(deck.take(deck.len() - i * n), n)
}

/// Deals `n_cards_to_start` cards to each of `n_players` players, one
/// player after the other, from the end of the deck. Nothing is dealt where
/// the deck has too few cards.
pub fn deal_hands(deck: &mut Sequence, n_players: u8, n_cards_to_start: u16) -> (res: Option<
    Vec<Sequence>,
>)
    ensures
        res is Some <==> n_players * n_cards_to_start <= old(deck)@.len(),
        res is None ==> final(deck)@ == old(deck)@,
        res matches Some(hands) ==> {
            &&& hands@.len() == n_players
            &&& forall|i: int|
                0 <= i < n_players ==> (#[trigger] hands@[i])@ == dealt_hand(
                    old(deck)@,
                    i,
                    n_cards_to_start as int,
                )
            &&& final(deck)@ == old(deck)@.take(
                old(deck)@.len() - n_players * n_cards_to_start,
            )
        },
{
    let n: usize = n_cards_to_start as usize;
    let players: usize = n_players as usize;
    assert(players * n <= 255 * 65535) by (nonlinear_arith)
        requires
            players <= 255,
            n <= 65535,
    ;
    if players * n > deck.number_cards() {
        return None;
    }
    let ghost all = deck@;
    let mut hands: Vec<Sequence> = Vec::new();
    let mut i: usize = 0;
    assert(deck@ =~= all.take(all.len() - 0 * n));
    while i < players
        invariant
            players == n_players,
            n == n_cards_to_start,
            i <= players,
            players * n <= all.len(),
            hands@.len() == i,
            forall|k: int| 0 <= k < i ==> (#[trigger] hands@[k])@ == dealt_hand(all, k, n as int),
            deck@ == all.take(all.len() - i * n),
        decreases players - i,
    {
        assert((i + 1) * n <= players * n) by (nonlinear_arith)
            requires
                i + 1 <= players,
        ;
        assert((i + 1) * n == i * n + n) by (nonlinear_arith);
        let ghost before = deck@;
        let mut hand = Sequence::new();
        let mut k: usize = 0;
        assert(hand@ =~= drawn_cards(before, 0));
        assert(deck@ =~= before.take(before.len() - 0));
        while k < n
            invariant
                k <= n,
                n <= before.len(),
                hand@ == drawn_cards(before, k as int),
                deck@ == before.take(before.len() - k),
            decreases n - k,
        {
            match deck.draw_card() {
                Some(card) => {
                    hand.add_card(card);
                    assert(hand@ =~= drawn_cards(before, k + 1));
                    assert(deck@ =~= before.take(before.len() - (k + 1)));
                },
                None => {},
            }
            k += 1;
        }
        hands.push(hand);
        assert(deck@ =~= all.take(all.len() - (i + 1) * n));
        i += 1;
    }
    Some(hands)
}

/// A game in progress.
pub struct GameSession {
    pub config: Config,
    /// The slot of the player who began the round.
    pub starting_player: u8,
    /// The slot of the player whose turn it is.
    pub player: u8,
    pub table: Table,
    /// The hands of the players, by slot.
    pub hands: Vec<Sequence>,
    pub deck: Sequence,
    /// The names of the players, by slot.
    pub player_names: Vec<String>,
}

impl View for GameSession {
    type V = GameView;

    open spec fn view(&self) -> GameView {
        GameView {
            config: self.config,
            starting_player: self.starting_player,
            player: self.player,
            table: self.table@,
            hands: hands_view(self.hands@),
            deck: self.deck@,
            player_names: names_view(self.player_names@),
        }
    }
}

/// Whether the cards of a configuration are enough to deal every player's
/// hand.
pub open spec fn can_deal(config: Config) -> bool {
    config.n_players * config.n_cards_to_start <= 52 * config.n_decks + config.n_jokers
}

/// Whether the cards of a configuration are enough to deal every player's
/// hand.
pub fn has_cards_to_deal(config: &Config) -> (res: bool)
    ensures
        res == can_deal(*config),
{
    assert(config.n_players * config.n_cards_to_start <= 255 * 65535) by (nonlinear_arith)
        requires
            config.n_players <= 255,
            config.n_cards_to_start <= 65535,
    ;
    let needed: u32 = (config.n_players as u32) * (config.n_cards_to_start as u32);
    let cards: u32 = 52 * (config.n_decks as u32) + (config.n_jokers as u32);
    needed <= cards
}

/// A game is well formed when every player has a hand and a name and the
/// two players it names are players.
pub open spec fn game_wf(g: GameView) -> bool {
    &&& g.hands.len() == g.config.n_players
    &&& g.player_names.len() == g.config.n_players
    &&& g.player < g.config.n_players
    &&& g.starting_player < g.config.n_players
}

/// How a turn left the round.
#[derive(Clone, Copy, PartialEq, Eq, Structural, Debug)]
pub enum RoundState {
    /// The player who just played has no card left and wins.
    Won(u8),
    /// The round goes on with the next player.
    GoesOn,
}

/// What is done once the players were asked for another round.
pub enum ReplayOutcome {
    /// Every player agreed: the cards were dealt anew.
    Redealt,
    /// A player did not agree: the session ends, and these instructions go
    /// out, one to each connection.
    Closed(Vec<Instruction>),
}

impl GameSession {
    /// The game is well formed.
    pub open spec fn wf(&self) -> bool {
        game_wf(self@)
    }

    /// Whether the game is well formed.
    pub fn is_well_formed(&self) -> (res: bool)
        ensures
            res == self.wf(),
    {
        let n: usize = self.config.n_players as usize;
        assert(hands_view(self.hands@).len() == self.hands@.len());
        assert(names_view(self.player_names@).len() == self.player_names@.len());
        self.hands.len() == n && self.player_names.len() == n && self.player
            < self.config.n_players && self.starting_player < self.config.n_players
    }

    /// Deals a round from a deck: each player is dealt a hand, the table is
    /// empty, and the starting player is the first to play. There is no
    /// round where the deck has too few cards.
    pub fn deal(
        deck: Sequence,
        config: Config,
        starting_player: u8,
        player_names: Vec<String>,
    ) -> (res: Option<GameSession>)
        requires
            starting_player < config.n_players,
            player_names@.len() == config.n_players,
        ensures
            res is Some <==> config.n_players * config.n_cards_to_start <= deck@.len(),
            res matches Some(game) ==> {
                &&& game.wf()
                &&& game@.config == config
                &&& game@.starting_player == starting_player
                &&& game@.player == starting_player
                &&& game@.table == Seq::<Seq<Card>>::empty()
                &&& game@.player_names == names_view(player_names@)
                &&& forall|i: int|
                    0 <= i < config.n_players ==> #[trigger] game@.hands[i] == dealt_hand(
                        deck@,
                        i,
                        config.n_cards_to_start as int,
                    )
                &&& game@.deck == deck@.take(
                    deck@.len() - config.n_players * config.n_cards_to_start,
                )
            },
    {
        let mut deck = deck;
        match deal_hands(&mut deck, config.n_players, config.n_cards_to_start) {
            Some(hands) => {
                let game = GameSession {
                    config,
                    starting_player,
                    player: starting_player,
                    table: Table::new(),
                    hands,
                    deck,
                    player_names,
                };
                Some(game)
            },
            None => None,
        }
    }

    /// Begins a round with a freshly shuffled deck.
    pub fn new_round(
        config: Config,
        starting_player: u8,
        player_names: Vec<String>,
        rng: &mut ThreadRng,
    ) -> (res: Option<GameSession>)
        requires
            starting_player < config.n_players,
            player_names@.len() == config.n_players,
        ensures
            res is Some <==> can_deal(config),
            res matches Some(game) ==> {
                &&& game.wf()
                &&& game@.config == config
                &&& game@.starting_player == starting_player
                &&& game@.player == starting_player
                &&& game@.table == Seq::<Seq<Card>>::empty()
                &&& game@.player_names == names_view(player_names@)
                &&& is_fresh_deal(game@)
            },
    {
        let deck = Sequence::multi_deck(config.n_decks, config.n_jokers, rng);
        let ghost shuffled = deck@;
        let res = GameSession::deal(deck, config, starting_player, player_names);
        proof {
            if res is Some {
                assert(is_deal_of(res->0@, shuffled));
            }
        }
        res
    }

    /// Picks the player who begins the first round, at random.
    pub fn choose_starting_player(n_players: u8, rng: &mut ThreadRng) -> (res: u8)
        requires
            n_players > 0,
        ensures
            res < n_players,
    {
        random_below(n_players, rng)
    }

    /// Whether the round ends in a draw before the next turn: the deck is
    /// empty.
    pub fn deck_is_exhausted(&self) -> (res: bool)
        ensures
            res == (self@.deck.len() == 0),
    {
        self.deck.number_cards() == 0
    }

    /// What the player whose turn it is works on.
    pub fn begin_turn(&self, sort_mode: u8) -> (turn: Turn)
        requires
            self.wf(),
        ensures
            turn@ == (TurnView {
                table: self@.table,
                hand: self@.hands[self.player as int],
                deck: self@.deck,
                borrowed: Seq::empty(),
                hand_start: self@.hands[self.player as int],
                table_start: self@.table,
                custom_rule_jokers: self.config.custom_rule_jokers,
                sort_mode,
            }),
    {
        Turn::new(
            self.table.clone(),
            self.hands[self.player as usize].clone(),
            self.deck.clone(),
            self.config.custom_rule_jokers,
            sort_mode,
        )
    }

    /// What a player is shown of the game during a turn: the table and the
    /// borrowed cards as the turn has them, and the player's own hand. That
    /// is the hand of the turn for the player whose turn it is, and for
    /// every other player the hand that the game holds for that player.
    pub fn situation_for(&self, turn: &Turn, viewer: usize, message: &str) -> (res: String)
        requires
            self.wf(),
            viewer < self.config.n_players,
            hand_shown_to(self@, turn@, viewer as int).len() + turn@.borrowed.len()
                <= usize::MAX,
        ensures
            res@ == situation_text(
                turn@.table,
                hand_shown_to(self@, turn@, viewer as int),
                turn@.borrowed,
                message@,
            ),
    {
        if viewer == self.player as usize {
            situation_to_string(&turn.table, &turn.hand, &turn.cards_from_table, message)
        } else {
            assert(self@.hands[viewer as int] == self.hands@[viewer as int]@);
            situation_to_string(
                &turn.table,
                &self.hands[viewer],
                &turn.cards_from_table,
                message,
            )
        }
    }

    /// Takes over what a turn has left. The player wins whose hand is empty
    /// now; otherwise it is the next player's turn.
    pub fn finish_turn(&mut self, turn: Turn) -> (res: RoundState)
        requires
            old(self).wf(),
        ensures
            final(self).wf(),
            final(self)@.table == turn@.table,
            final(self)@.deck == turn@.deck,
            final(self)@.hands == old(self)@.hands.update(old(self).player as int, turn@.hand),
            final(self)@.config == old(self)@.config,
            final(self)@.starting_player == old(self)@.starting_player,
            final(self)@.player_names == old(self)@.player_names,
            turn@.hand.len() == 0 ==> res == RoundState::Won(old(self).player),
            turn@.hand.len() == 0 ==> final(self).player == old(self).player,
            turn@.hand.len() > 0 ==> res == RoundState::GoesOn,
            turn@.hand.len() > 0 ==> final(self).player == player_after(
                old(self).player as int,
                old(self).config.n_players as int,
            ),
    {
        let player = self.player;
        let won = turn.hand.number_cards() == 0;
        self.table = turn.table;
        self.deck = turn.deck;
        self.hands.set(player as usize, turn.hand);
        assert(hands_view(self.hands@) =~= old(self)@.hands.update(player as int, turn@.hand));
        if won {
            RoundState::Won(player)
        } else {
            self.player = next_player(player, self.config.n_players);
            RoundState::GoesOn
        }
    }

    /// Decides on another round from the players' replies. Unless every
    /// reply says yes the game is left as it is and every connection is
    /// told to close. Where all say yes the cards are dealt anew, and the
    /// player after the one who began the last round begins.
    pub fn replay(&mut self, replies: &Vec<String>, rng: &mut ThreadRng) -> (res: ReplayOutcome)
        requires
            old(self).wf(),
            (forall|i: int| 0 <= i < replies@.len() ==> says_yes((#[trigger] replies@[i])@))
                ==> can_deal(old(self).config),
        ensures
            final(self).wf(),
            final(self)@.config == old(self)@.config,
            final(self)@.player_names == old(self)@.player_names,
            !(forall|i: int| 0 <= i < replies@.len() ==> says_yes((#[trigger] replies@[i])@)) ==> {
                &&& final(self)@ == old(self)@
                &&& res matches ReplayOutcome::Closed(instructions)
                &&& instructions@ == Seq::new(
                    old(self).config.n_players as nat,
                    |i: int| Instruction::Close,
                )
            },
            (forall|i: int| 0 <= i < replies@.len() ==> says_yes((#[trigger] replies@[i])@)) ==> {
                &&& res is Redealt
                &&& final(self)@.starting_player == player_after(
                    old(self).starting_player as int,
                    old(self).config.n_players as int,
                )
                &&& final(self)@.player == final(self)@.starting_player
                &&& final(self)@.table == Seq::<Seq<Card>>::empty()
                &&& is_fresh_deal(final(self)@)
            },
    {
        if !all_agree(replies) {
            let mut instructions: Vec<Instruction> = Vec::new();
            let n: usize = self.config.n_players as usize;
            let mut i: usize = 0;
            while i < n
                invariant
                    i <= n,
                    instructions@ == Seq::new(i as nat, |k: int| Instruction::Close),
                decreases n - i,
            {
                instructions.push(Instruction::Close);
                assert(instructions@ =~= Seq::new((i + 1) as nat, |k: int| Instruction::Close));
                i += 1;
            }
            return ReplayOutcome::Closed(instructions);
        }
        let mut deck = Sequence::multi_deck(self.config.n_decks, self.config.n_jokers, rng);
        let ghost shuffled = deck@;
        match deal_hands(&mut deck, self.config.n_players, self.config.n_cards_to_start) {
            Some(hands) => {
                self.hands = hands;
                self.deck = deck;
                self.table = Table::new();
                self.starting_player = next_player(self.starting_player, self.config.n_players);
                self.player = self.starting_player;
                assert(is_deal_of(self@, shuffled));
            },
            None => {},
        }
        ReplayOutcome::Redealt
    }
}

/// The hand that a player is shown during a turn: the hand of the turn for
/// the player whose turn it is, and the player's own hand in the game for
/// every other player.
pub open spec fn hand_shown_to(g: GameView, t: TurnView, viewer: int) -> Seq<Card> {
    if viewer == g.player {
        t.hand
    } else {
        g.hands[viewer]
    }
}

/// Whether the hands and the deck of a game are what dealing from the given
/// deck leaves.
pub open spec fn is_deal_of(g: GameView, shuffled: Seq<Card>) -> bool {
    &&& shuffled.to_multiset() == fresh_deck(
        g.config.n_decks as nat,
        g.config.n_jokers as nat,
    ).to_multiset()
    &&& g.hands.len() == g.config.n_players
    &&& forall|i: int|
        0 <= i < g.config.n_players ==> #[trigger] g.hands[i] == dealt_hand(
            shuffled,
            i,
            g.config.n_cards_to_start as int,
        )
    &&& g.deck == shuffled.take(shuffled.len() - g.config.n_players * g.config.n_cards_to_start)
}

/// Whether the hands and the deck of a game were dealt from a full set of
/// cards in some order: every card of the configuration's decks, and every
/// Joker, is in one hand or in the deck.
pub open spec fn is_fresh_deal(g: GameView) -> bool {
    exists|shuffled: Seq<Card>| #[trigger] is_deal_of(g, shuffled)
}

/// What comes of a name that a client presents for a game that was loaded.
#[derive(Clone, Copy, PartialEq, Eq, Structural, Debug)]
pub enum NameClaim {
    /// The name is that of the player in this slot, and nobody has it yet.
    Accepted(usize),
    /// Another client has the name already.
    AlreadyTaken,
    /// No player of the game has the name.
    NotInTheList,
}

/// The first place at which a name stands in a list.
pub fn position_of(names: &Vec<String>, name: &String) -> (res: Option<usize>)
    ensures
        res matches Some(i) ==> i < names@.len() && names@[i as int]@ == name@ && forall|k: int|
            0 <= k < i ==> (#[trigger] names@[k])@ != name@,
        res is None ==> forall|k: int| 0 <= k < names@.len() ==> (#[trigger] names@[k])@ != name@,
{
    let n: usize = names.len();
    let mut i: usize = 0;
    while i < n
        invariant
            n == names@.len(),
            i <= n,
            forall|k: int| 0 <= k < i ==> (#[trigger] names@[k])@ != name@,
        decreases n - i,
    {
        if names[i] == *name {
            return Some(i);
        }
        i += 1;
    }
    None
}

/// Decides on a name that a client presents: it must be the name of a
/// player of the game, and no other client may have it.
pub fn claim_name(names: &Vec<String>, names_taken: &Vec<String>, name: &String) -> (res:
    NameClaim)
    ensures
        match res {
            NameClaim::Accepted(i) => {
                &&& i < names@.len()
                &&& names@[i as int]@ == name@
                &&& forall|k: int| 0 <= k < i ==> (#[trigger] names@[k])@ != name@
                &&& forall|k: int|
                    0 <= k < names_taken@.len() ==> (#[trigger] names_taken@[k])@ != name@
            },
            NameClaim::AlreadyTaken => {
                &&& exists|k: int| 0 <= k < names@.len() && (#[trigger] names@[k])@ == name@
                &&& exists|k: int|
                    0 <= k < names_taken@.len() && (#[trigger] names_taken@[k])@ == name@
            },
            NameClaim::NotInTheList => forall|k: int|
                0 <= k < names@.len() ==> (#[trigger] names@[k])@ != name@,
        },
{
    match position_of(names, name) {
        Some(i) => match position_of(names_taken, name) {
            Some(_) => NameClaim::AlreadyTaken,
            None => NameClaim::Accepted(i),
        },
        None => NameClaim::NotInTheList,
    }
}

/// The first player, in the order of the slots, whose name an earlier player
/// has too.
pub fn first_duplicate_name(names: &Vec<String>) -> (res: Option<usize>)
    ensures
        res matches Some(j) ==> j < names@.len() && (exists|i: int|
            0 <= i < j && (#[trigger] names@[i])@ == names@[j as int]@),
        res matches Some(j) ==> forall|a: int, b: int|
            0 <= a < b < j ==> (#[trigger] names@[a])@ != (#[trigger] names@[b])@,
        res is None ==> forall|a: int, b: int|
            0 <= a < b < names@.len() ==> (#[trigger] names@[a])@ != (#[trigger] names@[b])@,
{
    let n: usize = names.len();
    let mut j: usize = 0;
    while j < n
        invariant
            n == names@.len(),
            j <= n,
            forall|a: int, b: int|
                0 <= a < b < j ==> (#[trigger] names@[a])@ != (#[trigger] names@[b])@,
        decreases n - j,
    {
        let mut i: usize = 0;
        while i < j
            invariant
                n == names@.len(),
                i <= j < n,
                forall|a: int, b: int|
                    0 <= a < b < j ==> (#[trigger] names@[a])@ != (#[trigger] names@[b])@,
                forall|a: int| 0 <= a < i ==> (#[trigger] names@[a])@ != names@[j as int]@,
            decreases j - i,
        {
            if names[i] == names[j] {
                return Some(j);
            }
            i += 1;
        }
        j += 1;
    }
    None
}

} // verus!
