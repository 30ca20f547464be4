//! The game's configuration and the byte layout in which a game is saved.

use crate::errors::LoadingError;
use crate::sequence_cards::{all_wf, cards_to_codes, codes_to_cards, Card, Sequence};
use crate::table::{codes_to_table, table_to_codes, table_wf, Table};
use crate::text::{decimal_digits, number_text, string_from_utf8};
use vstd::prelude::*;
use vstd::slice::slice_subrange;
use vstd::string::{StringExecFns, StringSliceAdditionalSpecFns};
use vstd::utf8::{decode_utf8, encode_utf8, valid_utf8};

verus! {

/// The settings of a game.
#[derive(Clone, Copy, Debug, PartialEq, Eq, Structural)]
pub struct Config {
    /// The number of decks of 52 cards.
    pub n_decks: u8,
    /// The number of Jokers.
    pub n_jokers: u8,
    /// The number of cards that each player is dealt.
    pub n_cards_to_start: u16,
    /// Whether a player may not end a turn with a Joker in hand.
    pub custom_rule_jokers: bool,
    /// The number of players.
    pub n_players: u8,
}

/// The six bytes of a configuration: decks, Jokers, the starting hand size
/// in two bytes (high byte first), the Joker rule as 0 or 1, and players.
pub open spec fn config_to_codes(c: Config) -> Seq<u8> {
    seq![
        c.n_decks,
        c.n_jokers,
        (c.n_cards_to_start / 256) as u8,
        (c.n_cards_to_start % 256) as u8,
        if c.custom_rule_jokers {
            1u8
        } else {
            0u8
        },
        c.n_players,
    ]
}

/// The configuration that the first six bytes stand for. Any byte but 0
/// switches the Joker rule on.
pub open spec fn codes_to_config(bytes: Seq<u8>) -> Config {
    Config {
        n_decks: bytes[0],
        n_jokers: bytes[1],
        n_cards_to_start: (bytes[2] * 256 + bytes[3]) as u16,
        custom_rule_jokers: bytes[4] != 0,
        n_players: bytes[5],
    }
}

/// Decoding the bytes of a configuration gives the configuration back.
pub proof fn lemma_config_round_trip(c: Config)
    ensures
        config_to_codes(c).len() == 6,
        codes_to_config(config_to_codes(c)) == c,
{
}

impl Config {
    /// The six bytes of the configuration.
    pub fn to_bytes(&self) -> (res: Vec<u8>)
        ensures
            res@ == config_to_codes(*self),
    {
        let mut res: Vec<u8> = Vec::new();
        res.push(self.n_decks);
        res.push(self.n_jokers);
        res.push((self.n_cards_to_start / 256) as u8);
        res.push((self.n_cards_to_start % 256) as u8);
        res.push(
            if self.custom_rule_jokers {
                1
            } else {
                0
            },
        );
        res.push(self.n_players);
        assert(res@ =~= config_to_codes(*self));
        res
    }

    /// The configuration that the first six bytes stand for.
    pub fn from_bytes(bytes: &[u8]) -> (res: Config)
        requires
            bytes@.len() >= 6,
        ensures
            res == codes_to_config(bytes@),
    {
        Config {
            n_decks: bytes[0],
            n_jokers: bytes[1],
            n_cards_to_start: (bytes[2] as u16) * 256 + (bytes[3] as u16),
            custom_rule_jokers: bytes[4] != 0,
            n_players: bytes[5],
        }
    }
}

/// The two bytes in which a length is saved, high byte first. A length of
/// 65536 or more does not fit and is saved without its higher part.
pub open spec fn length_codes(n: nat) -> Seq<u8> {
    seq![((n / 256) % 256) as u8, (n % 256) as u8]
}

/// The length that two bytes stand for.
pub open spec fn read_length(bytes: Seq<u8>, at: int) -> int {
    bytes[at] * 256 + bytes[at + 1]
}

/// The bytes of the hands, one after the other: the length of the hand in
/// two bytes, then its card codes.
pub open spec fn hands_to_codes(hands: Seq<Seq<Card>>) -> Seq<u8>
    decreases hands.len(),
{
    if hands.len() == 0 {
        Seq::empty()
    } else {
        hands_to_codes(hands.drop_last()) + length_codes(hands.last().len()) + cards_to_codes(
            hands.last(),
        )
    }
}

/// The bytes of the names, one after the other: the length of the name in
/// one byte, then its bytes. A name of 256 bytes or more does not fit, and
/// its length is saved without its higher part.
pub open spec fn names_to_codes(names: Seq<Seq<u8>>) -> Seq<u8>
    decreases names.len(),
{
    if names.len() == 0 {
        Seq::empty()
    } else {
        names_to_codes(names.drop_last()) + seq![(names.last().len() % 256) as u8] + names.last()
    }
}

/// A game as plain values.
pub struct GameView {
    pub config: Config,
    pub starting_player: u8,
    pub player: u8,
    pub table: Seq<Seq<Card>>,
    pub hands: Seq<Seq<Card>>,
    pub deck: Seq<Card>,
    pub player_names: Seq<Seq<char>>,
}

/// The bytes of the names as they are saved: their UTF-8 encoding.
pub open spec fn names_as_bytes(names: Seq<Seq<char>>) -> Seq<Seq<u8>> {
    names.map_values(|name: Seq<char>| encode_utf8(name))
}

/// The bytes in which a game is saved: the configuration, the starting
/// player and the player whose turn it is, the hands of the players in the
/// order of their slots, their names, the deck with its length before it,
/// and the table.
pub open spec fn game_to_codes(g: GameView) -> Seq<u8> {
    let n = g.config.n_players as int;
    config_to_codes(g.config) + seq![g.starting_player, g.player] + hands_to_codes(
        g.hands.take(n),
    ) + names_to_codes(names_as_bytes(g.player_names.take(n))) + length_codes(g.deck.len())
        + cards_to_codes(g.deck) + table_to_codes(g.table)
}

/// Reads `count` hands that begin at `at`: the hands, and the place behind
/// them. There is no reading where the bytes end too early.
pub open spec fn read_hands(bytes: Seq<u8>, at: int, count: nat) -> Option<(Seq<Seq<Card>>, int)>
    decreases count,
{
    if count == 0 {
        Some((Seq::empty(), at))
    } else {
        match read_hands(bytes, at, (count - 1) as nat) {
            None => None,
            Some((hands, p)) => {
                if p + 2 <= bytes.len() && p + 2 + read_length(bytes, p) <= bytes.len() {
                    let end = p + 2 + read_length(bytes, p);
                    Some((hands.push(codes_to_cards(bytes.subrange(p + 2, end))), end))
                } else {
                    None
                }
            },
        }
    }
}

/// Reads `count` names that begin at `at`: the bytes of the names, and the
/// place behind them. There is no reading where the bytes end too early.
pub open spec fn read_names(bytes: Seq<u8>, at: int, count: nat) -> Option<(Seq<Seq<u8>>, int)>
    decreases count,
{
    if count == 0 {
        Some((Seq::empty(), at))
    } else {
        match read_names(bytes, at, (count - 1) as nat) {
            None => None,
            Some((names, p)) => {
                if p + 1 <= bytes.len() && p + 1 + bytes[p] <= bytes.len() {
                    let end = p + 1 + bytes[p];
                    Some((names.push(bytes.subrange(p + 1, end)), end))
                } else {
                    None
                }
            },
        }
    }
}

/// The name that saved bytes stand for: their text, or, where they are no
/// text, `Player` and the number of the slot, counted from 1.
pub open spec fn name_text(raw: Seq<u8>, slot: int) -> Seq<char> {
    if valid_utf8(raw) {
        decode_utf8(raw)
    } else {
        "Player "@ + decimal_digits((slot + 1) as nat)
    }
}

/// The game that saved bytes stand for, or `None` where the bytes end before
/// the table begins.
pub open spec fn decode_game(bytes: Seq<u8>) -> Option<GameView> {
    if bytes.len() < 8 {
        None
    } else {
        let config = codes_to_config(bytes);
        match read_hands(bytes, 8, config.n_players as nat) {
            None => None,
            Some((hands, after_hands)) => match read_names(bytes, after_hands, config.n_players as nat) {
                None => None,
                Some((names, after_names)) => {
                    if after_names + 2 <= bytes.len() && after_names + 2 + read_length(bytes, after_names) <= bytes.len() {
                        let end = after_names + 2 + read_length(bytes, after_names);
                        Some(
                            GameView {
                                config,
                                starting_player: bytes[6],
                                player: bytes[7],
                                table: codes_to_table(bytes.skip(end)),
                                hands,
                                deck: codes_to_cards(bytes.subrange(after_names + 2, end)),
                                player_names: Seq::new(
                                    names.len(),
                                    |i: int| name_text(names[i], i),
                                ),
                            },
                        )
                    } else {
                        None
                    }
                },
            },
        }
    }
}

/// Whether a game fits the byte layout: every player has a hand and a
/// name, no hand and no deck has more than 65535 cards, no name takes more
/// than 255 bytes, and every card is well formed.
pub open spec fn fits_the_layout(g: GameView) -> bool {
    &&& g.hands.len() == g.config.n_players
    &&& g.player_names.len() == g.config.n_players
    &&& table_wf(g.table)
    &&& all_wf(g.deck)
    &&& g.deck.len() <= 65535
    &&& forall|i: int|
        0 <= i < g.hands.len() ==> all_wf(#[trigger] g.hands[i]) && g.hands[i].len() <= 65535
    &&& forall|i: int|
        0 <= i < g.player_names.len() ==> encode_utf8(#[trigger] g.player_names[i]).len() <= 255
}

/// What is written for the first hands is the beginning of what is written
/// for all of them.
proof fn lemma_hands_codes_prefix(hands: Seq<Seq<Card>>, k: int)
    requires
        0 <= k <= hands.len(),
    ensures
        hands_to_codes(hands.take(k)).is_prefix_of(hands_to_codes(hands)),
    decreases hands.len() - k,
{
    if k == hands.len() {
        assert(hands.take(k) =~= hands);
    } else {
        lemma_hands_codes_prefix(hands, k + 1);
        assert(hands.take(k + 1).drop_last() =~= hands.take(k));
        let shorter = hands_to_codes(hands.take(k));
        let longer = hands_to_codes(hands.take(k + 1));
        assert(shorter =~= longer.subrange(0, shorter.len() as int));
        assert(shorter =~= hands_to_codes(hands).subrange(0, shorter.len() as int));
    }
}

/// What is written for the first names is the beginning of what is written
/// for all of them.
proof fn lemma_names_codes_prefix(names: Seq<Seq<u8>>, k: int)
    requires
        0 <= k <= names.len(),
    ensures
        names_to_codes(names.take(k)).is_prefix_of(names_to_codes(names)),
    decreases names.len() - k,
{
    if k == names.len() {
        assert(names.take(k) =~= names);
    } else {
        lemma_names_codes_prefix(names, k + 1);
        assert(names.take(k + 1).drop_last() =~= names.take(k));
        let shorter = names_to_codes(names.take(k));
        let longer = names_to_codes(names.take(k + 1));
        assert(shorter =~= longer.subrange(0, shorter.len() as int));
        assert(shorter =~= names_to_codes(names).subrange(0, shorter.len() as int));
    }
}

/// A length of at most 65535 is read back from its two bytes.
proof fn lemma_length_round_trip(n: nat)
    requires
        n <= 65535,
    ensures
        length_codes(n).len() == 2,
        read_length(length_codes(n), 0) == n,
{
}

/// Hands that were written at the place `at` are read back from there.
proof fn lemma_hands_read_back(bytes: Seq<u8>, at: int, hands: Seq<Seq<Card>>, k: int)
    requires
        0 <= at,
        0 <= k <= hands.len(),
        at + hands_to_codes(hands).len() <= bytes.len(),
        bytes.subrange(at, at + hands_to_codes(hands).len()) == hands_to_codes(hands),
        forall|i: int|
            0 <= i < hands.len() ==> all_wf(#[trigger] hands[i]) && hands[i].len() <= 65535,
    ensures
        hands_to_codes(hands.take(k)).len() <= hands_to_codes(hands).len(),
        read_hands(bytes, at, k as nat) == Some(
            (hands.take(k), at + hands_to_codes(hands.take(k)).len()),
        ),
    decreases k,
{
    let all = hands_to_codes(hands);
    lemma_hands_codes_prefix(hands, k);
    if k == 0 {
        assert(hands.take(0) =~= Seq::<Seq<Card>>::empty());
    } else {
        lemma_hands_read_back(bytes, at, hands, k - 1);
        lemma_hands_codes_prefix(hands, k - 1);
        assert(hands.take(k).drop_last() =~= hands.take(k - 1));
        assert(hands.take(k).last() == hands[k - 1]);
        let hand = hands[k - 1];
        let before = hands_to_codes(hands.take(k - 1));
        let now = hands_to_codes(hands.take(k));
        let lc = length_codes(hand.len());
        let cc = cards_to_codes(hand);
        assert(now == before + lc + cc);
        let b: int = before.len() as int;
        let p: int = at + b;
        lemma_length_round_trip(hand.len());
        assert(now =~= all.subrange(0, now.len() as int));
        assert(bytes[p] == lc[0]) by {
            assert(all[b] == now[b]);
            assert(bytes.subrange(at, at + all.len())[b] == bytes[p]);
        }
        assert(bytes[p + 1] == lc[1]) by {
            assert(all[b + 1] == now[b + 1]);
            assert(bytes.subrange(at, at + all.len())[b + 1] == bytes[p + 1]);
        }
        assert(read_length(bytes, p) == hand.len());
        assert(bytes.subrange(p + 2, p + 2 + hand.len()) =~= cc) by {
            assert forall|j: int| 0 <= j < cc.len() implies bytes[p + 2 + j] == cc[j] by {
                assert(all[b + 2 + j] == now[b + 2 + j]);
                assert(bytes.subrange(at, at + all.len())[b + 2 + j] == bytes[p + 2 + j]);
            }
        }
        crate::sequence_cards::lemma_codes_round_trip(hand);
        assert(hands.take(k - 1).push(hand) =~= hands.take(k));
    }
}

/// Names that were written at the place `at` are read back from there.
proof fn lemma_names_read_back(bytes: Seq<u8>, at: int, names: Seq<Seq<u8>>, k: int)
    requires
        0 <= at,
        0 <= k <= names.len(),
        at + names_to_codes(names).len() <= bytes.len(),
        bytes.subrange(at, at + names_to_codes(names).len()) == names_to_codes(names),
        forall|i: int| 0 <= i < names.len() ==> (#[trigger] names[i]).len() <= 255,
    ensures
        names_to_codes(names.take(k)).len() <= names_to_codes(names).len(),
        read_names(bytes, at, k as nat) == Some(
            (names.take(k), at + names_to_codes(names.take(k)).len()),
        ),
    decreases k,
{
    let all = names_to_codes(names);
    lemma_names_codes_prefix(names, k);
    if k == 0 {
        assert(names.take(0) =~= Seq::<Seq<u8>>::empty());
    } else {
        lemma_names_read_back(bytes, at, names, k - 1);
        lemma_names_codes_prefix(names, k - 1);
        assert(names.take(k).drop_last() =~= names.take(k - 1));
        assert(names.take(k).last() == names[k - 1]);
        let name = names[k - 1];
        let before = names_to_codes(names.take(k - 1));
        let now = names_to_codes(names.take(k));
        assert(now == before + seq![(name.len() % 256) as u8] + name);
        let b: int = before.len() as int;
        let p: int = at + b;
        assert(now =~= all.subrange(0, now.len() as int));
        assert(bytes[p] == name.len()) by {
            assert(all[b] == now[b]);
            assert(bytes.subrange(at, at + all.len())[b] == bytes[p]);
        }
        assert(bytes.subrange(p + 1, p + 1 + name.len()) =~= name) by {
            assert forall|j: int| 0 <= j < name.len() implies bytes[p + 1 + j] == name[j] by {
                assert(all[b + 1 + j] == now[b + 1 + j]);
                assert(bytes.subrange(at, at + all.len())[b + 1 + j] == bytes[p + 1 + j]);
            }
        }
        assert(names.take(k - 1).push(name) =~= names.take(k));
    }
}

/// A game that fits the byte layout is read back from its bytes as it was
/// saved.
pub proof fn lemma_game_round_trip(g: GameView)
    requires
        fits_the_layout(g),
    ensures
        decode_game(game_to_codes(g)) == Some(g),
{
    let n = g.config.n_players as int;
    let bytes = game_to_codes(g);
    let head = config_to_codes(g.config) + seq![g.starting_player, g.player];
    let raw_names = names_as_bytes(g.player_names);
    let hc = hands_to_codes(g.hands);
    let nc = names_to_codes(raw_names);
    let lc = length_codes(g.deck.len());
    let dc = cards_to_codes(g.deck);
    let tc = table_to_codes(g.table);
    assert(g.hands.take(n) =~= g.hands);
    assert(g.player_names.take(n) =~= g.player_names);
    assert(bytes =~= head + hc + nc + lc + dc + tc);
    assert(head.len() == 8);
    lemma_config_round_trip(g.config);
    assert(codes_to_config(bytes) == g.config);
    assert(bytes[6] == g.starting_player && bytes[7] == g.player);

    assert(bytes.subrange(8, 8 + hc.len() as int) =~= hc);
    lemma_hands_read_back(bytes, 8, g.hands, n);
    let after_hands: int = 8 + hc.len() as int;

    assert(bytes.subrange(after_hands, after_hands + nc.len()) =~= nc);
    assert(raw_names.len() == n);
    lemma_names_read_back(bytes, after_hands, raw_names, n);
    assert(raw_names.take(n) =~= raw_names);
    let after_names: int = after_hands + nc.len();

    lemma_length_round_trip(g.deck.len());
    assert(bytes[after_names] == lc[0] && bytes[after_names + 1] == lc[1]);
    assert(read_length(bytes, after_names) == g.deck.len());
    let end: int = after_names + 2 + g.deck.len();
    assert(bytes.subrange(after_names + 2, end) =~= dc);
    crate::sequence_cards::lemma_codes_round_trip(g.deck);
    assert(bytes.skip(end) =~= tc);
    crate::table::lemma_table_round_trip(g.table);

    let names_back = Seq::new(raw_names.len(), |i: int| name_text(raw_names[i], i));
    assert(names_back =~= g.player_names) by {
        assert forall|i: int| 0 <= i < n implies names_back[i] == g.player_names[i] by {
            vstd::utf8::encode_utf8_valid_utf8(g.player_names[i]);
            vstd::utf8::encode_utf8_decode_utf8(g.player_names[i]);
        }
    }
}

/// The views of hands.
pub open spec fn hands_view(hands: Seq<Sequence>) -> Seq<Seq<Card>> {
    hands.map_values(|h: Sequence| h@)
}

/// The views of names.
pub open spec fn names_view(names: Seq<String>) -> Seq<Seq<char>> {
    names.map_values(|s: String| s@)
}

/// Puts the two bytes of a length at the end.
fn push_length(bytes: &mut Vec<u8>, n: usize)
    ensures
        final(bytes)@ == old(bytes)@ + length_codes(n as nat),
{
    bytes.push(((n / 256) % 256) as u8);
    bytes.push((n % 256) as u8);
    assert(bytes@ =~= old(bytes)@ + length_codes(n as nat));
}

/// The bytes in which a game is saved. The hands and the names of the first
/// `config.n_players` slots are saved.
pub fn game_to_bytes(
    starting_player: u8,
    player: u8,
    table: &Table,
    hands: &[Sequence],
    deck: &Sequence,
    config: &Config,
    player_names: &[String],
) -> (res: Vec<u8>)
    requires
        hands@.len() >= config.n_players,
        player_names@.len() >= config.n_players,
        table.wf(),
        deck.wf(),
        forall|i: int| 0 <= i < hands@.len() ==> (#[trigger] hands@[i]).wf(),
    ensures
        res@ == game_to_codes(
            GameView {
                config: *config,
                starting_player,
                player,
                table: table@,
                hands: hands_view(hands@),
                deck: deck@,
                player_names: names_view(player_names@),
            },
        ),
{
    let mut bytes: Vec<u8> = config.to_bytes();
    bytes.push(starting_player);
    bytes.push(player);
    let n: usize = config.n_players as usize;
    let ghost head = bytes@;
    let ghost all_hands = hands_view(hands@).take(n as int);
    let mut i: usize = 0;
    assert(all_hands.take(0) =~= Seq::<Seq<Card>>::empty());
    assert(bytes@ =~= head + hands_to_codes(all_hands.take(0)));
    while i < n
        invariant
            n == config.n_players,
            i <= n,
            hands@.len() >= n,
            all_hands == hands_view(hands@).take(n as int),
            forall|k: int| 0 <= k < hands@.len() ==> (#[trigger] hands@[k]).wf(),
            bytes@ == head + hands_to_codes(all_hands.take(i as int)),
        decreases n - i,
    {
        let hand = &hands[i];
        assert(hand.wf());
        proof {
            assert(all_hands.take(i + 1).drop_last() =~= all_hands.take(i as int));
            assert(all_hands.take(i + 1).last() == hand@);
        }
        push_length(&mut bytes, hand.number_cards());
        let mut codes = hand.to_bytes();
        bytes.append(&mut codes);
        assert(bytes@ =~= head + hands_to_codes(all_hands.take(i + 1)));
        i += 1;
    }
    assert(all_hands.take(n as int) =~= all_hands);
    let ghost head2 = bytes@;
    let ghost all_names = names_as_bytes(names_view(player_names@).take(n as int));
    let mut j: usize = 0;
    assert(all_names.take(0) =~= Seq::<Seq<u8>>::empty());
    assert(bytes@ =~= head2 + names_to_codes(all_names.take(0)));
    while j < n
        invariant
            n == config.n_players,
            j <= n,
            player_names@.len() >= n,
            all_names == names_as_bytes(names_view(player_names@).take(n as int)),
            bytes@ == head2 + names_to_codes(all_names.take(j as int)),
        decreases n - j,
    {
        let name_b = player_names[j].as_str().as_bytes();
        proof {
            assert(all_names.take(j + 1).drop_last() =~= all_names.take(j as int));
            assert(all_names.take(j + 1).last() == name_b@);
        }
        bytes.push((name_b.len() % 256) as u8);
        let mut name_v = vstd::slice::slice_to_vec(name_b);
        bytes.append(&mut name_v);
        assert(bytes@ =~= head2 + names_to_codes(all_names.take(j + 1)));
        j += 1;
    }
    assert(all_names.take(n as int) =~= all_names);
    push_length(&mut bytes, deck.number_cards());
    let mut deck_codes = deck.to_bytes();
    bytes.append(&mut deck_codes);
    let mut table_codes = table.to_bytes();
    bytes.append(&mut table_codes);
    bytes
}

/// The name of a player whose saved name cannot be read.
fn default_player_name(slot: usize) -> (res: String)
    requires
        slot < 255,
    ensures
        res@ == "Player "@ + decimal_digits((slot + 1) as nat),
{
    let number = number_text(slot + 1);
    String::from_str("Player ").concat(number.as_str())
}

/// Reads a saved game. Fails where the bytes end before the table begins.
pub fn load_game(bytes: &[u8]) -> (res: Result<
    (Config, u8, u8, Table, Vec<Sequence>, Sequence, Vec<String>),
    LoadingError,
>)
    ensures
        res is Ok <==> decode_game(bytes@) is Some,
        res matches Ok(g) ==> decode_game(bytes@) == Some(
            GameView {
                config: g.0,
                starting_player: g.1,
                player: g.2,
                table: g.3@,
                hands: hands_view(g.4@),
                deck: g.5@,
                player_names: names_view(g.6@),
            },
        ),
        res matches Ok(g) ==> g.3.wf() && g.5.wf() && forall|i: int|
            0 <= i < g.4@.len() ==> (#[trigger] g.4@[i]).wf(),
{
    let len: usize = bytes.len();
    if len < 8 {
        return Err(LoadingError {  });
    }
    let config = Config::from_bytes(bytes);
    let starting_player: u8 = bytes[6];
    let player: u8 = bytes[7];
    let n: usize = config.n_players as usize;
    let mut i_byte: usize = 8;
    let mut hands: Vec<Sequence> = Vec::new();
    let mut i: usize = 0;
    assert(hands_view(hands@) =~= Seq::<Seq<Card>>::empty());
    while i < n
        invariant
            len == bytes@.len(),
            n == config.n_players,
            i <= n,
            i_byte <= len,
            len >= 8,
            config == codes_to_config(bytes@),
            read_hands(bytes@, 8, i as nat) == Some((hands_view(hands@), i_byte as int)),
            forall|k: int| 0 <= k < hands@.len() ==> (#[trigger] hands@[k]).wf(),
        decreases n - i,
    {
        if len - i_byte < 2 {
            assert(read_hands(bytes@, 8, (i + 1) as nat) is None);
            proof {
                lemma_read_hands_fails_on(bytes@, 8, (i + 1) as nat, n as nat);
            }
            return Err(LoadingError {  });
        }
        let n_cards: usize = (bytes[i_byte] as usize) * 256 + (bytes[i_byte + 1] as usize);
        if len - i_byte - 2 < n_cards {
            assert(read_hands(bytes@, 8, (i + 1) as nat) is None);
            proof {
                lemma_read_hands_fails_on(bytes@, 8, (i + 1) as nat, n as nat);
            }
            return Err(LoadingError {  });
        }
        let ghost before = hands_view(hands@);
        let hand = Sequence::from_bytes(slice_subrange(bytes, i_byte + 2, i_byte + 2 + n_cards));
        hands.push(hand);
        assert(hands_view(hands@) =~= before.push(hand@));
        i_byte = i_byte + 2 + n_cards;
        i += 1;
    }
    let ghost after_hands = i_byte as int;
    let ghost hands_done = hands_view(hands@);
    let mut player_names: Vec<String> = Vec::new();
    let ghost mut raw_names: Seq<Seq<u8>> = Seq::empty();
    let mut j: usize = 0;
    while j < n
        invariant
            len == bytes@.len(),
            n == config.n_players,
            j <= n,
            i_byte <= len,
            len >= 8,
            config == codes_to_config(bytes@),
            read_hands(bytes@, 8, n as nat) == Some((hands_done, after_hands)),
            read_names(bytes@, after_hands, j as nat) == Some((raw_names, i_byte as int)),
            raw_names.len() == j,
            player_names@.len() == j,
            forall|k: int|
                0 <= k < j ==> (#[trigger] player_names@[k])@ == name_text(raw_names[k], k),
        decreases n - j,
    {
        if len - i_byte < 1 {
            assert(read_names(bytes@, after_hands, (j + 1) as nat) is None);
            proof {
                lemma_read_names_fails_on(bytes@, after_hands, (j + 1) as nat, n as nat);
            }
            return Err(LoadingError {  });
        }
        let n_chars: usize = bytes[i_byte] as usize;
        if len - i_byte - 1 < n_chars {
            assert(read_names(bytes@, after_hands, (j + 1) as nat) is None);
            proof {
                lemma_read_names_fails_on(bytes@, after_hands, (j + 1) as nat, n as nat);
            }
            return Err(LoadingError {  });
        }
        let raw = slice_subrange(bytes, i_byte + 1, i_byte + 1 + n_chars);
        let name = match string_from_utf8(vstd::slice::slice_to_vec(raw)) {
            Ok(name) => name,
            Err(_) => default_player_name(j),
        };
        player_names.push(name);
        proof {
            raw_names = raw_names.push(raw@);
        }
        i_byte = i_byte + 1 + n_chars;
        j += 1;
    }
    if len - i_byte < 2 {
        return Err(LoadingError {  });
    }
    let n_deck: usize = (bytes[i_byte] as usize) * 256 + (bytes[i_byte + 1] as usize);
    if len - i_byte - 2 < n_deck {
        return Err(LoadingError {  });
    }
    let deck = Sequence::from_bytes(slice_subrange(bytes, i_byte + 2, i_byte + 2 + n_deck));
    i_byte = i_byte + 2 + n_deck;
    let table = Table::from_bytes(slice_subrange(bytes, i_byte, len));
    proof {
        assert(bytes@.skip(i_byte as int) =~= bytes@.subrange(i_byte as int, len as int));
        assert(names_view(player_names@) =~= Seq::new(
            raw_names.len(),
            |k: int| name_text(raw_names[k], k),
        ));
    }
    Ok((config, starting_player, player, table, hands, deck, player_names))
}

/// Where the reading of some hands fails, the reading of more hands fails.
proof fn lemma_read_hands_fails_on(bytes: Seq<u8>, at: int, count: nat, more: nat)
    requires
        read_hands(bytes, at, count) is None,
        count <= more,
    ensures
        read_hands(bytes, at, more) is None,
    decreases more - count,
{
    if count < more {
        lemma_read_hands_fails_on(bytes, at, count, (more - 1) as nat);
    }
}

/// Where the reading of some names fails, the reading of more names fails.
proof fn lemma_read_names_fails_on(bytes: Seq<u8>, at: int, count: nat, more: nat)
    requires
        read_names(bytes, at, count) is None,
        count <= more,
    ensures
        read_names(bytes, at, more) is None,
    decreases more - count,
{
    if count < more {
        lemma_read_names_fails_on(bytes, at, count, (more - 1) as nat);
    }
}

} // verus!
