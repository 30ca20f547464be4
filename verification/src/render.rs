//! How cards, hands and the table are written out for a terminal.

use crate::sequence_cards::{Card, Sequence, Suit};
use crate::table::Table;
use crate::text::{decimal_digits, number_text};
use vstd::prelude::*;
use vstd::string::StringExecFns;

verus! {

/// The text that puts the terminal back into the game's style.
pub open spec fn reset_style_text() -> Seq<char> {
    "\x1b[0m"@ + "\x1b[30;47m"@ + "\x1b[?25l"@ + "\x1b[K"@
}

/// The text that puts the terminal back into the game's style: it resets
/// the attributes, sets the colours, hides the cursor and redraws the line.
pub fn reset_style_string() -> (res: String)
    ensures
        res@ == reset_style_text(),
{
    String::from_str("\x1b[0m").concat("\x1b[30;47m").concat("\x1b[?25l").concat("\x1b[K")
}

/// How a rank is written: `A`, `J`, `Q` and `K` for the Ace and the court
/// cards, and the number for the others.
pub open spec fn rank_text(rank: u8) -> Seq<char> {
    if rank == 1 {
        "A"@
    } else if rank == 11 {
        "J"@
    } else if rank == 12 {
        "Q"@
    } else if rank == 13 {
        "K"@
    } else {
        decimal_digits(rank as nat)
    }
}

/// The symbol of a suit.
pub open spec fn suit_text(suit: Suit) -> Seq<char> {
    match suit {
        Suit::Heart => "♥"@,
        Suit::Diamond => "♦"@,
        Suit::Club => "♣"@,
        Suit::Spade => "♠"@,
    }
}

/// The colour code of a suit: red for hearts and diamonds, black for clubs
/// and spades.
pub open spec fn suit_colour(suit: Suit) -> Seq<char> {
    match suit {
        Suit::Heart => "31"@,
        Suit::Diamond => "31"@,
        Suit::Club => "30"@,
        Suit::Spade => "30"@,
    }
}

/// How a card is written: in bold and in the colour of its suit, the rank
/// and the suit's symbol; a Joker as a blue `#`.
pub open spec fn card_text(card: Card) -> Seq<char> {
    match card {
        Card::Joker => "\x1b[1;34m#"@,
        Card::RegularCard(suit, rank) => "\x1b[1;"@ + suit_colour(suit) + "m"@ + rank_text(rank)
            + suit_text(suit),
    }
}

/// How cards are written in a row: each card with a space behind it.
pub open spec fn cards_text(cards: Seq<Card>) -> Seq<char>
    decreases cards.len(),
{
    if cards.len() == 0 {
        Seq::empty()
    } else {
        cards_text(cards.drop_last()) + card_text(cards.last()) + " "@
    }
}

/// `n` spaces.
pub open spec fn spaces(n: int) -> Seq<char> {
    Seq::new(
        if n >= 0 {
            n as nat
        } else {
            0
        },
        |i: int| ' ',
    )
}

/// The columns that a card takes on the screen, with the space behind it.
pub open spec fn card_width(card: Card) -> int {
    match card {
        Card::Joker => 2,
        Card::RegularCard(_, rank) => if rank == 10 {
            4
        } else {
            3
        },
    }
}

/// The columns that an index takes on the screen, with the space behind it.
pub open spec fn index_width(index: nat) -> int {
    decimal_digits(index).len() as int + 1
}

/// The two lines that show the first `k` cards over their indices, each
/// card and its index filled up with spaces to the same width. The first
/// card has the index `shift + 1`.
pub open spec fn columns_text(cards: Seq<Card>, shift: nat, k: int) -> (Seq<char>, Seq<char>)
    decreases k,
{
    if k <= 0 {
        (Seq::empty(), Seq::empty())
    } else {
        let before = columns_text(cards, shift, k - 1);
        let card = cards[k - 1];
        let index = (shift + k) as nat;
        (
            before.0 + card_text(card) + " "@ + spaces(index_width(index) - card_width(card)),
            before.1 + decimal_digits(index) + " "@ + spaces(
                card_width(card) - index_width(index),
            ),
        )
    }
}

/// The two lines that show cards over their indices. The columns are those
/// of `columns_text`, but nothing stands behind the last card and behind
/// the last index.
pub open spec fn index_lines(cards: Seq<Card>, shift: nat) -> (Seq<char>, Seq<char>) {
    if cards.len() == 0 {
        (Seq::empty(), Seq::empty())
    } else {
        let before = columns_text(cards, shift, cards.len() - 1);
        (
            before.0 + card_text(cards.last()),
            before.1 + decimal_digits((shift + cards.len()) as nat),
        )
    }
}

/// The colour of a suit on the table, in 24 bits: red for hearts and
/// diamonds, black for clubs and spades.
pub open spec fn table_colour(suit: Suit) -> Seq<char> {
    match suit {
        Suit::Heart => "\x1b[38;2;255;0;0m"@,
        Suit::Diamond => "\x1b[38;2;255;0;0m"@,
        Suit::Club => "\x1b[38;2;0;0;0m"@,
        Suit::Spade => "\x1b[38;2;0;0;0m"@,
    }
}

/// How a card on the table is written: in the colour of its suit, the rank
/// and the suit's symbol; a Joker as a blue star.
pub open spec fn table_card_text(card: Card) -> Seq<char> {
    match card {
        Card::Joker => "\x1b[38;2;0;0;255m★"@,
        Card::RegularCard(suit, rank) => table_colour(suit) + rank_text(rank) + suit_text(suit),
    }
}

/// How the cards of a meld on the table are written: each card with a space
/// behind it.
pub open spec fn meld_text(cards: Seq<Card>) -> Seq<char>
    decreases cards.len(),
{
    if cards.len() == 0 {
        Seq::empty()
    } else {
        meld_text(cards.drop_last()) + table_card_text(cards.last()) + " "@
    }
}

/// How the first `k` melds of a table are written: each on a line of its
/// own, its position before it, and the colour set to black at its end.
pub open spec fn melds_text(melds: Seq<Seq<Card>>, k: int) -> Seq<char>
    decreases k,
{
    if k <= 0 {
        Seq::empty()
    } else {
        melds_text(melds, k - 1) + decimal_digits(k as nat) + ": "@ + meld_text(melds[k - 1])
            + "\x1b[38;2;0;0;0m\n"@
    }
}

/// How a table is written.
pub open spec fn table_text(melds: Seq<Seq<Card>>) -> Seq<char> {
    melds_text(melds, melds.len() as int)
}

/// How a rank is written.
fn rank_string(rank: u8) -> (res: String)
    ensures
        res@ == rank_text(rank),
{
    if rank == 1 {
        String::from_str("A")
    } else if rank == 11 {
        String::from_str("J")
    } else if rank == 12 {
        String::from_str("Q")
    } else if rank == 13 {
        String::from_str("K")
    } else {
        number_text(rank as usize)
    }
}

/// The symbol of a suit.
fn suit_str(suit: Suit) -> (res: &'static str)
    ensures
        res@ == suit_text(suit),
{
    match suit {
        Suit::Heart => "♥",
        Suit::Diamond => "♦",
        Suit::Club => "♣",
        Suit::Spade => "♠",
    }
}

/// The colour code of a suit.
fn colour_str(suit: Suit) -> (res: &'static str)
    ensures
        res@ == suit_colour(suit),
{
    match suit {
        Suit::Heart => "31",
        Suit::Diamond => "31",
        Suit::Club => "30",
        Suit::Spade => "30",
    }
}

/// The colour of a suit on the table.
fn table_colour_str(suit: Suit) -> (res: &'static str)
    ensures
        res@ == table_colour(suit),
{
    match suit {
        Suit::Heart => "\x1b[38;2;255;0;0m",
        Suit::Diamond => "\x1b[38;2;255;0;0m",
        Suit::Club => "\x1b[38;2;0;0;0m",
        Suit::Spade => "\x1b[38;2;0;0;0m",
    }
}

/// A card as it is shown on the table.
fn table_card_string(card: Card) -> (res: String)
    ensures
        res@ == table_card_text(card),
{
    match card {
        Card::Joker => String::from_str("\x1b[38;2;0;0;255m★"),
        Card::RegularCard(suit, rank) => {
            let rank_s = rank_string(rank);
            let res = String::from_str(table_colour_str(suit)).concat(rank_s.as_str()).concat(
                suit_str(suit),
            );
            assert(res@ =~= table_card_text(card));
            res
        },
    }
}

/// The cards of a meld as they are shown on the table.
fn meld_string(meld: &Sequence) -> (res: String)
    ensures
        res@ == meld_text(meld@),
{
    let cards = meld.to_vec();
    let mut res = String::new();
    let n: usize = cards.len();
    let mut i: usize = 0;
    assert(cards@.take(0) =~= Seq::<Card>::empty());
    while i < n
        invariant
            n == cards@.len(),
            i <= n,
            res@ == meld_text(cards@.take(i as int)),
        decreases n - i,
    {
        proof {
            assert(cards@.take(i + 1).drop_last() =~= cards@.take(i as int));
            assert(cards@.take(i + 1).last() == cards@[i as int]);
        }
        let card_s = table_card_string(cards[i]);
        res.append(card_s.as_str());
        res.append(" ");
        assert(res@ =~= meld_text(cards@.take(i + 1)));
        i += 1;
    }
    assert(cards@.take(n as int) =~= cards@);
    res
}

/// Puts `n` spaces at the end of a line.
fn push_spaces(line: &mut String, n: usize)
    ensures
        final(line)@ == old(line)@ + spaces(n as int),
{
    proof {
        reveal_strlit(" ");
    }
    let mut k: usize = 0;
    assert(line@ =~= old(line)@ + spaces(0));
    while k < n
        invariant
            k <= n,
            " "@ == seq![' '],
            line@ == old(line)@ + spaces(k as int),
        decreases n - k,
    {
        line.append(" ");
        assert(line@ =~= old(line)@ + spaces(k + 1));
        k += 1;
    }
}

/// The columns that a card takes, with the space behind it.
fn width_of_card(card: Card) -> (res: usize)
    ensures
        res == card_width(card),
{
    match card {
        Card::Joker => 2,
        Card::RegularCard(_, rank) => if rank == 10 {
            4
        } else {
            3
        },
    }
}

/// The columns that an index takes, with the space behind it.
fn width_of_index(index: usize) -> (res: usize)
    ensures
        res == index_width(index as nat),
    decreases index,
{
    if index < 10 {
        2
    } else {
        let rest = width_of_index(index / 10);
        assert(decimal_digits(index as nat).len() == decimal_digits((index / 10) as nat).len()
            + 1);
        assert(rest < index) by {
            lemma_digits_are_few(index / 10);
        }
        rest + 1
    }
}

/// A number has no more digits than one more than its value.
proof fn lemma_digits_are_few(n: usize)
    ensures
        decimal_digits(n as nat).len() <= n + 1,
    decreases n,
{
    if n >= 10 {
        lemma_digits_are_few(n / 10);
    }
}

impl Card {
    /// The card as it is shown.
    pub fn to_string(&self) -> (res: String)
        ensures
            res@ == card_text(*self),
    {
        match *self {
            Card::Joker => String::from_str("\x1b[1;34m#"),
            Card::RegularCard(suit, rank) => {
                let rank_s = rank_string(rank);
                let res = String::from_str("\x1b[1;").concat(colour_str(suit)).concat("m").concat(
                    rank_s.as_str(),
                ).concat(suit_str(suit));
                assert(res@ =~= card_text(*self));
                res
            },
        }
    }
}

impl Sequence {
    /// The cards as they are shown in a row, each with a space behind it.
    pub fn to_string(&self) -> (res: String)
        ensures
            res@ == cards_text(self@),
    {
        let cards = self.to_vec();
        let mut res = String::new();
        let n: usize = cards.len();
        let mut i: usize = 0;
        assert(cards@.take(0) =~= Seq::<Card>::empty());
        while i < n
            invariant
                n == cards@.len(),
                i <= n,
                res@ == cards_text(cards@.take(i as int)),
            decreases n - i,
        {
            proof {
                assert(cards@.take(i + 1).drop_last() =~= cards@.take(i as int));
                assert(cards@.take(i + 1).last() == cards@[i as int]);
            }
            let card_s = cards[i].to_string();
            res.append(card_s.as_str());
            res.append(" ");
            assert(res@ =~= cards_text(cards@.take(i + 1)));
            i += 1;
        }
        assert(cards@.take(n as int) =~= cards@);
        res
    }

    /// Two lines that show the cards over their indices, which count from 1.
    pub fn show_indices(&self) -> (res: (String, String))
        ensures
            (res.0@, res.1@) == index_lines(self@, 0),
    {
        let n_cards = self.number_cards();
        assert(n_cards == self@.len());
        self.show_indices_shifted(0)
    }

    /// Two lines that show the cards over their indices, which count from
    /// `n + 1`.
    pub fn show_indices_shifted(&self, n: usize) -> (res: (String, String))
        requires
            n + self@.len() <= usize::MAX,
        ensures
            (res.0@, res.1@) == index_lines(self@, n as nat),
    {
        let cards = self.to_vec();
        let mut first_line = String::new();
        let mut second_line = String::new();
        let len: usize = cards.len();
        if len == 0 {
            assert(first_line@ =~= index_lines(self@, n as nat).0);
            assert(second_line@ =~= index_lines(self@, n as nat).1);
            return (first_line, second_line);
        }
        let mut k: usize = 0;
        while k < len - 1
            invariant
                len == cards@.len(),
                len > 0,
                k <= len - 1,
                n + len <= usize::MAX,
                (first_line@, second_line@) == columns_text(cards@, n as nat, k as int),
            decreases len - 1 - k,
        {
            let card = cards[k];
            let index: usize = n + k + 1;
            let n_chars_1 = width_of_card(card);
            let n_chars_2 = width_of_index(index);
            let card_s = card.to_string();
            first_line.append(card_s.as_str());
            first_line.append(" ");
            let index_s = number_text(index);
            second_line.append(index_s.as_str());
            second_line.append(" ");
            if n_chars_2 > n_chars_1 {
                push_spaces(&mut first_line, n_chars_2 - n_chars_1);
                assert(spaces(n_chars_1 - n_chars_2) =~= Seq::<char>::empty());
            } else {
                push_spaces(&mut second_line, n_chars_1 - n_chars_2);
                assert(spaces(n_chars_2 - n_chars_1) =~= Seq::<char>::empty());
            }
            assert(first_line@ =~= columns_text(cards@, n as nat, k + 1).0);
            assert(second_line@ =~= columns_text(cards@, n as nat, k + 1).1);
            k += 1;
        }
        let last_s = cards[len - 1].to_string();
        first_line.append(last_s.as_str());
        let index_s = number_text(n + len);
        second_line.append(index_s.as_str());
        assert(first_line@ =~= index_lines(self@, n as nat).0);
        assert(second_line@ =~= index_lines(self@, n as nat).1);
        (first_line, second_line)
    }
}

impl Table {
    /// The table as it is shown: each meld on a line of its own, its
    /// position before it.
    pub fn to_string(&self) -> (res: String)
        ensures
            res@ == table_text(self@),
    {
        let melds = self.to_vec();
        let mut res = String::new();
        let n: usize = melds.len();
        let mut i: usize = 0;
        while i < n
            invariant
                n == melds@.len(),
                n == self@.len(),
                forall|k: int| 0 <= k < n ==> (#[trigger] melds@[k])@ == self@[k],
                i <= n,
                res@ == melds_text(self@, i as int),
            decreases n - i,
        {
            let position = number_text(i + 1);
            let meld_s = meld_string(&melds[i]);
            res.append(position.as_str());
            res.append(": ");
            res.append(meld_s.as_str());
            res.append("\x1b[38;2;0;0;0m\n");
            assert(res@ =~= melds_text(self@, i + 1));
            i += 1;
        }
        res
    }
}

/// What the list of actions says, with or without the reminder that ending
/// the turn draws a card, and with or without the line on giving up.
pub open spec fn instructions_text(must_pick_a_card: bool, print_reset_option: bool) -> Seq<char> {
    "e: End your turn"@ + (if must_pick_a_card {
        " (and pick a card)"@
    } else {
        ""@
    }) + "\n"@ + "p x y ...: Play the sequence x y ...\n"@
        + "t x y ...: Take the sequences x, y, ... from the table\n"@
        + "a x y z ...: Add the sequence y z ... to sequence x on the table\n"@
        + "r, s: Sort cards by rank or suit\n"@ + (if print_reset_option {
        "g: Give up and reset\n"@
    } else {
        ""@
    }) + "\n"@
}

/// The list of the actions that a player can ask for.
pub fn instructions_no_save(must_pick_a_card: bool, print_reset_option: bool) -> (res: String)
    ensures
        res@ == instructions_text(must_pick_a_card, print_reset_option),
{
    let will_pick_a_card = if must_pick_a_card {
        " (and pick a card)"
    } else {
        ""
    };
    let reset_option = if print_reset_option {
        "g: Give up and reset\n"
    } else {
        ""
    };
    let res = String::from_str("e: End your turn").concat(will_pick_a_card).concat("\n").concat(
        "p x y ...: Play the sequence x y ...\n",
    ).concat("t x y ...: Take the sequences x, y, ... from the table\n").concat(
        "a x y z ...: Add the sequence y z ... to sequence x on the table\n",
    ).concat("r, s: Sort cards by rank or suit\n").concat(reset_option).concat("\n");
    assert(res@ =~= instructions_text(must_pick_a_card, print_reset_option));
    res
}

/// What a player is shown of the game: the table, the player's hand over
/// its indices, and, where there are any, the cards borrowed from the table
/// over theirs, which go on from those of the hand.
pub open spec fn situation_text(
    table: Seq<Seq<Card>>,
    hand: Seq<Card>,
    borrowed: Seq<Card>,
    message: Seq<char>,
) -> Seq<char> {
    let hi = index_lines(hand, 0);
    let ht = index_lines(borrowed, hand.len());
    let head = "\nTable:\n"@ + table_text(table) + "\nYour hand"@ + message + ":\n"@ + hi.0;
    if borrowed.len() == 0 {
        head + "\n"@ + reset_style_text() + hi.1 + "\n"@
    } else {
        head + reset_style_text() + "\n"@ + hi.1 + "\n\nCards from the table:\n"@ + ht.0 + "\n"@
            + reset_style_text() + ht.1 + "\n"@
    }
}

/// What a player is shown of the game.
pub fn situation_to_string(
    table: &Table,
    hand: &Sequence,
    cards_from_table: &Sequence,
    message: &str,
) -> (res: String)
    requires
        hand@.len() + cards_from_table@.len() <= usize::MAX,
    ensures
        res@ == situation_text(table@, hand@, cards_from_table@, message@),
{
    let hi = hand.show_indices();
    let ht = cards_from_table.show_indices_shifted(hand.number_cards());
    let table_s = table.to_string();
    let reset = reset_style_string();
    let head = String::from_str("\nTable:\n").concat(table_s.as_str()).concat(
        "\nYour hand",
    ).concat(message).concat(":\n").concat(hi.0.as_str());
    if cards_from_table.number_cards() == 0 {
        let res = head.concat("\n").concat(reset.as_str()).concat(hi.1.as_str()).concat("\n");
        assert(res@ =~= situation_text(table@, hand@, cards_from_table@, message@));
        res
    } else {
        let res = head.concat(reset.as_str()).concat("\n").concat(hi.1.as_str()).concat(
            "\n\nCards from the table:\n",
        ).concat(ht.0.as_str()).concat("\n").concat(reset.as_str()).concat(ht.1.as_str()).concat(
            "\n",
        );
        assert(res@ =~= situation_text(table@, hand@, cards_from_table@, message@));
        res
    }
}

} // verus!
