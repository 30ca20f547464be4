use machiavelli::render::{instructions_no_save, reset_style_string, situation_to_string};
use machiavelli::sequence_cards::Card::{Joker, RegularCard};
use machiavelli::sequence_cards::Sequence;
use machiavelli::sequence_cards::Suit::{Club, Diamond, Heart, Spade};
use machiavelli::table::Table;

#[test]
fn reset_style() {
    assert_eq!(reset_style_string(), "\x1b[0m\x1b[30;47m\x1b[?25l\x1b[K");
}

#[test]
fn cards_as_text() {
    assert_eq!(Joker.to_string(), "\x1b[1;34m#");
    assert_eq!(RegularCard(Heart, 1).to_string(), "\x1b[1;31mA♥");
    assert_eq!(RegularCard(Diamond, 10).to_string(), "\x1b[1;31m10♦");
    assert_eq!(RegularCard(Club, 11).to_string(), "\x1b[1;30mJ♣");
    assert_eq!(RegularCard(Spade, 12).to_string(), "\x1b[1;30mQ♠");
    assert_eq!(RegularCard(Spade, 13).to_string(), "\x1b[1;30mK♠");
    assert_eq!(RegularCard(Club, 7).to_string(), "\x1b[1;30m7♣");
}

#[test]
fn indices_under_the_cards() {
    let sequence = Sequence::from_cards(&[
        Joker,
        RegularCard(Heart, 1),
        RegularCard(Heart, 3),
        RegularCard(Club, 10),
        Joker,
        RegularCard(Club, 1),
        RegularCard(Heart, 2),
        RegularCard(Club, 3),
        RegularCard(Club, 4),
        RegularCard(Club, 10),
        RegularCard(Club, 6),
        RegularCard(Club, 10),
    ]);
    assert_eq!(
        sequence.show_indices(),
        (
            "\u{1b}[1;34m# \u{1b}[1;31mA♥ \u{1b}[1;31m3♥ \u{1b}[1;30m10♣ \u{1b}[1;34m# \u{1b}[1;30mA♣ \u{1b}[1;31m2♥ \u{1b}[1;30m3♣ \u{1b}[1;30m4♣ \u{1b}[1;30m10♣ \u{1b}[1;30m6♣ \u{1b}[1;30m10♣".to_string(),
            "1 2  3  4   5 6  7  8  9  10  11 12".to_string()
        )
    );
}

#[test]
fn indices_of_no_cards() {
    assert_eq!(Sequence::new().show_indices(), ("".to_string(), "".to_string()));
    assert_eq!(Sequence::new().show_indices_shifted(99), ("".to_string(), "".to_string()));
}

#[test]
fn indices_with_three_digits() {
    let sequence = Sequence::from_cards(&[Joker, RegularCard(Club, 10), Joker]);
    assert_eq!(
        sequence.show_indices_shifted(98),
        (
            "\u{1b}[1;34m#  \u{1b}[1;30m10♣ \u{1b}[1;34m#".to_string(),
            "99 100 101".to_string()
        )
    );
}

#[test]
fn instructions_with_and_without_options() {
    assert_eq!(
        instructions_no_save(true, false),
        "e: End your turn (and pick a card)\np x y ...: Play the sequence x y ...\nt x y ...: Take the sequences x, y, ... from the table\na x y z ...: Add the sequence y z ... to sequence x on the table\nr, s: Sort cards by rank or suit\n\n"
    );
    assert_eq!(
        instructions_no_save(false, true),
        "e: End your turn\np x y ...: Play the sequence x y ...\nt x y ...: Take the sequences x, y, ... from the table\na x y z ...: Add the sequence y z ... to sequence x on the table\nr, s: Sort cards by rank or suit\ng: Give up and reset\n\n"
    );
}

#[test]
fn situation_without_borrowed_cards() {
    let mut table = Table::new();
    table.add(Sequence::from_cards(&[Joker, Joker]));
    let hand = Sequence::from_cards(&[RegularCard(Heart, 2), RegularCard(Spade, 10)]);
    assert_eq!(
        situation_to_string(&table, &hand, &Sequence::new(), " (sorted)"),
        "\nTable:\n1: \x1b[38;2;0;0;255m★ \x1b[38;2;0;0;255m★ \x1b[38;2;0;0;0m\n\nYour hand (sorted):\n\x1b[1;31m2♥ \x1b[1;30m10♠\n\x1b[0m\x1b[30;47m\x1b[?25l\x1b[K1  2\n"
    );
}

#[test]
fn situation_with_borrowed_cards() {
    let hand = Sequence::from_cards(&[RegularCard(Heart, 2)]);
    let borrowed = Sequence::from_cards(&[Joker, RegularCard(Club, 3)]);
    assert_eq!(
        situation_to_string(&Table::new(), &hand, &borrowed, ""),
        "\nTable:\n\nYour hand:\n\x1b[1;31m2♥\x1b[0m\x1b[30;47m\x1b[?25l\x1b[K\n1\n\nCards from the table:\n\x1b[1;34m# \x1b[1;30m3♣\n\x1b[0m\x1b[30;47m\x1b[?25l\x1b[K2 3\n"
    );
}
