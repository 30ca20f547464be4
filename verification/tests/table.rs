use machiavelli::sequence_cards::Card::{Joker, RegularCard};
use machiavelli::sequence_cards::Sequence;
use machiavelli::sequence_cards::Suit::{Club, Diamond, Heart, Spade};
use machiavelli::table::Table;
use std::collections::HashMap;

fn clubs_456() -> Sequence {
    Sequence::from_cards(&[RegularCard(Club, 4), RegularCard(Club, 5), RegularCard(Club, 6)])
}

fn hearts_jqk() -> Sequence {
    Sequence::from_cards(&[RegularCard(Heart, 11), RegularCard(Heart, 12), RegularCard(Heart, 13)])
}

fn sevens() -> Sequence {
    Sequence::from_cards(&[RegularCard(Spade, 7), RegularCard(Heart, 7), RegularCard(Diamond, 7)])
}

#[test]
fn table_to_bytes_puts_the_front_meld_last() {
    let mut table = Table::new();
    table.add(clubs_456());
    table.add(hearts_jqk());
    assert_eq!(vec![17, 18, 19, 255, 11, 12, 13, 255], table.to_bytes());
}

#[test]
fn table_from_bytes_puts_the_last_meld_in_front() {
    let mut expected = Table::new();
    expected.add(clubs_456());
    expected.add(hearts_jqk());
    let table = Table::from_bytes(&[17, 18, 19, 255, 11, 12, 13, 255]);
    assert_eq!(expected, table);
}

#[test]
fn table_from_bytes_drops_an_open_meld() {
    let mut expected = Table::new();
    expected.add(clubs_456());
    let table = Table::from_bytes(&[17, 18, 19, 255, 11, 12]);
    assert_eq!(expected, table);
}

#[test]
fn table_from_bytes_passes_over_foreign_bytes() {
    let mut expected = Table::new();
    expected.add(clubs_456());
    expected.add(Sequence::new());
    let table = Table::from_bytes(&[17, 200, 18, 19, 255, 255]);
    assert_eq!(expected, table);
}

#[test]
fn table_bytes_round_trip() {
    let mut table = Table::new();
    table.add(sevens());
    table.add(Sequence::from_cards(&[Joker, Joker]));
    table.add(clubs_456());
    let bytes = table.to_bytes();
    assert_eq!(table, Table::from_bytes(&bytes));
    assert_eq!(Table::new(), Table::from_bytes(&Table::new().to_bytes()));
}

#[test]
fn table_take_by_position() {
    let mut table = Table::new();
    table.add(sevens());
    table.add(clubs_456());
    table.add(hearts_jqk());
    assert_eq!(table.number_sequences(), 3);

    let seq = table.take(2).unwrap();
    assert_eq!(seq, clubs_456());
    assert_eq!(table.to_vec(), vec![hearts_jqk(), sevens()]);

    let seq = table.take(1).unwrap();
    assert_eq!(seq, hearts_jqk());
    assert_eq!(table.to_vec(), vec![sevens()]);

    let seq = table.take(1).unwrap();
    assert_eq!(seq, sevens());
    assert_eq!(table, Table::new());
}

#[test]
fn table_take_unknown_position() {
    let mut table = Table::new();
    table.add(sevens());
    assert!(table.take(0).is_none());
    assert!(table.take(2).is_none());
    assert_eq!(table.to_vec(), vec![sevens()]);
}

#[test]
fn table_clone_is_equal() {
    let mut table = Table::new();
    table.add(sevens());
    table.add(clubs_456());
    assert_eq!(table.clone(), table);
}

#[test]
fn table_count_cards_by_code() {
    let mut table = Table::new();
    table.add(clubs_456());
    table.add(Sequence::from_cards(&[
        RegularCard(Club, 2),
        RegularCard(Club, 3),
        RegularCard(Club, 4),
    ]));
    let counts = table.count_cards();
    assert_eq!(1, counts[&RegularCard(Club, 5).to_byte()]);
    assert_eq!(2, counts[&RegularCard(Club, 4).to_byte()]);
    assert_eq!(false, counts.contains_key(&RegularCard(Club, 7).to_byte()));
    assert_eq!(5, counts.len());
    assert_eq!(2, table.count_code_on_table(17));
    assert_eq!(0, table.count_code_on_table(0));
}

#[test]
fn table_contains_counted_cards() {
    let mut table_1 = Table::new();
    table_1.add(clubs_456());
    table_1.add(Sequence::from_cards(&[
        RegularCard(Club, 2),
        RegularCard(Club, 3),
        RegularCard(Club, 4),
    ]));
    let mut table_2 = Table::new();
    table_2.add(clubs_456());
    table_2.add(Sequence::from_cards(&[
        RegularCard(Club, 2),
        RegularCard(Club, 3),
        RegularCard(Club, 4),
        RegularCard(Club, 5),
    ]));
    let counts_1 = table_1.count_cards();
    let counts_2 = table_2.count_cards();
    assert_eq!(true, table_2.contains_hm(&counts_1));
    assert_eq!(false, table_1.contains_hm(&counts_2));
    let mut absent: HashMap<u8, u16> = HashMap::new();
    absent.insert(1, 0);
    assert_eq!(false, table_1.contains_hm(&absent));
    assert_eq!(true, table_1.contains_hm(&HashMap::new()));
}

#[test]
fn display_table_1() {
    let seq_1 = Sequence::from_cards(&[
        RegularCard(Club, 2),
        Joker,
        RegularCard(Diamond, 3),
        RegularCard(Heart, 2),
    ]);
    let seq_2 = Sequence::from_cards(&[
        RegularCard(Club, 4),
        RegularCard(Diamond, 5),
        RegularCard(Heart, 6),
    ]);

    let mut table = Table::new();
    table.add(seq_2);
    table.add(seq_1);

    assert_eq!("1: \u{1b}[38;2;0;0;0m2♣ \u{1b}[38;2;0;0;255m★ \u{1b}[38;2;255;0;0m3♦ \u{1b}[38;2;255;0;0m2♥ \u{1b}[38;2;0;0;0m\n2: \u{1b}[38;2;0;0;0m4♣ \u{1b}[38;2;255;0;0m5♦ \u{1b}[38;2;255;0;0m6♥ \u{1b}[38;2;0;0;0m\n".to_string(), table.to_string());
}

#[test]
fn table_to_string_after_taking() {
    let mut table = Table::new();
    table.add(sevens());
    table.add(clubs_456());
    table.add(hearts_jqk());
    table.take(2);
    assert_eq!(
        "1: \u{1b}[38;2;255;0;0mJ♥ \u{1b}[38;2;255;0;0mQ♥ \u{1b}[38;2;255;0;0mK♥ \u{1b}[38;2;0;0;0m\n2: \u{1b}[38;2;0;0;0m7♠ \u{1b}[38;2;255;0;0m7♥ \u{1b}[38;2;255;0;0m7♦ \u{1b}[38;2;0;0;0m\n".to_string(),
        table.to_string()
    );
    assert_eq!("".to_string(), Table::new().to_string());
}
