use machiavelli::save::{game_to_bytes, load_game, Config};
use machiavelli::sequence_cards::Card::{Joker, RegularCard};
use machiavelli::sequence_cards::Sequence;
use machiavelli::sequence_cards::Suit::{Club, Diamond, Heart, Spade};
use machiavelli::table::Table;

fn config_of_two() -> Config {
    Config {
        n_decks: 2,
        n_jokers: 4,
        n_cards_to_start: 13,
        custom_rule_jokers: false,
        n_players: 2,
    }
}

fn saved_game() -> (Table, Vec<Sequence>, Sequence, Vec<String>) {
    let mut table = Table::new();
    table.add(Sequence::from_cards(&[
        RegularCard(Club, 4),
        RegularCard(Club, 5),
        RegularCard(Club, 6),
    ]));
    let hands = vec![
        Sequence::from_cards(&[Joker, RegularCard(Heart, 1)]),
        Sequence::from_cards(&[RegularCard(Spade, 13)]),
    ];
    let deck = Sequence::from_cards(&[RegularCard(Diamond, 7), RegularCard(Club, 9)]);
    let names = vec!["Ann".to_string(), "Bö".to_string()];
    (table, hands, deck, names)
}

#[test]
fn config_to_bytes() {
    assert_eq!(vec![2, 4, 0, 13, 0, 2], config_of_two().to_bytes());
    let config = Config {
        n_decks: 1,
        n_jokers: 0,
        n_cards_to_start: 0x1234,
        custom_rule_jokers: true,
        n_players: 255,
    };
    assert_eq!(vec![1, 0, 0x12, 0x34, 1, 255], config.to_bytes());
}

#[test]
fn config_from_bytes() {
    let bytes: Vec<u8> = vec![2, 4, 0, 13, 0, 2];
    assert_eq!(config_of_two(), Config::from_bytes(&bytes));
    let config = Config::from_bytes(&[1, 0, 0xff, 0xff, 7, 3, 99]);
    assert_eq!(
        config,
        Config {
            n_decks: 1,
            n_jokers: 0,
            n_cards_to_start: 65535,
            custom_rule_jokers: true,
            n_players: 3,
        }
    );
}

#[test]
fn game_bytes_layout() {
    let (table, hands, deck, names) = saved_game();
    let bytes = game_to_bytes(1, 0, &table, &hands, &deck, &config_of_two(), &names);
    let expected: Vec<u8> = vec![
        2, 4, 0, 13, 0, 2, // configuration
        1, 0, // starting player, player
        0, 2, 0, 1, // first hand
        0, 1, 52, // second hand
        3, b'A', b'n', b'n', // first name
        3, b'B', 0xc3, 0xb6, // second name
        0, 2, 33, 22, // deck
        17, 18, 19, 255, // table
    ];
    assert_eq!(bytes, expected);
}

#[test]
fn game_bytes_round_trip() {
    let (table, hands, deck, names) = saved_game();
    let config = config_of_two();
    let bytes = game_to_bytes(1, 0, &table, &hands, &deck, &config, &names);
    let loaded = load_game(&bytes).ok().unwrap();
    assert_eq!(loaded.0, config);
    assert_eq!(loaded.1, 1);
    assert_eq!(loaded.2, 0);
    assert_eq!(loaded.3, table);
    assert_eq!(loaded.4, hands);
    assert_eq!(loaded.5, deck);
    assert_eq!(loaded.6, names);
}

#[test]
fn long_hand_takes_two_length_bytes() {
    let mut hand = Sequence::new();
    for _ in 0..300 {
        hand.add_card(Joker);
    }
    let config = Config {
        n_decks: 1,
        n_jokers: 0,
        n_cards_to_start: 1,
        custom_rule_jokers: false,
        n_players: 1,
    };
    let names = vec!["A".to_string()];
    let bytes = game_to_bytes(0, 0, &Table::new(), &[hand.clone()], &Sequence::new(), &config, &names);
    assert_eq!(&bytes[8..10], &[1, 44]);
    let loaded = load_game(&bytes).ok().unwrap();
    assert_eq!(loaded.4, vec![hand]);
}

#[test]
fn load_game_that_ends_too_early() {
    let (table, hands, deck, names) = saved_game();
    let bytes = game_to_bytes(1, 0, &table, &hands, &deck, &config_of_two(), &names);
    for len in 0..27 {
        assert!(load_game(&bytes[..len]).is_err(), "{}", len);
    }
    let loaded = load_game(&bytes[..27]).ok().unwrap();
    assert_eq!(loaded.5, deck);
    assert_eq!(loaded.3, Table::new());
}

#[test]
fn load_game_names_a_player_whose_name_is_no_text() {
    let bytes: Vec<u8> = vec![
        1, 0, 0, 1, 0, 2, // configuration
        0, 1, // starting player, player
        0, 0, // first hand
        0, 0, // second hand
        1, b'A', // first name
        2, 0xff, 0xfe, // second name
        0, 0, // deck
    ];
    let loaded = load_game(&bytes).ok().unwrap();
    assert_eq!(loaded.6, vec!["A".to_string(), "Player 2".to_string()]);
    assert_eq!(loaded.2, 1);
}
