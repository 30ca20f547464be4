use machiavelli::sequence_cards::Card::{Joker, RegularCard};
use machiavelli::sequence_cards::Suit::{Club, Diamond, Heart, Spade};
use machiavelli::sequence_cards::{Card, Sequence};
use rand::thread_rng;

#[test]
fn take_jokers_1() {
    let mut seq = Sequence::from_cards(&[
        Joker,
        Joker
    ]);
    assert_eq!(seq.take_jokers(),
               Sequence::from_cards(&[
                   Joker,
                   Joker
               ]));
}

#[test]
fn take_jokers_2() {
    let mut seq = Sequence::from_cards(&[
        RegularCard(Heart, 4),
        RegularCard(Heart, 5),
    ]);
    assert_eq!(seq.take_jokers(),
               Sequence::new());
}

#[test]
fn take_jokers_3() {
    let mut seq = Sequence::from_cards(&[
        RegularCard(Heart, 4),
        Joker,
        RegularCard(Heart, 5),
    ]);
    assert_eq!(seq.take_jokers(),
               Sequence::from_cards(&[
                   Joker
               ]));
}

#[test]
fn sequence_two_jokers() {
    let mut seq = Sequence::from_cards(&[
        Joker,
        Joker
    ]);
    assert_eq!(seq.is_valid(), true);
}

#[test]
fn sequence_three_jokers() {
    let mut seq = Sequence::from_cards(&[
        Joker,
        Joker,
        Joker
    ]);
    assert_eq!(seq.is_valid(), true);
}

#[test]
fn sequence_only_jokers_1() {
    let mut seq = Sequence::from_cards(&[
        Joker,
        Joker,
    ]);
    assert_eq!(seq.is_valid(), true);
}

#[test]
fn sequence_only_jokers_2() {
    let mut seq = Sequence::from_cards(&[
        Joker,
        Joker,
        Joker,
        Joker,
    ]);
    assert_eq!(seq.is_valid(), true);
}

#[test]
fn sequence_same_suit_1() {
    let mut seq = Sequence::from_cards(&[
        RegularCard(Heart, 1),
        RegularCard(Heart, 2),
    ]);
    assert_eq!(seq.is_valid(), false);
}

#[test]
fn sequence_same_suit_2() {
    let mut seq = Sequence::from_cards(&[
        RegularCard(Club, 1),
        RegularCard(Club, 2),
        RegularCard(Club, 3),
    ]);
    assert_eq!(seq.is_valid(), true);
}

#[test]
fn sequence_same_suit_3() {
    let mut seq = Sequence::from_cards(&[
        RegularCard(Club, 2),
        RegularCard(Club, 3),
        RegularCard(Club, 4),
        RegularCard(Club, 5),
    ]);
    assert_eq!(seq.is_valid(), true);
}

#[test]
fn sequence_same_suit_4() {
    let mut seq = Sequence::from_cards(&[
        RegularCard(Club, 2),
        RegularCard(Club, 3),
        RegularCard(Club, 5),
        RegularCard(Club, 6),
    ]);
    assert_eq!(seq.is_valid(), false);
}

#[test]
fn sequence_same_suit_5() {
    let mut seq = Sequence::from_cards(&[
        RegularCard(Club, 2),
        RegularCard(Club, 3),
        RegularCard(Club, 3),
        RegularCard(Club, 4),
    ]);
    assert_eq!(seq.is_valid(), false);
}

#[test]
fn sequence_same_suit_6() {
    let mut seq = Sequence::from_cards(&[
        RegularCard(Club, 12),
        RegularCard(Club, 13),
        RegularCard(Club, 1),
    ]);
    assert_eq!(seq.is_valid(), true);
}

#[test]
fn sequence_same_suit_7() {
    let mut seq = Sequence::from_cards(&[
        RegularCard(Club, 13),
        RegularCard(Club, 1),
        RegularCard(Club, 2),
    ]);
    assert_eq!(seq.is_valid(), false);
}

#[test]
fn sequence_same_suit_8() {
    let mut seq = Sequence::from_cards(&[
        RegularCard(Heart, 1),
        RegularCard(Heart, 2),
        RegularCard(Heart, 3),
    ]);
    assert_eq!(seq.is_valid(), true);
}

#[test]
fn sequence_same_suit_9() {
    let mut seq = Sequence::from_cards(&[
        RegularCard(Heart, 2),
        RegularCard(Heart, 3),
        RegularCard(Heart, 4),
        RegularCard(Heart, 5),
    ]);
    assert_eq!(seq.is_valid(), true);
}

#[test]
fn sequence_same_suit_10() {
    let mut seq = Sequence::from_cards(&[
        RegularCard(Heart, 2),
        RegularCard(Heart, 3),
        RegularCard(Heart, 5),
        RegularCard(Heart, 6),
    ]);
    assert_eq!(seq.is_valid(), false);
}

#[test]
fn sequence_same_suit_11() {
    let mut seq = Sequence::from_cards(&[
        RegularCard(Heart, 2),
        RegularCard(Heart, 3),
        RegularCard(Heart, 3),
        RegularCard(Heart, 4),
    ]);
    assert_eq!(seq.is_valid(), false);
}

#[test]
fn sequence_same_suit_12() {
    let mut seq = Sequence::from_cards(&[
        RegularCard(Heart, 12),
        RegularCard(Heart, 13),
        RegularCard(Heart, 1),
    ]);
    assert_eq!(seq.is_valid(), true);
}

#[test]
fn sequence_same_suit_13() {
    let mut seq = Sequence::from_cards(&[
        RegularCard(Heart, 13),
        RegularCard(Heart, 1),
        RegularCard(Heart, 2),
    ]);
    assert_eq!(seq.is_valid(), false);
}

#[test]
fn sequence_same_suit_14() {
    let mut seq = Sequence::from_cards(&[
        Joker,
        RegularCard(Club, 9),
        RegularCard(Club, 10),
        RegularCard(Club, 12),
        RegularCard(Club, 13),
    ]);
    assert_eq!(seq.is_valid(), true);
}

#[test]
fn sequence_same_suit_15() {
    let mut seq = Sequence::from_cards(&[
        Joker,
        RegularCard(Club, 8),
        RegularCard(Club, 9),
        RegularCard(Club, 12),
        Joker,
        RegularCard(Club, 13),
    ]);
    assert_eq!(seq.is_valid(), true);
}

#[test]
fn sequence_same_suit_16() {
    let mut seq = Sequence::from_cards(&[
        RegularCard(Club, 8),
        RegularCard(Club, 9),
        RegularCard(Club, 12),
        Joker,
        RegularCard(Club, 13),
    ]);
    assert_eq!(seq.is_valid(), false);
}

#[test]
fn sequence_same_suit_one_j_1() {
    let mut seq = Sequence::from_cards(&[
        RegularCard(Diamond, 2),
        RegularCard(Diamond, 3),
        Joker,
        RegularCard(Diamond, 5),
    ]);
    assert_eq!(seq.is_valid(), true);
}

#[test]
fn sequence_same_suit_one_j_2() {
    let mut seq = Sequence::from_cards(&[
        RegularCard(Diamond, 2),
        RegularCard(Diamond, 3),
        Joker,
        RegularCard(Diamond, 6),
    ]);
    assert_eq!(seq.is_valid(), false);
}

#[test]
fn sequence_same_suit_two_j_1() {
    let mut seq = Sequence::from_cards(&[
        Joker,
        RegularCard(Diamond, 3),
        Joker,
        RegularCard(Diamond, 5),
    ]);
    assert_eq!(seq.is_valid(), true);
}

#[test]
fn sequence_same_val_1() {
    let mut seq = Sequence::from_cards(&[
        RegularCard(Heart, 2),
        RegularCard(Diamond, 2),
        RegularCard(Spade, 2),
    ]);
    assert_eq!(seq.is_valid(), true);
}

#[test]
fn sequence_same_val_2() {
    let mut seq = Sequence::from_cards(&[
        RegularCard(Heart, 2),
        RegularCard(Diamond, 2),
        RegularCard(Spade, 2),
        RegularCard(Club, 2),
    ]);
    assert_eq!(seq.is_valid(), true);
}

#[test]
fn sequence_same_val_3() {
    let mut seq = Sequence::from_cards(&[
        RegularCard(Heart, 2),
        RegularCard(Spade, 2),
        RegularCard(Spade, 2),
    ]);
    assert_eq!(seq.is_valid(), false);
}

#[test]
fn sequence_same_val_one_j_1() {
    let mut seq = Sequence::from_cards(&[
        RegularCard(Heart, 2),
        Joker,
        RegularCard(Spade, 2),
    ]);
    assert_eq!(seq.is_valid(), true);
}

#[test]
fn sequence_same_val_one_j_2() {
    let mut seq = Sequence::from_cards(&[
        RegularCard(Heart, 2),
        Joker,
        RegularCard(Heart, 2),
    ]);
    assert_eq!(seq.is_valid(), false);
}

#[test]
fn sequence_same_val_two_j_1() {
    let mut seq = Sequence::from_cards(&[
        Joker,
        Joker,
        RegularCard(Spade, 2),
    ]);
    assert_eq!(seq.is_valid(), true);
}

#[test]
fn sequence_same_val_two_j_2() {
    let mut seq = Sequence::from_cards(&[
        Joker,
        RegularCard(Club, 2),
        Joker,
        RegularCard(Spade, 2),
    ]);
    assert_eq!(seq.is_valid(), true);
}

#[test]
fn invalid_sequence_1() {
    let mut seq = Sequence::from_cards(&[
        RegularCard(Club, 2),
        RegularCard(Spade, 2),
    ]);
    assert_eq!(seq.is_valid(), false);
}

#[test]
fn invalid_sequence_2() {
    let mut seq = Sequence::from_cards(&[
        RegularCard(Club, 2),
        RegularCard(Diamond, 3),
        RegularCard(Heart, 2),
    ]);
    assert_eq!(seq.is_valid(), false);
}

#[test]
fn seq_with_joker_1() {
    let mut cards = Sequence::from_cards(&[
        RegularCard(Heart, 1),
        RegularCard(Heart, 3),
        Joker,
    ]);

    assert_eq!(true, cards.is_valid());
}

#[test]
fn seq_with_joker_2() {
    let mut cards = Sequence::from_cards(&[
        RegularCard(Heart, 1),
        RegularCard(Spade, 3),
        Joker,
    ]);

    assert_eq!(false, cards.is_valid());
}

#[test]
fn seq_with_joker_3() {
    let mut cards = Sequence::from_cards(&[
        Joker,
        RegularCard(Heart, 1),
        RegularCard(Heart, 11),
    ]);

    assert_eq!(false, cards.is_valid());
}

#[test]
fn seq_with_joker_4() {
    let mut cards = Sequence::from_cards(&[
        Joker,
        RegularCard(Heart, 1),
        RegularCard(Heart, 12),
    ]);

    assert_eq!(true, cards.is_valid());
}

#[test]
fn seq_with_joker_5() {
    let mut cards = Sequence::from_cards(&[
        Joker,
        RegularCard(Heart, 4),
        RegularCard(Heart, 7),
    ]);

    assert_eq!(false, cards.is_valid());
}

#[test]
fn number_cards_1() {
    let seq = Sequence::new();
    assert_eq!(0, seq.number_cards());
}

#[test]
fn number_cards_2() {
    let seq = Sequence::from_cards(&[
        Joker,
        RegularCard(Heart, 2)
    ]);
    assert_eq!(2, seq.number_cards());
}

#[test]
fn number_cards_3() {
    let seq = Sequence::from_cards(&[
        Joker,
        Joker,
        RegularCard(Heart, 2),
        RegularCard(Heart, 2)
    ]);
    assert_eq!(4, seq.number_cards());
}

#[test]
fn contains_joker_1() {
    let cards = Sequence::from_cards(&[
        Joker,
        RegularCard(Heart, 1),
        RegularCard(Heart, 2),
        RegularCard(Heart, 3),
        RegularCard(Club, 11)
    ]);

    assert_eq!(true, cards.contains_joker());
}

#[test]
fn contains_joker_2() {
    let cards = Sequence::from_cards(&[
        RegularCard(Heart, 1),
        RegularCard(Heart, 2),
        RegularCard(Heart, 3),
        RegularCard(Club, 11)
    ]);

    assert_eq!(false, cards.contains_joker());
}

#[test]
fn contains_joker_3() {
    let cards = Sequence::from_cards(&[
        RegularCard(Heart, 1),
        Joker,
        RegularCard(Heart, 3),
    ]);

    assert_eq!(true, cards.contains_joker());
}

#[test]
fn card_to_byte_1() {
    let card = Joker;
    let card_byte = card.to_byte();
    assert_eq!(0, card_byte);
}

#[test]
fn card_to_byte_2() {
    let card = RegularCard(Heart, 1);
    let card_byte = card.to_byte();
    assert_eq!(1, card_byte);
}

#[test]
fn card_to_byte_3() {
    let card = RegularCard(Diamond, 7);
    let card_byte = card.to_byte();
    assert_eq!(33, card_byte);
}

#[test]
fn card_to_byte_4() {
    let card = RegularCard(Club, 9);
    let card_byte = card.to_byte();
    assert_eq!(22, card_byte);
}

#[test]
fn card_to_byte_5() {
    let card = RegularCard(Spade, 12);
    let card_byte = card.to_byte();
    assert_eq!(51, card_byte);
}

#[test]
fn card_to_byte_6() {
    let card = RegularCard(Spade, 13);
    let card_byte = card.to_byte();
    assert_eq!(52, card_byte);
}

#[test]
fn card_to_byte_7() {
    let card = RegularCard(Spade, 1);
    let card_byte = card.to_byte();
    assert_eq!(40, card_byte);
}

#[test]
fn byte_to_card_1() {
    let byte = 0;
    let card = Card::from_byte(byte).unwrap();
    assert_eq!(Joker, card);
}

#[test]
fn byte_to_card_2() {
    let byte = 1;
    let card = Card::from_byte(byte).unwrap();
    assert_eq!(RegularCard(Heart, 1), card);
}

#[test]
fn byte_to_card_3() {
    let byte = 20;
    let card = Card::from_byte(byte).unwrap();
    assert_eq!(RegularCard(Club, 7), card);
}

#[test]
fn byte_to_card_4() {
    let byte = 35;
    let card = Card::from_byte(byte).unwrap();
    assert_eq!(RegularCard(Diamond, 9), card);
}

#[test]
fn byte_to_card_5() {
    let byte = 51;
    let card = Card::from_byte(byte).unwrap();
    assert_eq!(RegularCard(Spade, 12), card);
}

#[test]
fn byte_to_card_6() {
    let byte = 52;
    let card = Card::from_byte(byte).unwrap();
    assert_eq!(RegularCard(Spade, 13), card);
}

#[test]
fn byte_to_card_7() {
    let byte = 40;
    let card = Card::from_byte(byte).unwrap();
    assert_eq!(RegularCard(Spade, 1), card);
}

#[test]
fn merge_1() {
    let mut seq1 = Sequence::new();
    let seq2 = Sequence::new();
    seq1.merge(seq2);
    assert_eq!(Sequence::new(), seq1);
}

#[test]
fn merge_2() {
    let mut seq1 = Sequence::from_cards(&[
        RegularCard(Club, 1),
        RegularCard(Spade, 2),
    ]);
    let seq2 = Sequence::new();
    seq1.merge(seq2);
    assert_eq!(
        Sequence::from_cards(&[
            RegularCard(Club, 1),
            RegularCard(Spade, 2),
        ]),
        seq1);
}

#[test]
fn merge_3() {
    let mut seq1 = Sequence::new();
    let seq2 = Sequence::from_cards(&[
        RegularCard(Club, 1),
        RegularCard(Spade, 2),
    ]);
    seq1.merge(seq2);
    assert_eq!(
        Sequence::from_cards(&[
            RegularCard(Spade, 2),
            RegularCard(Club, 1),
        ]),
        seq1);
}

#[test]
fn merge_4() {
    let mut seq1 = Sequence::from_cards(&[
        RegularCard(Club,1),
        Joker,
    ]);
    let seq2 = Sequence::from_cards(&[
        RegularCard(Club, 1),
        RegularCard(Spade, 2),
    ]);
    seq1.merge(seq2);
    assert_eq!(
        Sequence::from_cards(&[
            RegularCard(Club, 1),
            Joker,
            RegularCard(Spade, 2),
            RegularCard(Club, 1),
        ]),
        seq1);
}

#[test]
fn build_deck_1() {
    let mut rng = thread_rng();
    let deck = Sequence::multi_deck(1, 0, &mut rng);
    assert_eq!(52, deck.number_cards());
}

#[test]
fn build_deck_2() {
    let mut rng = thread_rng();
    let deck = Sequence::multi_deck(2, 4, &mut rng);
    assert_eq!(108, deck.number_cards());
}

#[test]
fn build_deck_3() {
    let mut rng = thread_rng();
    let deck = Sequence::multi_deck(3, 1, &mut rng);
    assert_eq!(157, deck.number_cards());
}

#[test]
fn display_sequence_1() {
    let seq = Sequence::from_cards(&[
        RegularCard(Club, 2),
        Joker,
        RegularCard(Diamond, 3),
        RegularCard(Heart, 2),
    ]);
    assert_eq!("\u{1b}[1;30m2♣ \u{1b}[1;34m# \u{1b}[1;31m3♦ \u{1b}[1;31m2♥ ".to_string(), seq.to_string());
}

#[test]
fn display_shifted_1() {
    let cards = [
        Joker,
        RegularCard(Heart, 1),
        RegularCard(Heart, 3),
        RegularCard(Club, 10),
        Joker,
        RegularCard(Club, 1),
        RegularCard(Heart, 2),
        RegularCard(Club, 3),
        RegularCard(Club, 4),
        RegularCard(Club, 10),
        RegularCard(Club, 6),
        RegularCard(Club, 10),
    ];
    let sequence = Sequence::from_cards(&cards);

    assert_eq!(sequence.show_indices_shifted(1),
               ("\u{1b}[1;34m# \u{1b}[1;31mA♥ \u{1b}[1;31m3♥ \u{1b}[1;30m10♣ \u{1b}[1;34m# \u{1b}[1;30mA♣ \u{1b}[1;31m2♥ \u{1b}[1;30m3♣ \u{1b}[1;30m4♣ \u{1b}[1;30m10♣ \u{1b}[1;30m6♣ \u{1b}[1;30m10♣".to_string(),
                "2 3  4  5   6 7  8  9  10 11  12 13".to_string()));
}

#[test]
fn display_shifted_2() {
    let cards = [
        Joker,
        RegularCard(Heart, 1),
        RegularCard(Heart, 3),
        RegularCard(Club, 10),
        Joker,
        RegularCard(Club, 1),
        RegularCard(Heart, 2),
        RegularCard(Club, 3),
        RegularCard(Club, 4),
        RegularCard(Club, 10),
        RegularCard(Club, 6),
        RegularCard(Club, 10),
    ];
    let sequence = Sequence::from_cards(&cards);

    assert_eq!(sequence.show_indices_shifted(11),
               ("\u{1b}[1;34m#  \u{1b}[1;31mA♥ \u{1b}[1;31m3♥ \u{1b}[1;30m10♣ \u{1b}[1;34m#  \u{1b}[1;30mA♣ \u{1b}[1;31m2♥ \u{1b}[1;30m3♣ \u{1b}[1;30m4♣ \u{1b}[1;30m10♣ \u{1b}[1;30m6♣ \u{1b}[1;30m10♣".to_string(),
                "12 13 14 15  16 17 18 19 20 21  22 23".to_string()));
}

#[test]
fn display_shifted_3() {
    let cards = [
        Joker,
        RegularCard(Heart, 1),
        RegularCard(Heart, 3),
        RegularCard(Club, 10),
        Joker,
        RegularCard(Club, 1),
        RegularCard(Heart, 2),
        RegularCard(Club, 3),
        RegularCard(Club, 4),
        RegularCard(Club, 10),
        Joker,
        RegularCard(Club, 10),
    ];
    let sequence = Sequence::from_cards(&cards);

    assert_eq!(sequence.show_indices_shifted(11),
               ("\u{1b}[1;34m#  \u{1b}[1;31mA♥ \u{1b}[1;31m3♥ \u{1b}[1;30m10♣ \u{1b}[1;34m#  \u{1b}[1;30mA♣ \u{1b}[1;31m2♥ \u{1b}[1;30m3♣ \u{1b}[1;30m4♣ \u{1b}[1;30m10♣ \u{1b}[1;34m#  \u{1b}[1;30m10♣".to_string(),
                "12 13 14 15  16 17 18 19 20 21  22 23".to_string()));
}
