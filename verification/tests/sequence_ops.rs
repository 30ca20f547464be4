use machiavelli::sequence_cards::Card::{Joker, RegularCard};
use machiavelli::sequence_cards::Suit::{Club, Diamond, Heart, Spade};
use machiavelli::sequence_cards::{int_to_suit, suit_to_int, Card, Sequence, Suit};
use rand::thread_rng;

fn five_cards() -> Sequence {
    Sequence::from_cards(&[
        Joker,
        RegularCard(Heart, 1),
        RegularCard(Heart, 2),
        RegularCard(Heart, 3),
        RegularCard(Club, 11),
    ])
}

#[test]
fn suits_and_their_numbers() {
    assert_eq!(suit_to_int(Heart), 1);
    assert_eq!(suit_to_int(Club), 2);
    assert_eq!(suit_to_int(Diamond), 3);
    assert_eq!(suit_to_int(Spade), 4);
    for suit in [Heart, Club, Diamond, Spade].iter() {
        assert_eq!(int_to_suit(suit_to_int(*suit)), Some(*suit));
    }
    assert_eq!(int_to_suit(0), None::<Suit>);
    assert_eq!(int_to_suit(5), None::<Suit>);
}

#[test]
fn every_code_stands_for_one_card() {
    for code in 0..=52u8 {
        let card = Card::from_byte(code).unwrap();
        assert!(card.is_well_formed());
        assert_eq!(card.to_byte(), code);
    }
    for code in 53..=255u8 {
        assert_eq!(Card::from_byte(code), None);
    }
}

#[test]
fn cards_out_of_range_are_not_well_formed() {
    assert!(!RegularCard(Heart, 0).is_well_formed());
    assert!(!RegularCard(Heart, 14).is_well_formed());
    assert!(RegularCard(Heart, 13).is_well_formed());
    assert!(Joker.is_well_formed());
    assert!(five_cards().is_well_formed());
    assert!(!Sequence::from_cards(&[Joker, RegularCard(Club, 200)]).is_well_formed());
}

#[test]
fn sequence_from_bytes() {
    let bytes: [u8; 5] = [0, 1, 20, 35, 51];
    assert_eq!(
        Sequence::from_bytes(&bytes),
        Sequence::from_cards(&[
            Joker,
            RegularCard(Heart, 1),
            RegularCard(Club, 7),
            RegularCard(Diamond, 9),
            RegularCard(Spade, 12),
        ])
    );
    assert_eq!(Sequence::from_bytes(&[53, 1, 255, 0]), Sequence::from_cards(&[RegularCard(Heart, 1), Joker]));
}

#[test]
fn sequence_to_bytes() {
    let sequence = Sequence::from_cards(&[
        Joker,
        RegularCard(Heart, 1),
        RegularCard(Diamond, 7),
        RegularCard(Club, 9),
        RegularCard(Spade, 12),
    ]);
    assert_eq!(vec![0, 1, 33, 22, 51], sequence.to_bytes());
}

#[test]
fn sequence_bytes_round_trip() {
    let mut rng = thread_rng();
    let deck = Sequence::multi_deck(2, 5, &mut rng);
    assert_eq!(Sequence::from_bytes(&deck.to_bytes()), deck);
    assert_eq!(Sequence::from_bytes(&Sequence::new().to_bytes()), Sequence::new());
}

#[test]
fn shuffling_changes_the_order() {
    let mut rng = thread_rng();
    let deck = Sequence::multi_deck(1, 0, &mut rng);
    let mut unshuffled = Vec::new();
    for rank in 1..=13 {
        for suit in [Heart, Diamond, Club, Spade].iter() {
            unshuffled.push(RegularCard(*suit, rank));
        }
    }
    assert_ne!(deck.to_vec(), unshuffled);
}

#[test]
fn add_and_draw_at_the_end() {
    let mut sequence = five_cards();
    sequence.add_card(Joker);
    assert_eq!(6, sequence.number_cards());
    assert_eq!(sequence.draw_card(), Some(Joker));
    assert_eq!(sequence.draw_card(), Some(RegularCard(Club, 11)));
    assert_eq!(4, sequence.number_cards());
    let mut empty = Sequence::new();
    assert_eq!(empty.draw_card(), None);
}

#[test]
fn take_card_by_position() {
    let mut sequence = five_cards();
    assert_eq!(sequence.take_card(2), Some(RegularCard(Heart, 1)));
    assert_eq!(
        sequence,
        Sequence::from_cards(&[
            Joker,
            RegularCard(Heart, 2),
            RegularCard(Heart, 3),
            RegularCard(Club, 11),
        ])
    );
    assert_eq!(sequence.take_card(0), None);
    assert_eq!(sequence.take_card(5), None);
    assert_eq!(sequence.take_card(4), Some(RegularCard(Club, 11)));
    assert_eq!(sequence.number_cards(), 3);
}

#[test]
fn reverse_turns_the_order_round() {
    let sequence = Sequence::from_cards(&[
        RegularCard(Heart, 2),
        RegularCard(Heart, 3),
        RegularCard(Club, 11),
    ]);
    assert_eq!(
        sequence.reverse(),
        Sequence::from_cards(&[
            RegularCard(Club, 11),
            RegularCard(Heart, 3),
            RegularCard(Heart, 2),
        ])
    );
    assert_eq!(Sequence::new().reverse(), Sequence::new());
}

#[test]
fn clone_and_to_vec_copy_the_cards() {
    let sequence = five_cards();
    assert_eq!(sequence.clone(), sequence);
    assert_eq!(Sequence::from_cards(&sequence.to_vec()), sequence);
}

#[test]
fn contains_counts_each_card() {
    let hand = Sequence::from_cards(&[
        RegularCard(Heart, 2),
        Joker,
        RegularCard(Heart, 2),
        RegularCard(Club, 11),
    ]);
    assert!(hand.contains(&Sequence::new()));
    assert!(hand.contains(&hand));
    assert!(hand.contains(&Sequence::from_cards(&[RegularCard(Heart, 2), RegularCard(Heart, 2)])));
    assert!(hand.contains(&Sequence::from_cards(&[RegularCard(Club, 11), Joker])));
    assert!(!hand.contains(&Sequence::from_cards(&[Joker, Joker])));
    assert!(!hand.contains(&Sequence::from_cards(&[RegularCard(Club, 10)])));
    assert!(!Sequence::new().contains(&hand));
}

#[test]
fn sort_by_suit_puts_jokers_last() {
    let mut sequence = Sequence::from_cards(&[
        Joker,
        RegularCard(Heart, 1),
        RegularCard(Heart, 3),
        RegularCard(Club, 11),
        RegularCard(Club, 1),
        RegularCard(Heart, 2),
        RegularCard(Club, 3),
    ]);
    sequence.sort_by_suit();
    assert_eq!(
        Sequence::from_cards(&[
            RegularCard(Heart, 1),
            RegularCard(Heart, 2),
            RegularCard(Heart, 3),
            RegularCard(Club, 1),
            RegularCard(Club, 3),
            RegularCard(Club, 11),
            Joker
        ]),
        sequence
    );
}

#[test]
fn sort_by_rank_puts_jokers_last() {
    let mut sequence = Sequence::from_cards(&[
        Joker,
        RegularCard(Heart, 1),
        RegularCard(Heart, 3),
        RegularCard(Club, 11),
        RegularCard(Club, 1),
        RegularCard(Heart, 2),
        RegularCard(Club, 3),
    ]);
    sequence.sort_by_rank();
    assert_eq!(
        Sequence::from_cards(&[
            RegularCard(Heart, 1),
            RegularCard(Club, 1),
            RegularCard(Heart, 2),
            RegularCard(Heart, 3),
            RegularCard(Club, 3),
            RegularCard(Club, 11),
            Joker
        ]),
        sequence
    );
}

#[test]
fn sort_orders_the_suits_heart_club_diamond_spade() {
    let mut sequence = Sequence::from_cards(&[
        RegularCard(Spade, 5),
        RegularCard(Diamond, 5),
        RegularCard(Club, 5),
        RegularCard(Heart, 5),
    ]);
    sequence.sort_by_rank();
    assert_eq!(
        sequence,
        Sequence::from_cards(&[
            RegularCard(Heart, 5),
            RegularCard(Club, 5),
            RegularCard(Diamond, 5),
            RegularCard(Spade, 5),
        ])
    );
}

#[test]
fn has_only_jokers_of_the_empty_sequence() {
    assert!(Sequence::new().has_only_jokers());
    assert!(Sequence::from_cards(&[Joker, Joker]).has_only_jokers());
    assert!(!five_cards().has_only_jokers());
}
