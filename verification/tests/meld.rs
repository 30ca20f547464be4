use machiavelli::sequence_cards::Card::{Joker, RegularCard};
use machiavelli::sequence_cards::Sequence;
use machiavelli::sequence_cards::Suit::{Club, Diamond, Heart, Spade};

#[test]
fn empty_sequence_is_no_meld() {
    let mut seq = Sequence::new();
    assert_eq!(seq.is_valid(), false);
    assert_eq!(seq, Sequence::new());
}

#[test]
fn single_joker_is_a_meld() {
    let mut seq = Sequence::from_cards(&[Joker]);
    assert_eq!(seq.is_valid(), true);
    assert_eq!(seq, Sequence::from_cards(&[Joker]));
}

#[test]
fn short_sequences_are_rejected() {
    let mut one = Sequence::from_cards(&[RegularCard(Heart, 5)]);
    assert_eq!(one.is_valid(), false);
    let mut two = Sequence::from_cards(&[RegularCard(Heart, 5), Joker]);
    assert_eq!(two.is_valid(), false);
    let mut pair = Sequence::from_cards(&[RegularCard(Heart, 5), RegularCard(Spade, 5)]);
    assert_eq!(pair.is_valid(), false);
}

#[test]
fn same_rank_duplicate_suit_is_rejected() {
    let mut seq = Sequence::from_cards(&[
        RegularCard(Heart, 2),
        RegularCard(Diamond, 2),
        RegularCard(Diamond, 2),
    ]);
    assert_eq!(seq.is_valid(), false);
}

#[test]
fn same_rank_meld_is_left_in_rank_order() {
    let mut seq = Sequence::from_cards(&[
        RegularCard(Spade, 2),
        Joker,
        RegularCard(Heart, 2),
        RegularCard(Diamond, 2),
    ]);
    assert_eq!(seq.is_valid(), true);
    assert_eq!(
        seq,
        Sequence::from_cards(&[
            RegularCard(Heart, 2),
            RegularCard(Diamond, 2),
            RegularCard(Spade, 2),
            Joker,
        ])
    );
}

#[test]
fn rejected_sequence_keeps_its_order() {
    let cards = [
        RegularCard(Diamond, 6),
        Joker,
        RegularCard(Diamond, 2),
        RegularCard(Diamond, 3),
    ];
    let mut seq = Sequence::from_cards(&cards);
    assert_eq!(seq.is_valid(), false);
    assert_eq!(seq, Sequence::from_cards(&cards));
}

#[test]
fn rejected_ace_sequence_keeps_its_order() {
    let cards = [Joker, RegularCard(Heart, 11), RegularCard(Heart, 1)];
    let mut seq = Sequence::from_cards(&cards);
    assert_eq!(seq.is_valid(), false);
    assert_eq!(seq, Sequence::from_cards(&cards));
}

#[test]
fn joker_is_placed_in_the_gap() {
    let mut seq = Sequence::from_cards(&[
        RegularCard(Diamond, 5),
        RegularCard(Diamond, 2),
        Joker,
        RegularCard(Diamond, 3),
    ]);
    assert_eq!(seq.is_valid(), true);
    assert_eq!(
        seq,
        Sequence::from_cards(&[
            RegularCard(Diamond, 2),
            RegularCard(Diamond, 3),
            Joker,
            RegularCard(Diamond, 5),
        ])
    );
}

#[test]
fn spare_jokers_go_to_the_end() {
    let mut seq = Sequence::from_cards(&[
        Joker,
        RegularCard(Club, 8),
        RegularCard(Club, 9),
        RegularCard(Club, 12),
        Joker,
        RegularCard(Club, 13),
        Joker,
        Joker,
    ]);
    assert_eq!(seq.is_valid(), true);
    assert_eq!(
        seq,
        Sequence::from_cards(&[
            RegularCard(Club, 8),
            RegularCard(Club, 9),
            Joker,
            Joker,
            RegularCard(Club, 12),
            RegularCard(Club, 13),
            Joker,
            Joker,
        ])
    );
}

#[test]
fn ace_goes_behind_the_king() {
    let mut seq = Sequence::from_cards(&[
        RegularCard(Club, 1),
        RegularCard(Club, 13),
        RegularCard(Club, 12),
    ]);
    assert_eq!(seq.is_valid(), true);
    assert_eq!(
        seq,
        Sequence::from_cards(&[
            RegularCard(Club, 12),
            RegularCard(Club, 13),
            RegularCard(Club, 1),
        ])
    );
}

#[test]
fn joker_before_a_leading_king_and_ace() {
    let mut seq = Sequence::from_cards(&[
        RegularCard(Heart, 1),
        Joker,
        RegularCard(Heart, 13),
    ]);
    assert_eq!(seq.is_valid(), true);
    assert_eq!(
        seq,
        Sequence::from_cards(&[Joker, RegularCard(Heart, 13), RegularCard(Heart, 1)])
    );
}

#[test]
fn joker_stands_for_the_king_before_an_ace() {
    let mut seq = Sequence::from_cards(&[
        Joker,
        RegularCard(Heart, 1),
        RegularCard(Heart, 12),
    ]);
    assert_eq!(seq.is_valid(), true);
    assert_eq!(
        seq,
        Sequence::from_cards(&[RegularCard(Heart, 12), Joker, RegularCard(Heart, 1)])
    );
}

#[test]
fn high_ace_is_read_before_low_ace() {
    let mut cards = vec![RegularCard(Spade, 13), RegularCard(Spade, 1)];
    for _ in 0..11 {
        cards.push(Joker);
    }
    let mut seq = Sequence::from_cards(&cards);
    assert_eq!(seq.is_valid(), true);
    let mut expected = vec![Joker, RegularCard(Spade, 13), RegularCard(Spade, 1)];
    for _ in 0..10 {
        expected.push(Joker);
    }
    assert_eq!(seq, Sequence::from_cards(&expected));
}

#[test]
fn low_ace_run_with_many_jokers() {
    let mut cards = vec![RegularCard(Spade, 3), RegularCard(Spade, 1), RegularCard(Spade, 2)];
    cards.push(Joker);
    let mut seq = Sequence::from_cards(&cards);
    assert_eq!(seq.is_valid(), true);
    assert_eq!(
        seq,
        Sequence::from_cards(&[
            RegularCard(Spade, 1),
            RegularCard(Spade, 2),
            RegularCard(Spade, 3),
            Joker,
        ])
    );
}

#[test]
fn two_suits_make_no_run() {
    let mut seq = Sequence::from_cards(&[
        RegularCard(Spade, 3),
        RegularCard(Heart, 4),
        RegularCard(Spade, 5),
    ]);
    assert_eq!(seq.is_valid(), false);
}

#[test]
fn same_suit_check_leaves_a_rejected_sequence() {
    let cards = [RegularCard(Club, 2), Joker, RegularCard(Club, 7), RegularCard(Club, 3)];
    let mut seq = Sequence::from_cards(&cards);
    assert_eq!(seq.is_valid_sequence_same_suit(), false);
    assert_eq!(seq, Sequence::from_cards(&cards));
}

#[test]
fn same_suit_check_reads_the_cards_as_they_stand() {
    let mut seq = Sequence::from_cards(&[
        RegularCard(Club, 2),
        Joker,
        RegularCard(Club, 4),
        RegularCard(Club, 5),
    ]);
    assert_eq!(seq.is_valid_sequence_same_suit(), true);
    assert_eq!(
        seq,
        Sequence::from_cards(&[
            RegularCard(Club, 2),
            Joker,
            RegularCard(Club, 4),
            RegularCard(Club, 5),
        ])
    );
    let mut unsorted = Sequence::from_cards(&[
        RegularCard(Club, 4),
        RegularCard(Club, 2),
        RegularCard(Club, 3),
    ]);
    assert_eq!(unsorted.is_valid_sequence_same_suit(), false);
}

#[test]
fn same_rank_check() {
    let ok = Sequence::from_cards(&[RegularCard(Club, 4), Joker, RegularCard(Heart, 4)]);
    assert_eq!(ok.is_valid_sequence_same_val(), true);
    let ranks = Sequence::from_cards(&[RegularCard(Club, 4), RegularCard(Heart, 5)]);
    assert_eq!(ranks.is_valid_sequence_same_val(), false);
    let suits = Sequence::from_cards(&[RegularCard(Club, 4), RegularCard(Club, 4)]);
    assert_eq!(suits.is_valid_sequence_same_val(), false);
}

#[test]
fn take_jokers_leaves_the_other_cards() {
    let mut seq = Sequence::from_cards(&[
        Joker,
        RegularCard(Heart, 4),
        Joker,
        RegularCard(Heart, 5),
    ]);
    let jokers = seq.take_jokers();
    assert_eq!(jokers, Sequence::from_cards(&[Joker, Joker]));
    assert_eq!(
        seq,
        Sequence::from_cards(&[RegularCard(Heart, 4), RegularCard(Heart, 5)])
    );
}
