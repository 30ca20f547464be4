use machiavelli::sequence_cards::Card::{Joker, RegularCard};
use machiavelli::sequence_cards::Suit::{Club, Heart};
use machiavelli::sequence_cards::{Card, Sequence};

/// Decides on a run by walking the cards and putting Jokers into the gaps
/// of the very vector that is read.
fn run_in_place(cards: &mut Vec<Card>) -> bool {
    let mut jokers: Vec<Card> = Vec::new();
    cards.retain(|c| {
        if *c == Joker {
            jokers.push(Joker);
            false
        } else {
            true
        }
    });
    let mut common_suit = Club;
    let mut current_value: u16 = 0;
    let mut di: usize = 0;
    for i in 0..cards.len() {
        if let RegularCard(suit, value) = cards[i + di] {
            let value = value as u16;
            if current_value == 0 {
                common_suit = suit;
                current_value = value;
            } else {
                if suit != common_suit {
                    cards.append(&mut jokers);
                    return false;
                }
                if value != current_value + 1 && (current_value < 13 || value != 1) {
                    let next_val = if value == 1 { 14 } else { value };
                    if next_val < current_value + 1 {
                        cards.append(&mut jokers);
                        return false;
                    }
                    let diff = next_val - current_value - 1;
                    current_value += diff;
                    if diff as usize > jokers.len() {
                        cards.append(&mut jokers);
                        return false;
                    }
                    for _ in 0..diff {
                        di += 1;
                        cards.insert(i + di - 1, jokers.pop().unwrap());
                    }
                }
                current_value += 1;
            }
        }
    }
    cards.append(&mut jokers);
    true
}

fn same_rank(cards: &[Card]) -> bool {
    let mut suits = Vec::new();
    let mut common: u8 = 0;
    for card in cards.iter() {
        if let RegularCard(suit, value) = card {
            if common == 0 {
                common = *value;
            } else if suits.contains(suit) || *value != common {
                return false;
            }
            suits.push(*suit);
        }
    }
    true
}

/// Decides on a meld in the order: only Jokers, length, same rank, run as
/// sorted, run with a leading Ace moved to the end.
fn decide_step_by_step(cards: &[Card]) -> bool {
    if cards.is_empty() {
        return false;
    }
    if cards.iter().all(|c| *c == Joker) {
        return true;
    }
    if cards.len() < 3 {
        return false;
    }
    let mut sorted = cards.to_vec();
    sorted.sort_by_key(|c| match c {
        Joker => 255u16,
        RegularCard(suit, value) => {
            4 * (*value as u16) + if *suit == Heart { 1 } else { 2 }
        }
    });
    if same_rank(&sorted) {
        return true;
    }
    if run_in_place(&mut sorted) {
        return true;
    }
    if let RegularCard(_, 1) = sorted[0] {
        let ace = sorted.remove(0);
        sorted.push(ace);
    }
    run_in_place(&mut sorted)
}

fn universe() -> Vec<Card> {
    let mut cards = vec![Joker];
    for suit in [Heart, Club].iter() {
        for rank in [1u8, 2, 3, 12, 13].iter() {
            cards.push(RegularCard(*suit, *rank));
        }
    }
    cards
}

fn agree_on_all_sequences_of(len: usize) {
    let universe = universe();
    let n = universe.len();
    let mut indices = vec![0usize; len];
    loop {
        let cards: Vec<Card> = indices.iter().map(|i| universe[*i]).collect();
        let mut seq = Sequence::from_cards(&cards);
        let accepted = seq.is_valid();
        assert_eq!(accepted, decide_step_by_step(&cards), "{:?}", cards);
        let mut before = cards.clone();
        let mut after = seq.to_vec();
        if !accepted {
            assert_eq!(after, before, "{:?}", cards);
        }
        before.sort_by_key(|c| c.to_byte());
        after.sort_by_key(|c| c.to_byte());
        assert_eq!(after, before, "{:?}", cards);
        let mut k = 0;
        while k < len {
            indices[k] += 1;
            if indices[k] < n {
                break;
            }
            indices[k] = 0;
            k += 1;
        }
        if k == len {
            break;
        }
    }
}

#[test]
fn two_ways_of_deciding_agree_on_short_sequences() {
    for len in 0..=4 {
        agree_on_all_sequences_of(len);
    }
}

#[test]
fn two_ways_of_deciding_agree_on_sequences_of_five() {
    agree_on_all_sequences_of(5);
}

#[test]
fn two_ways_of_deciding_agree_with_many_jokers() {
    let regular: Vec<Card> = universe().into_iter().filter(|c| *c != Joker).collect();
    for a in regular.iter() {
        for b in regular.iter() {
            for c in regular.iter() {
                for n_jokers in 9..=13 {
                    let mut cards = vec![*a, *b, *c];
                    for _ in 0..n_jokers {
                        cards.push(Joker);
                    }
                    let mut seq = Sequence::from_cards(&cards);
                    assert_eq!(seq.is_valid(), decide_step_by_step(&cards), "{:?}", cards);
                }
            }
        }
    }
}
