use machiavelli::save::Config;
use machiavelli::settings::{
    answer_number, first_word, get_config_from_text, names_from_text, names_to_text,
    starting_hand_fits, string_of,
};

#[test]
fn first_word_of_a_line() {
    assert_eq!(first_word("2 decks").ok().unwrap(), "2");
    assert_eq!(first_word("machiavelli_save").ok().unwrap(), "machiavelli_save");
    assert_eq!(first_word(" 2").ok().unwrap(), "");
    assert_eq!(first_word("").ok().unwrap(), "");
}

#[test]
fn string_of_characters() {
    assert_eq!(string_of(&vec!['4', '♣', ' ']), "4♣ ");
    assert_eq!(string_of(&vec![]), "");
}

#[test]
fn settings_from_a_text() {
    let text = "2 decks\n4 jokers\n13 cards\n0\n3 players\ngame one\nmore\n";
    let (config, savefile) = get_config_from_text(text).ok().unwrap();
    assert_eq!(
        config,
        Config {
            n_decks: 2,
            n_jokers: 4,
            n_cards_to_start: 13,
            custom_rule_jokers: false,
            n_players: 3,
        }
    );
    assert_eq!(savefile, "game");
}

#[test]
fn settings_with_the_joker_rule_and_large_numbers() {
    let text = "255\n0\n65535\n1 yes\n+7\n\n";
    let (config, savefile) = get_config_from_text(text).ok().unwrap();
    assert_eq!(
        config,
        Config {
            n_decks: 255,
            n_jokers: 0,
            n_cards_to_start: 65535,
            custom_rule_jokers: true,
            n_players: 7,
        }
    );
    assert_eq!(savefile, "");
    let (config, _) = get_config_from_text("1\n1\n1\n11\n1\nx").ok().unwrap();
    assert!(!config.custom_rule_jokers);
}

#[test]
fn settings_that_cannot_be_read() {
    assert!(get_config_from_text("").is_err());
    assert!(get_config_from_text("1\n1\n1\n1\n1").is_err());
    assert!(get_config_from_text("256\n1\n1\n1\n1\nx").is_err());
    assert!(get_config_from_text("1\n-1\n1\n1\n1\nx").is_err());
    assert!(get_config_from_text("1\n1\n65536\n1\n1\nx").is_err());
    assert!(get_config_from_text("1\n1\n1\n1\ntwo\nx").is_err());
    assert!(get_config_from_text(" 1\n1\n1\n1\n1\nx").is_err());
    assert!(get_config_from_text("1\r\n1\r\n1\r\n1\r\n1\r\nx").is_err());
}

#[test]
fn names_from_a_text() {
    assert_eq!(names_from_text("Ann\nBob\n"), vec!["Ann".to_string(), "Bob".to_string()]);
    assert_eq!(
        names_from_text("  Ann\n\n Bö \nCyd  "),
        vec!["Ann".to_string(), "".to_string(), " Bö ".to_string(), "Cyd".to_string()]
    );
    assert_eq!(names_from_text(""), vec!["".to_string()]);
}

#[test]
fn names_to_a_text() {
    assert_eq!(names_to_text(&["Ann".to_string(), "Bob".to_string()]), "Ann\nBob");
    assert_eq!(names_to_text(&["Ann".to_string()]), "Ann");
    assert_eq!(names_to_text(&[]), "");
    let names = vec!["Ann".to_string(), "Bö".to_string(), "Cyd".to_string()];
    assert_eq!(names_from_text(&names_to_text(&names)), names);
}

#[test]
fn answers_are_trimmed_and_bounded() {
    assert_eq!(answer_number(" 12\n", 255), Some(12));
    assert_eq!(answer_number("255", 255), Some(255));
    assert_eq!(answer_number("256", 255), None);
    assert_eq!(answer_number("0", 255), Some(0));
    assert_eq!(answer_number("1 2", 255), None);
    assert_eq!(answer_number("", 255), None);
    assert_eq!(answer_number("y", 255), None);
    assert_eq!(answer_number("8080\n", usize::MAX), Some(8080));
}

#[test]
fn starting_hand_needs_cards_enough() {
    assert!(starting_hand_fits(1, 1, 0));
    assert!(starting_hand_fits(52, 1, 0));
    assert!(!starting_hand_fits(53, 1, 0));
    assert!(starting_hand_fits(53, 1, 1));
    assert!(!starting_hand_fits(0, 1, 1));
    assert!(starting_hand_fits(13515, 255, 255));
    assert!(!starting_hand_fits(13516, 255, 255));
}
