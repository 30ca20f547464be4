//! The settings of a game and the names of its players as they are kept in
//! text files.

use crate::errors::InvalidInputError;
use crate::save::Config;
use crate::text::{chars_of, parse_number, read_number, split, split_on, trim, trimmed};
use vstd::prelude::*;
use vstd::string::StringExecFns;

verus! {

/// The standard library's `String::push` puts the character at the end of
/// the string.
pub assume_specification[ String::push ](s: &mut String, ch: char)
    ensures
        final(s)@ == old(s)@.push(ch),
;

/// The string that holds the given characters.
pub fn string_of(chars: &Vec<char>) -> (res: String)
    ensures
        res@ == chars@,
{
    let mut res = String::new();
    let n: usize = chars.len();
    let mut i: usize = 0;
    assert(res@ =~= chars@.take(0));
    while i < n
        invariant
            n == chars@.len(),
            i <= n,
            res@ == chars@.take(i as int),
        decreases n - i,
    {
        res.push(chars[i]);
        assert(res@ =~= chars@.take(i + 1));
        i += 1;
    }
    assert(chars@.take(n as int) =~= chars@);
    res
}

/// The first word of a line: what stands before its first space, or the
/// whole line where it has no space.
pub open spec fn first_word_of(line: Seq<char>) -> Seq<char> {
    split_on(line, ' ')[0]
}

/// A text split at a separator has one word at least.
pub proof fn lemma_split_has_a_word(text: Seq<char>, sep: char)
    ensures
        split_on(text, sep).len() >= 1,
    decreases text.len(),
{
    if text.len() > 0 {
        lemma_split_has_a_word(text.drop_last(), sep);
    }
}

fn first_word_chars(line: &Vec<char>) -> (res: Vec<char>)
    ensures
        res@ == first_word_of(line@),
{
    let words = split(line, ' ');
    proof {
        lemma_split_has_a_word(line@, ' ');
        assert(words@.map_values(|word: Vec<char>| word@)[0] == words@[0]@);
    }
    words[0].clone()
}

/// The first word of a line.
pub fn first_word(s: &str) -> (res: Result<String, InvalidInputError>)
    ensures
        res is Ok,
        res->Ok_0@ == first_word_of(s@),
{
    let chars = chars_of(s);
    let word = first_word_chars(&chars);
    Ok(string_of(&word))
}

/// The number that a word writes, where it is `max` at most.
pub open spec fn number_up_to(word: Seq<char>, max: int) -> Option<int> {
    match parse_number(word) {
        Some(n) => if n <= max {
            Some(n as int)
        } else {
            None
        },
        None => None,
    }
}

fn read_number_up_to(word: &Vec<char>, max: usize) -> (res: Option<usize>)
    ensures
        res is Some <==> number_up_to(word@, max as int) is Some,
        res matches Some(n) ==> number_up_to(word@, max as int) == Some(n as int) && n <= max,
{
    match read_number(word) {
        Some(n) => if n <= max {
            Some(n)
        } else {
            None
        },
        None => None,
    }
}

/// The number that an answer gives: the answer without the white space
/// around it is read as a number, which may be `max` at most.
pub fn answer_number(answer: &str, max: usize) -> (res: Option<usize>)
    ensures
        res is Some <==> number_up_to(trimmed(answer@), max as int) is Some,
        res matches Some(n) ==> number_up_to(trimmed(answer@), max as int) == Some(n as int),
{
    let chars = chars_of(answer);
    let word = trim(&chars);
    read_number_up_to(&word, max)
}

/// Whether a starting hand of `n_cards_to_start` cards can be dealt from
/// the cards of the game: it has a card at least, and no more cards than
/// there are.
pub fn starting_hand_fits(n_cards_to_start: u16, n_decks: u8, n_jokers: u8) -> (res: bool)
    ensures
        res == (1 <= n_cards_to_start <= 52 * n_decks + n_jokers),
{
    n_cards_to_start >= 1 && n_cards_to_start <= 52 * (n_decks as u16) + (n_jokers as u16)
}

/// The settings that a text gives, and the name of the file in which the
/// game is saved. The text has six lines or more, and the first word of each
/// of the first six counts: the number of decks, the number of Jokers, the
/// number of cards of a starting hand, `1` where Jokers must be played, the
/// number of players, and the name of the file. A text with fewer lines, or
/// with a number that cannot be read or is too large, gives no settings.
pub open spec fn settings_of(content: Seq<char>) -> Option<(Config, Seq<char>)> {
    let lines = split_on(content, '\n');
    if lines.len() < 6 {
        None
    } else {
        let n_decks = number_up_to(first_word_of(lines[0]), 255);
        let n_jokers = number_up_to(first_word_of(lines[1]), 255);
        let n_cards = number_up_to(first_word_of(lines[2]), 65535);
        let n_players = number_up_to(first_word_of(lines[4]), 255);
        if n_decks is Some && n_jokers is Some && n_cards is Some && n_players is Some {
            Some(
                (
                    Config {
                        n_decks: n_decks->0 as u8,
                        n_jokers: n_jokers->0 as u8,
                        n_cards_to_start: n_cards->0 as u16,
                        custom_rule_jokers: first_word_of(lines[3]) == seq!['1'],
                        n_players: n_players->0 as u8,
                    },
                    first_word_of(lines[5]),
                ),
            )
        } else {
            None
        }
    }
}

/// Reads the settings of a game and the name of its save file from the
/// text of a settings file.
pub fn get_config_from_text(content: &str) -> (res: Result<(Config, String), InvalidInputError>)
    ensures
        res is Ok <==> settings_of(content@) is Some,
        res matches Ok(found) ==> settings_of(content@) == Some((found.0, found.1@)),
{
    let chars = chars_of(content);
    let lines = split(&chars, '\n');
    if lines.len() < 6 {
        return Err(InvalidInputError {  });
    }
    proof {
        let spec_lines = split_on(content@, '\n');
        assert(lines@.map_values(|word: Vec<char>| word@) == spec_lines);
        assert(spec_lines[0] == lines@[0]@);
        assert(spec_lines[1] == lines@[1]@);
        assert(spec_lines[2] == lines@[2]@);
        assert(spec_lines[3] == lines@[3]@);
        assert(spec_lines[4] == lines@[4]@);
        assert(spec_lines[5] == lines@[5]@);
    }
    let n_decks = match read_number_up_to(&first_word_chars(&lines[0]), 255) {
        Some(n) => n as u8,
        None => {
            return Err(InvalidInputError {  });
        },
    };
    let n_jokers = match read_number_up_to(&first_word_chars(&lines[1]), 255) {
        Some(n) => n as u8,
        None => {
            return Err(InvalidInputError {  });
        },
    };
    let n_cards_to_start = match read_number_up_to(&first_word_chars(&lines[2]), 65535) {
        Some(n) => n as u16,
        None => {
            return Err(InvalidInputError {  });
        },
    };
    let rule = first_word_chars(&lines[3]);
    let custom_rule_jokers = rule.len() == 1 && rule[0] == '1';
    assert(custom_rule_jokers == (rule@ =~= seq!['1']));
    let n_players = match read_number_up_to(&first_word_chars(&lines[4]), 255) {
        Some(n) => n as u8,
        None => {
            return Err(InvalidInputError {  });
        },
    };
    let savefile = string_of(&first_word_chars(&lines[5]));
    Ok((Config { n_decks, n_jokers, n_cards_to_start, custom_rule_jokers, n_players }, savefile))
}

/// The names that a text gives: the text without the white space around
/// it, line by line.
pub open spec fn names_of(content: Seq<char>) -> Seq<Seq<char>> {
    split_on(trimmed(content), '\n')
}

/// Reads the names of the players from the text of a names file.
pub fn names_from_text(content: &str) -> (res: Vec<String>)
    ensures
        res@.map_values(|name: String| name@) == names_of(content@),
{
    let chars = chars_of(content);
    let body = trim(&chars);
    let lines = split(&body, '\n');
    let mut names: Vec<String> = Vec::new();
    let n: usize = lines.len();
    let mut i: usize = 0;
    while i < n
        invariant
            n == lines@.len(),
            i <= n,
            names@.len() == i,
            forall|k: int| 0 <= k < i ==> (#[trigger] names@[k])@ == lines@[k]@,
        decreases n - i,
    {
        names.push(string_of(&lines[i]));
        i += 1;
    }
    assert(names@.map_values(|name: String| name@) =~= lines@.map_values(
        |word: Vec<char>| word@,
    ));
    names
}

/// Names put one to a line, without an end of line behind the last.
pub open spec fn names_text(names: Seq<Seq<char>>) -> Seq<char>
    decreases names.len(),
{
    if names.len() == 0 {
        Seq::empty()
    } else if names.len() == 1 {
        names[0]
    } else {
        names_text(names.drop_last()) + seq!['\n'] + names.last()
    }
}

/// The text of a names file: the names, one to a line.
pub fn names_to_text(names: &[String]) -> (res: String)
    ensures
        res@ == names_text(names@.map_values(|name: String| name@)),
{
    let ghost all = names@.map_values(|name: String| name@);
    let mut res = String::new();
    let n: usize = names.len();
    let mut i: usize = 0;
    proof {
        reveal_strlit("\n");
        assert(all.take(0) =~= Seq::<Seq<char>>::empty());
    }
    while i < n
        invariant
            n == names@.len(),
            all == names@.map_values(|name: String| name@),
            "\n"@ == seq!['\n'],
            i <= n,
            res@ == names_text(all.take(i as int)),
        decreases n - i,
    {
        proof {
            assert(all.take(i + 1).drop_last() =~= all.take(i as int));
            assert(all.take(i + 1).last() == names@[i as int]@);
            if i == 0 {
                assert(all.take(1)[0] == names@[0]@);
            }
        }
        if i > 0 {
            res.append("\n");
        }
        res.append(names[i].as_str());
        assert(res@ =~= names_text(all.take(i + 1)));
        i += 1;
    }
    assert(all.take(n as int) =~= all);
    res
}

} // verus!
