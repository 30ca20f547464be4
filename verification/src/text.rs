//! Reading what a player typed: decoding, trimming, splitting into words and
//! reading numbers.

use vstd::prelude::*;
use vstd::string::StringExecFns;
use vstd::utf8::{decode_utf8, valid_utf8};

verus! {

/// Whether a character is white space: whether it has the property
/// `White_Space` of the Unicode character database. These are the
/// characters from U+0009 to U+000D, the space, U+0085, U+00A0, U+1680, the
/// characters from U+2000 to U+200A, U+2028, U+2029, U+202F, U+205F and
/// U+3000.
pub open spec fn is_white_space(c: char) -> bool {
    let code = c as u32;
    ||| 0x0009 <= code <= 0x000D
    ||| code == 0x0020
    ||| code == 0x0085
    ||| code == 0x00A0
    ||| code == 0x1680
    ||| 0x2000 <= code <= 0x200A
    ||| code == 0x2028
    ||| code == 0x2029
    ||| code == 0x202F
    ||| code == 0x205F
    ||| code == 0x3000
}

/// Calls `char::is_whitespace`, which tells whether the character has the
/// property `White_Space`.
#[verifier::external_body]
fn char_is_whitespace(c: char) -> (res: bool)
    ensures
        res == is_white_space(c),
{
    c.is_whitespace()
}

/// The error of the standard library's `String::from_utf8`.
#[verifier::external_type_specification]
#[verifier::external_body]
pub struct ExFromUtf8Error(std::string::FromUtf8Error);

/// Calls `String::from_utf8`. The standard library accepts exactly the byte
/// sequences that are valid UTF-8, and the string it returns holds the
/// characters that the bytes encode.
#[verifier::external_body]
pub(crate) fn string_from_utf8(bytes: Vec<u8>) -> (res: Result<String, std::string::FromUtf8Error>)
    ensures
        res is Ok <==> valid_utf8(bytes@),
        res matches Ok(text) ==> text@ == decode_utf8(bytes@),
{
    String::from_utf8(bytes)
}

/// The characters that bytes encode, where the bytes are valid UTF-8.
pub fn decode_text(bytes: &[u8]) -> (res: Option<Vec<char>>)
    ensures
        res is Some <==> valid_utf8(bytes@),
        res matches Some(chars) ==> chars@ == decode_utf8(bytes@),
{
    match string_from_utf8(vstd::slice::slice_to_vec(bytes)) {
        Ok(text) => Some(chars_of(text.as_str())),
        Err(_) => None,
    }
}

/// The characters of a text, one by one.
pub fn chars_of(text: &str) -> (res: Vec<char>)
    ensures
        res@ == text@,
{
    broadcast use vstd::string::group_string_axioms;

    let mut res: Vec<char> = Vec::new();
    let chars = text.chars();
    assert(res@ =~= text@.take(0));
    for c in it: chars
        invariant
            it.seq() == text@,
            res@ == text@.take(it.index()),
    {
        res.push(c);
        assert(res@ =~= text@.take(it.index() + 1));
    }
    assert(text@.take(text@.len() as int) =~= text@);
    res
}

/// The character that writes a digit.
pub open spec fn digit_char(d: int) -> char {
    if d == 0 {
        '0'
    } else if d == 1 {
        '1'
    } else if d == 2 {
        '2'
    } else if d == 3 {
        '3'
    } else if d == 4 {
        '4'
    } else if d == 5 {
        '5'
    } else if d == 6 {
        '6'
    } else if d == 7 {
        '7'
    } else if d == 8 {
        '8'
    } else {
        '9'
    }
}

/// A number written in decimal digits, without leading zeros.
pub open spec fn decimal_digits(n: nat) -> Seq<char>
    decreases n,
{
    if n < 10 {
        seq![digit_char(n as int)]
    } else {
        decimal_digits(n / 10).push(digit_char((n % 10) as int))
    }
}

/// The text of a digit.
fn digit_str(d: usize) -> (res: &'static str)
    requires
        d < 10,
    ensures
        res@ == seq![digit_char(d as int)],
{
    proof {
        reveal_strlit("0");
        reveal_strlit("1");
        reveal_strlit("2");
        reveal_strlit("3");
        reveal_strlit("4");
        reveal_strlit("5");
        reveal_strlit("6");
        reveal_strlit("7");
        reveal_strlit("8");
        reveal_strlit("9");
    }
    let res = if d == 0 {
        "0"
    } else if d == 1 {
        "1"
    } else if d == 2 {
        "2"
    } else if d == 3 {
        "3"
    } else if d == 4 {
        "4"
    } else if d == 5 {
        "5"
    } else if d == 6 {
        "6"
    } else if d == 7 {
        "7"
    } else if d == 8 {
        "8"
    } else {
        "9"
    };
    assert(res@ =~= seq![digit_char(d as int)]);
    res
}

/// Writes a number in decimal digits.
pub fn number_text(n: usize) -> (res: String)
    ensures
        res@ == decimal_digits(n as nat),
    decreases n,
{
    if n < 10 {
        String::from_str(digit_str(n))
    } else {
        let mut res = number_text(n / 10);
        res.append(digit_str(n % 10));
        assert(res@ =~= decimal_digits(n as nat));
        res
    }
}

/// The value of a decimal digit.
pub open spec fn digit_value(c: char) -> Option<int> {
    if '0' <= c && c <= '9' {
        Some(c as int - '0' as int)
    } else {
        None
    }
}

/// The value of a decimal digit, if the character is one.
fn digit_of(c: char) -> (res: Option<u8>)
    ensures
        res is Some <==> digit_value(c) is Some,
        res matches Some(d) ==> digit_value(c) == Some(d as int) && d <= 9,
{
    if c >= '0' && c <= '9' {
        Some((c as u32 - '0' as u32) as u8)
    } else {
        None
    }
}

/// The text without the white space at its start.
pub open spec fn trim_start(text: Seq<char>) -> Seq<char>
    decreases text.len(),
{
    if text.len() > 0 && is_white_space(text[0]) {
        trim_start(text.drop_first())
    } else {
        text
    }
}

/// The text without the white space at its end.
pub open spec fn trim_end(text: Seq<char>) -> Seq<char>
    decreases text.len(),
{
    if text.len() > 0 && is_white_space(text.last()) {
        trim_end(text.drop_last())
    } else {
        text
    }
}

/// The text without the white space at its start and at its end.
pub open spec fn trimmed(text: Seq<char>) -> Seq<char> {
    trim_end(trim_start(text))
}

/// The words of a text: the pieces between each separator and the next.
/// There is one word more than there are separators, and a word may be
/// empty.
pub open spec fn split_on(text: Seq<char>, sep: char) -> Seq<Seq<char>>
    decreases text.len(),
{
    if text.len() == 0 {
        seq![Seq::<char>::empty()]
    } else {
        let before = split_on(text.drop_last(), sep);
        if text.last() == sep {
            before.push(Seq::<char>::empty())
        } else {
            before.drop_last().push(before.last().push(text.last()))
        }
    }
}

/// Whether every character is a decimal digit.
pub open spec fn all_digits(word: Seq<char>) -> bool {
    forall|i: int| 0 <= i < word.len() ==> digit_value(#[trigger] word[i]) is Some
}

/// The number that a word of decimal digits writes.
pub open spec fn decimal_value(word: Seq<char>) -> int
    decreases word.len(),
{
    if word.len() == 0 {
        0
    } else {
        10 * decimal_value(word.drop_last()) + digit_value(word.last()).unwrap_or(0)
    }
}

/// The digits of a word that may begin with a plus sign.
pub open spec fn unsigned_part(word: Seq<char>) -> Seq<char> {
    if word.len() > 0 && word[0] == '+' {
        word.drop_first()
    } else {
        word
    }
}

/// The number that a word writes, as the standard library reads a `usize`:
/// one decimal digit or more, with a plus sign before them or none, and a
/// value that a `usize` can hold. Any other word is no number.
pub open spec fn parse_number(word: Seq<char>) -> Option<usize> {
    let digits = unsigned_part(word);
    if digits.len() > 0 && all_digits(digits) && decimal_value(digits) <= usize::MAX {
        Some(decimal_value(digits) as usize)
    } else {
        None
    }
}

/// The numbers that a line of text asks for: the text is trimmed and split
/// at each space, and each word is read as a number.
pub open spec fn requests_of(text: Seq<char>) -> Seq<Option<usize>> {
    split_on(trimmed(text), ' ').map_values(|word: Seq<char>| parse_number(word))
}

/// A number in decimal digits is at least the number that its first digits
/// write.
proof fn lemma_decimal_value_grows(word: Seq<char>, k: int)
    requires
        0 <= k <= word.len(),
    ensures
        0 <= decimal_value(word.take(k)) <= decimal_value(word),
    decreases word.len() - k,
{
    lemma_decimal_value_nonnegative(word.take(k));
    if k < word.len() {
        lemma_decimal_value_grows(word, k + 1);
        assert(word.take(k + 1).drop_last() =~= word.take(k));
        lemma_decimal_value_nonnegative(word.take(k + 1));
    } else {
        assert(word.take(k) =~= word);
    }
}

/// Digits write no negative number.
proof fn lemma_decimal_value_nonnegative(word: Seq<char>)
    ensures
        0 <= decimal_value(word),
    decreases word.len(),
{
    if word.len() > 0 {
        lemma_decimal_value_nonnegative(word.drop_last());
    }
}

/// Removes the white space at both ends of a text.
pub fn trim(text: &Vec<char>) -> (res: Vec<char>)
    ensures
        res@ == trimmed(text@),
{
    let n: usize = text.len();
    let mut a: usize = 0;
    assert(text@.skip(0) =~= text@);
    while a < n && char_is_whitespace(text[a])
        invariant
            n == text@.len(),
            a <= n,
            trim_start(text@) == trim_start(text@.skip(a as int)),
        decreases n - a,
    {
        assert(text@.skip(a as int).drop_first() =~= text@.skip(a + 1));
        a += 1;
    }
    assert(trim_start(text@) == text@.skip(a as int));
    let mut b: usize = n;
    assert(text@.skip(a as int) =~= text@.subrange(a as int, n as int));
    while b > a && char_is_whitespace(text[b - 1])
        invariant
            n == text@.len(),
            a <= b <= n,
            trimmed(text@) == trim_end(text@.subrange(a as int, b as int)),
        decreases b - a,
    {
        assert(text@.subrange(a as int, b as int).drop_last() =~= text@.subrange(
            a as int,
            b - 1,
        ));
        b -= 1;
    }
    assert(trimmed(text@) == text@.subrange(a as int, b as int));
    let mut res: Vec<char> = Vec::new();
    let mut i: usize = a;
    assert(res@ =~= text@.subrange(a as int, a as int));
    while i < b
        invariant
            a <= i <= b <= n,
            n == text@.len(),
            res@ == text@.subrange(a as int, i as int),
        decreases b - i,
    {
        res.push(text[i]);
        assert(res@ =~= text@.subrange(a as int, i + 1));
        i += 1;
    }
    res
}

/// Splits a text at each separator.
pub fn split(text: &Vec<char>, sep: char) -> (res: Vec<Vec<char>>)
    ensures
        res@.map_values(|word: Vec<char>| word@) == split_on(text@, sep),
{
    let mut words: Vec<Vec<char>> = Vec::new();
    let mut cur: Vec<char> = Vec::new();
    let n: usize = text.len();
    let mut i: usize = 0;
    assert(text@.take(0) =~= Seq::<char>::empty());
    assert(words@.map_values(|word: Vec<char>| word@).push(cur@) =~= split_on(
        text@.take(0),
        sep,
    ));
    while i < n
        invariant
            n == text@.len(),
            i <= n,
            words@.map_values(|word: Vec<char>| word@).push(cur@) == split_on(
                text@.take(i as int),
                sep,
            ),
        decreases n - i,
    {
        let c = text[i];
        let ghost before = split_on(text@.take(i as int), sep);
        let ghost done = words@.map_values(|word: Vec<char>| word@);
        proof {
            assert(text@.take(i + 1).drop_last() =~= text@.take(i as int));
            assert(text@.take(i + 1).last() == c);
            assert(before.drop_last() =~= done);
            assert(before.last() == cur@);
        }
        if c == sep {
            words.push(cur);
            cur = Vec::new();
            assert(words@.map_values(|word: Vec<char>| word@) =~= before);
        } else {
            cur.push(c);
        }
        assert(words@.map_values(|word: Vec<char>| word@).push(cur@) =~= split_on(
            text@.take(i + 1),
            sep,
        ));
        i += 1;
    }
    assert(text@.take(n as int) =~= text@);
    let ghost done = words@.map_values(|word: Vec<char>| word@);
    words.push(cur);
    assert(words@.map_values(|word: Vec<char>| word@) =~= done.push(cur@));
    words
}

/// Reads a word as a number.
pub fn read_number(word: &Vec<char>) -> (res: Option<usize>)
    ensures
        res == parse_number(word@),
{
    let n: usize = word.len();
    let start: usize = if n > 0 && word[0] == '+' {
        1
    } else {
        0
    };
    let ghost digits = unsigned_part(word@);
    assert(digits =~= word@.skip(start as int));
    if start == n {
        return None;
    }
    let mut value: usize = 0;
    let mut i: usize = start;
    assert(digits.take(0) =~= Seq::<char>::empty());
    while i < n
        invariant
            n == word@.len(),
            start <= i <= n,
            digits == word@.skip(start as int),
            digits == unsigned_part(word@),
            all_digits(digits.take(i - start)),
            value == decimal_value(digits.take(i - start)),
        decreases n - i,
    {
        let ghost k = i - start;
        proof {
            assert(digits.take(k + 1).drop_last() =~= digits.take(k));
            assert(digits.take(k + 1).last() == word@[i as int]);
            assert(digits[k] == word@[i as int]);
        }
        let d: u8 = match digit_of(word[i]) {
            Some(d) => d,
            None => {
                assert(digit_value(digits[k]) is None);
                return None;
            },
        };
        assert(decimal_value(digits.take(k + 1)) == 10 * value + d);
        let next: Option<usize> = match value.checked_mul(10) {
            Some(v) => v.checked_add(d as usize),
            None => None,
        };
        match next {
            Some(v) => {
                value = v;
            },
            None => {
                proof {
                    lemma_decimal_value_grows(digits, k + 1);
                }
                return None;
            },
        }
        assert(all_digits(digits.take(k + 1))) by {
            assert forall|j: int| 0 <= j < k + 1 implies digit_value(
                #[trigger] digits.take(k + 1)[j],
            ) is Some by {
                if j < k {
                    assert(digits.take(k + 1)[j] == digits.take(k)[j]);
                }
            }
        }
        i += 1;
    }
    assert(digits.take(n - start) =~= digits);
    Some(value)
}

/// Reads the numbers that a message asks for. There is no reading of a
/// message that is not valid UTF-8.
pub fn parse_requests(mes: &[u8]) -> (res: Option<Vec<Option<usize>>>)
    ensures
        res is Some <==> valid_utf8(mes@),
        res matches Some(requests) ==> requests@ == requests_of(decode_utf8(mes@)),
{
    let text = match decode_text(mes) {
        Some(text) => text,
        None => {
            return None;
        },
    };
    let line = trim(&text);
    let words = split(&line, ' ');
    let mut requests: Vec<Option<usize>> = Vec::new();
    let n: usize = words.len();
    let mut i: usize = 0;
    let ghost spec_words = split_on(trimmed(text@), ' ');
    while i < n
        invariant
            n == words@.len(),
            i <= n,
            words@.map_values(|word: Vec<char>| word@) == spec_words,
            requests@.len() == i,
            forall|k: int| 0 <= k < i ==> #[trigger] requests@[k] == parse_number(spec_words[k]),
        decreases n - i,
    {
        assert(spec_words[i as int] == words@[i as int]@);
        requests.push(read_number(&words[i]));
        i += 1;
    }
    assert(requests@ =~= requests_of(text@));
    Some(requests)
}

} // verus!
