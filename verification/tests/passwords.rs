use cch23::day15::{game_of_the_year, judge_password, password_facts, validate, Data, PasswordVerdict};
use cch23::error::MyError;

fn data(s: &str) -> Data {
    Data { input: s.to_string() }
}

fn verdict(s: &str) -> PasswordVerdict {
    match game_of_the_year(&data(s)) {
        Ok(v) => v,
        Err(_) => panic!("unexpected error"),
    }
}

#[test]
fn nice_string() {
    assert!(validate(&data("hello there")));
}

#[test]
fn forbidden_pair_is_naughty() {
    assert!(!validate(&data("abcd")));
    assert!(!validate(&data("hello therexy")));
}

#[test]
fn vowels_must_share_a_line() {
    assert!(!validate(&data("hello\nthere")));
    assert!(validate(&data("hello\nthere aye")));
}

#[test]
fn doubled_letter_only_in_scanned_pairs() {
    // "bb" is split across the pairs "eb" and "bo".
    assert!(!validate(&data("ebbou")));
    assert!(validate(&data("bbeou")));
}

#[test]
fn too_short() {
    assert_eq!(verdict("short"), PasswordVerdict::TooShort);
    assert_eq!(verdict("Pa55word"), PasswordVerdict::NotEnoughDigits);
}

#[test]
fn byte_length_counts() {
    // four characters, eight bytes
    assert_ne!(verdict("\u{e9}\u{e9}\u{e9}\u{e9}"), PasswordVerdict::TooShort);
}

#[test]
fn more_types_of_chars() {
    assert_eq!(verdict("password"), PasswordVerdict::MoreTypesOfChars);
}

#[test]
fn five_digits_on_a_line() {
    assert_eq!(verdict("Password1234"), PasswordVerdict::NotEnoughDigits);
    assert_eq!(verdict("Pass12\nword345"), PasswordVerdict::NotEnoughDigits);
}

#[test]
fn math_is_hard() {
    assert_eq!(verdict("Password12345"), PasswordVerdict::MathIsHard);
}

#[test]
fn non_ascii_digit_is_a_parse_error() {
    assert!(matches!(game_of_the_year(&data("Password12345\u{0663}")), Err(MyError::ParseError)));
}

#[test]
fn not_joyful() {
    assert_eq!(verdict("Password2000+23"), PasswordVerdict::NotJoyful);
    assert_eq!(verdict("Password2000+23joyo"), PasswordVerdict::NotJoyful);
    assert_eq!(verdict("Password2000+23j\noy"), PasswordVerdict::NotJoyful);
    assert_eq!(verdict("Password2000+23joy"), PasswordVerdict::NotJoyful);
    assert_eq!(verdict("PASSWORD2000+23joy"), PasswordVerdict::NoSandwich);
}

#[test]
fn no_sandwich() {
    assert_eq!(verdict("23jPassword2000y"), PasswordVerdict::NoSandwich);
}

#[test]
fn outranged() {
    assert_eq!(verdict("2000.23.A joy AzA"), PasswordVerdict::Outranged);
}

#[test]
fn no_emoji() {
    assert_eq!(verdict("2000.23.A joy AzA \u{2984}"), PasswordVerdict::NoEmoji);
}

#[test]
fn not_a_coffee_brewer() {
    assert_eq!(verdict("2000.23.A joy AzA \u{2984} \u{1F976}"), PasswordVerdict::NotACoffeeBrewer);
}

#[test]
fn nice_password() {
    let input = format!("2000.23.A joy AzA \u{2984} \u{1F976}{}", " ".repeat(26));
    let v = verdict(&input);
    assert_eq!(v, PasswordVerdict::Nice);
    assert_eq!(v.result(), "nice");
    assert_eq!(v.reason(), "that's a nice password");
    assert_eq!(v.status(), 200);
}

#[test]
fn verdict_texts() {
    assert_eq!(PasswordVerdict::TooShort.reason(), "8 chars");
    assert_eq!(PasswordVerdict::NoEmoji.reason(), "\u{1F633}");
    assert_eq!(PasswordVerdict::NotJoyful.status(), 406);
    assert_eq!(PasswordVerdict::NoSandwich.status(), 451);
    assert_eq!(PasswordVerdict::Outranged.status(), 416);
    assert_eq!(PasswordVerdict::NoEmoji.status(), 426);
    assert_eq!(PasswordVerdict::NotACoffeeBrewer.status(), 418);
    assert_eq!(PasswordVerdict::MathIsHard.result(), "naughty");
}

#[test]
fn facts_of_an_input() {
    let facts = password_facts("a\u{0663}\u{1F976}");
    assert_eq!(facts.chars, vec!['a', '\u{0663}', '\u{1F976}']);
    assert_eq!(facts.byte_len, 7);
    assert_eq!(facts.decimal_digit, vec![false, true, false]);
    assert_eq!(facts.emoji, vec![false, false, true]);
    assert_eq!(facts.digest.len(), 64);
    assert_eq!(judge_password(&facts).ok(), Some(PasswordVerdict::TooShort));
}
