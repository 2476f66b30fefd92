use vstd::prelude::*;

use crate::error::MyError;
use crate::numbers::parse_unsigned;
use crate::numbers::parse_unsigned_chars;
use crate::patterns::{
    in_class,
    any_class,
    any_in,
    ascii_letters,
    ascii_letters_exec,
    doubled_pair_scan,
    doubled_pair_scan_exec,
    is_subsequence,
    marked_runs,
    runs_of_marked,
    some_line_counts,
    some_line_counts_exec,
    subsequence_exec,
    CharClass,
};
use crate::text::{char_views, chars_of, lemma_split_nonempty, split_chars, split_on};

verus! {

broadcast use vstd::string::group_string_axioms;

/// The body of a password check request.
pub struct Data {
    pub input: String,
}

// ---------------------------------------------------------------------------
// The first check: nice or naughty.
// ---------------------------------------------------------------------------

/// One of the pairs `ab`, `cd`, `pq`, `xy`.
pub open spec fn forbidden_pair(a: char, b: char) -> bool {
    (a == 'a' && b == 'b') || (a == 'c' && b == 'd') || (a == 'p' && b == 'q') || (a == 'x' && b
        == 'y')
}

/// `s` holds one of the forbidden pairs as adjacent characters.
pub open spec fn has_forbidden_pair(s: Seq<char>) -> bool {
    exists|i: int| 0 <= i && i + 1 < s.len() && #[trigger] forbidden_pair(s[i], s[i + 1])
}

/// A nice string has no forbidden pair, has a line with at least three vowels,
/// and has a doubled letter among the letter pairs that the scan visits.
pub open spec fn is_nice(s: Seq<char>) -> bool {
    &&& !has_forbidden_pair(s)
    &&& some_line_counts(s, CharClass::Vowel, 3)
    &&& doubled_pair_scan(s)
}

fn has_forbidden_pair_exec(s: &Vec<char>) -> (res: bool)
    ensures
        res == has_forbidden_pair(s@),
{
    let mut i: usize = 0;
    while s.len() - i >= 2
        invariant
            i <= s.len(),
            forall|j: int| 0 <= j < i && j + 1 < s.len() ==> !#[trigger] forbidden_pair(s@[j], s@[j + 1]),
        decreases s.len() - i,
    {
        let a = s[i];
        let b = s[i + 1];
        if (a == 'a' && b == 'b') || (a == 'c' && b == 'd') || (a == 'p' && b == 'q') || (a == 'x'
            && b == 'y') {
            assert(forbidden_pair(s@[i as int], s@[i + 1]));
            return true;
        }
        i = i + 1;
    }
    false
}

/// Whether the input of a request is nice.
pub fn validate(data: &Data) -> (nice: bool)
    ensures
        nice == is_nice(data.input@),
{
    let s = chars_of(data.input.as_str());
    if has_forbidden_pair_exec(&s) {
        return false;
    }
    let lines = split_chars(&s, '\n');
    let vowels = some_line_counts_exec(&lines, CharClass::Vowel, 3);
    let doubled = doubled_pair_scan_exec(&s);
    vowels && doubled
}

// ---------------------------------------------------------------------------
// The password game.
// ---------------------------------------------------------------------------

/// The outcome of the password game: the first rule that the input breaks,
/// or `Nice` when it keeps them all.
#[derive(Clone, Copy, Debug, PartialEq, Eq, Structural)]
pub enum PasswordVerdict {
    TooShort,
    MoreTypesOfChars,
    NotEnoughDigits,
    MathIsHard,
    NotJoyful,
    NoSandwich,
    Outranged,
    NoEmoji,
    NotACoffeeBrewer,
    Nice,
}

impl PasswordVerdict {
    /// `nice` or `naughty`.
    pub fn result(&self) -> (res: &'static str)
        ensures
            res@ == (if *self == PasswordVerdict::Nice { "nice"@ } else { "naughty"@ }),
    {
        match self {
            PasswordVerdict::Nice => "nice",
            _ => "naughty",
        }
    }

    /// The reason that the response gives.
    pub fn reason(&self) -> (res: &'static str)
        ensures
            res@ == match *self {
                PasswordVerdict::TooShort => "8 chars"@,
                PasswordVerdict::MoreTypesOfChars => "more types of chars"@,
                PasswordVerdict::NotEnoughDigits => "55555"@,
                PasswordVerdict::MathIsHard => "math is hard"@,
                PasswordVerdict::NotJoyful => "not joyful enough"@,
                PasswordVerdict::NoSandwich => "illegal: no sandwich"@,
                PasswordVerdict::Outranged => "outranged"@,
                PasswordVerdict::NoEmoji => "\u{1F633}"@,
                PasswordVerdict::NotACoffeeBrewer => "not a coffee brewer"@,
                PasswordVerdict::Nice => "that's a nice password"@,
            },
    {
        match self {
            PasswordVerdict::TooShort => "8 chars",
            PasswordVerdict::MoreTypesOfChars => "more types of chars",
            PasswordVerdict::NotEnoughDigits => "55555",
            PasswordVerdict::MathIsHard => "math is hard",
            PasswordVerdict::NotJoyful => "not joyful enough",
            PasswordVerdict::NoSandwich => "illegal: no sandwich",
            PasswordVerdict::Outranged => "outranged",
            PasswordVerdict::NoEmoji => "\u{1F633}",
            PasswordVerdict::NotACoffeeBrewer => "not a coffee brewer",
            PasswordVerdict::Nice => "that's a nice password",
        }
    }

    /// The HTTP status code of the response.
    pub fn status(&self) -> (res: u16)
        ensures
            res == match *self {
                PasswordVerdict::TooShort => 400u16,
                PasswordVerdict::MoreTypesOfChars => 400u16,
                PasswordVerdict::NotEnoughDigits => 400u16,
                PasswordVerdict::MathIsHard => 400u16,
                PasswordVerdict::NotJoyful => 406u16,
                PasswordVerdict::NoSandwich => 451u16,
                PasswordVerdict::Outranged => 416u16,
                PasswordVerdict::NoEmoji => 426u16,
                PasswordVerdict::NotACoffeeBrewer => 418u16,
                PasswordVerdict::Nice => 200u16,
            },
    {
        match self {
            PasswordVerdict::TooShort => 400,
            PasswordVerdict::MoreTypesOfChars => 400,
            PasswordVerdict::NotEnoughDigits => 400,
            PasswordVerdict::MathIsHard => 400,
            PasswordVerdict::NotJoyful => 406,
            PasswordVerdict::NoSandwich => 451,
            PasswordVerdict::Outranged => 416,
            PasswordVerdict::NoEmoji => 426,
            PasswordVerdict::NotACoffeeBrewer => 418,
            PasswordVerdict::Nice => 200,
        }
    }
}

/// What the game needs to know of an input beyond its characters: its length
/// in bytes, which of its characters are Unicode decimal digits and which have
/// the Emoji_Presentation property, and the hex SHA-256 digest of the input.
pub struct PasswordFacts {
    pub chars: Vec<char>,
    pub byte_len: usize,
    pub decimal_digit: Vec<bool>,
    pub emoji: Vec<bool>,
    pub digest: Vec<char>,
}

/// The largest `u32`.
pub open spec fn u32_max() -> nat {
    0xffff_ffffnat
}

/// Every run of digits reads as a `u32`.
pub open spec fn runs_parse(runs: Seq<Seq<char>>) -> bool {
    forall|j: int| 0 <= j < runs.len() ==> (#[trigger] parse_unsigned(runs[j], 10, u32_max())) is Some
}

/// The sum of the numbers that the runs of digits read as.
pub open spec fn runs_sum(runs: Seq<Seq<char>>) -> nat
    decreases runs.len(),
{
    if runs.len() == 0 {
        0
    } else {
        runs_sum(runs.drop_last()) + match parse_unsigned(runs.last(), 10, u32_max()) {
            Some(v) => v,
            None => 0,
        }
    }
}

/// Some line of `s` holds `p` as a subsequence: what a search for the pattern
/// `p[0].*p[1].*...` finds, as `.` stops at a newline.
pub open spec fn some_line_spells(s: Seq<char>, p: Seq<char>) -> bool {
    let lines = split_on(s, '\n');
    exists|j: int| 0 <= j < lines.len() && is_subsequence(p, #[trigger] lines[j])
}

/// A line spells `j`, `o`, `y` in order, and no line spells `y j o y`,
/// `o j o y` or `j o y o`.
pub open spec fn is_joyful(s: Seq<char>) -> bool {
    &&& some_line_spells(s, seq!['j', 'o', 'y'])
    &&& !some_line_spells(s, seq!['y', 'j', 'o', 'y'])
    &&& !some_line_spells(s, seq!['o', 'j', 'o', 'y'])
    &&& !some_line_spells(s, seq!['j', 'o', 'y', 'o'])
}

/// Two equal letters with exactly one letter between them, among the ASCII
/// letters of the input.
pub open spec fn has_sandwich(l: Seq<char>) -> bool {
    exists|i: int| 0 <= i && i + 2 < l.len() && #[trigger] l[i] == l[i + 2]
}

/// `c` lies in U+2980 ..= U+2BFF.
pub open spec fn in_math_arrows_range(c: char) -> bool {
    0x2980 <= (c as u32) && (c as u32) <= 0x2bff
}

/// Some character is in U+2980 ..= U+2BFF.
pub open spec fn has_outranged(s: Seq<char>) -> bool {
    exists|i: int| 0 <= i < s.len() && in_math_arrows_range(#[trigger] s[i])
}

/// Some character is marked.
pub open spec fn any_marked(m: Seq<bool>) -> bool {
    exists|i: int| 0 <= i < m.len() && #[trigger] m[i]
}

/// The rules of the game, in order. `None` stands for a run of digits that
/// does not read as a `u32`, which the service answers with a parse error.
pub open spec fn password_verdict(
    s: Seq<char>,
    byte_len: nat,
    decimal_digit: Seq<bool>,
    emoji: Seq<bool>,
    digest: Seq<char>,
) -> Option<PasswordVerdict> {
    let runs = marked_runs(s, decimal_digit, s.len() as int);
    if byte_len < 8 {
        Some(PasswordVerdict::TooShort)
    } else if !(any_in(s, CharClass::AsciiLower) && any_in(s, CharClass::AsciiUpper) && any_in(
        s,
        CharClass::AsciiDigit,
    )) {
        Some(PasswordVerdict::MoreTypesOfChars)
    } else if !some_line_counts(s, CharClass::AsciiDigit, 5) {
        Some(PasswordVerdict::NotEnoughDigits)
    } else if !runs_parse(runs) {
        None
    } else if runs_sum(runs) % 0x1_0000_0000 != 2023 {
        Some(PasswordVerdict::MathIsHard)
    } else if !is_joyful(s) {
        Some(PasswordVerdict::NotJoyful)
    } else if !has_sandwich(ascii_letters(s)) {
        Some(PasswordVerdict::NoSandwich)
    } else if !has_outranged(s) {
        Some(PasswordVerdict::Outranged)
    } else if !any_marked(emoji) {
        Some(PasswordVerdict::NoEmoji)
    } else if !(digest.len() > 0 && digest.last() == 'a') {
        Some(PasswordVerdict::NotACoffeeBrewer)
    } else {
        Some(PasswordVerdict::Nice)
    }
}

fn runs_sum_exec(runs: &Vec<Vec<char>>) -> (res: Option<u32>)
    ensures
        match res {
            Some(v) => runs_parse(char_views(runs@)) && v == runs_sum(char_views(runs@))
                % 0x1_0000_0000,
            None => !runs_parse(char_views(runs@)),
        },
{
    let mut acc: u32 = 0;
    let mut j: usize = 0;
    while j < runs.len()
        invariant
            j <= runs.len(),
            runs_parse(char_views(runs@).take(j as int)),
            acc == runs_sum(char_views(runs@).take(j as int)) % 0x1_0000_0000,
        decreases runs.len() - j,
    {
        let ghost views = char_views(runs@);
        assert(views[j as int] == runs@[j as int]@);
        match parse_unsigned_chars(&runs[j], 10, 0xffff_ffff) {
            Some(v) => {
                proof {
                    let next = views.take(j + 1);
                    assert(next.drop_last() =~= views.take(j as int));
                    assert(next.last() == views[j as int]);
                    assert forall|a: int| 0 <= a < next.len() implies (#[trigger] parse_unsigned(
                        next[a],
                        10,
                        u32_max(),
                    )) is Some by {
                        if a < j {
                            assert(next[a] == views.take(j as int)[a]);
                        }
                    }
                }
                acc = ((acc as u64 + v) % 0x1_0000_0000) as u32;
            },
            None => {
                assert(!runs_parse(views));
                return None;
            },
        }
        j = j + 1;
    }
    assert(char_views(runs@).take(runs.len() as int) =~= char_views(runs@));
    Some(acc)
}

fn some_line_spells_exec(lines: &Vec<Vec<char>>, p: &Vec<char>) -> (res: bool)
    ensures
        res == exists|j: int|
            0 <= j < lines@.len() && is_subsequence(p@, #[trigger] char_views(lines@)[j]),
{
    let mut j: usize = 0;
    while j < lines.len()
        invariant
            j <= lines.len(),
            forall|l: int| 0 <= l < j ==> !is_subsequence(p@, #[trigger] char_views(lines@)[l]),
        decreases lines.len() - j,
    {
        assert(char_views(lines@)[j as int] == lines@[j as int]@);
        if subsequence_exec(p, &lines[j]) {
            return true;
        }
        j = j + 1;
    }
    false
}

fn has_sandwich_exec(l: &Vec<char>) -> (res: bool)
    ensures
        res == has_sandwich(l@),
{
    let mut i: usize = 0;
    while l.len() - i >= 3
        invariant
            i <= l.len(),
            forall|j: int| 0 <= j < i && j + 2 < l.len() ==> #[trigger] l@[j] != l@[j + 2],
        decreases l.len() - i,
    {
        if l[i] == l[i + 2] {
            return true;
        }
        i = i + 1;
    }
    false
}

fn any_marked_exec(m: &Vec<bool>) -> (res: bool)
    ensures
        res == any_marked(m@),
{
    let mut i: usize = 0;
    while i < m.len()
        invariant
            i <= m.len(),
            forall|j: int| 0 <= j < i ==> !#[trigger] m@[j],
        decreases m.len() - i,
    {
        if m[i] {
            return true;
        }
        i = i + 1;
    }
    false
}

/// Judges an input by the rules of the game, from the facts gathered about it.
pub fn judge_password(facts: &PasswordFacts) -> (res: Result<PasswordVerdict, MyError>)
    requires
        facts.decimal_digit.len() == facts.chars.len(),
        facts.emoji.len() == facts.chars.len(),
    ensures
        ({
            let spec_res = password_verdict(
                facts.chars@,
                facts.byte_len as nat,
                facts.decimal_digit@,
                facts.emoji@,
                facts.digest@,
            );
            match res {
                Ok(v) => spec_res == Some(v),
                Err(e) => spec_res is None && e is ParseError,
            }
        }),
{
    let s = &facts.chars;
    if facts.byte_len < 8 {
        return Ok(PasswordVerdict::TooShort);
    }
    if !(any_class(s, CharClass::AsciiLower) && any_class(s, CharClass::AsciiUpper) && any_class(
        s,
        CharClass::AsciiDigit,
    )) {
        return Ok(PasswordVerdict::MoreTypesOfChars);
    }
    let lines = split_chars(s, '\n');
    if !some_line_counts_exec(&lines, CharClass::AsciiDigit, 5) {
        return Ok(PasswordVerdict::NotEnoughDigits);
    }
    let runs = runs_of_marked(s, &facts.decimal_digit);
    match runs_sum_exec(&runs) {
        None => {
            return Err(MyError::ParseError);
        },
        Some(sum) => {
            if sum != 2023 {
                return Ok(PasswordVerdict::MathIsHard);
            }
        },
    }
    let p_joy = vec!['j', 'o', 'y'];
    let p_yjoy = vec!['y', 'j', 'o', 'y'];
    let p_ojoy = vec!['o', 'j', 'o', 'y'];
    let p_joyo = vec!['j', 'o', 'y', 'o'];
    assert(p_joy@ =~= seq!['j', 'o', 'y']);
    assert(p_yjoy@ =~= seq!['y', 'j', 'o', 'y']);
    assert(p_ojoy@ =~= seq!['o', 'j', 'o', 'y']);
    assert(p_joyo@ =~= seq!['j', 'o', 'y', 'o']);
    let joy = some_line_spells_exec(&lines, &p_joy);
    let yjoy = some_line_spells_exec(&lines, &p_yjoy);
    let ojoy = some_line_spells_exec(&lines, &p_ojoy);
    let joyo = some_line_spells_exec(&lines, &p_joyo);
    if !joy || yjoy || ojoy || joyo {
        return Ok(PasswordVerdict::NotJoyful);
    }
    let letters = ascii_letters_exec(s);
    if !has_sandwich_exec(&letters) {
        return Ok(PasswordVerdict::NoSandwich);
    }
    let mut outranged = false;
    let mut i: usize = 0;
    while i < s.len()
        invariant
            i <= s.len(),
            outranged == exists|j: int| 0 <= j < i && in_math_arrows_range(#[trigger] s@[j]),
        decreases s.len() - i,
    {
        let c = s[i];
        if 0x2980u32 <= (c as u32) && (c as u32) <= 0x2bffu32 {
            outranged = true;
        }
        i = i + 1;
    }
    if !outranged {
        return Ok(PasswordVerdict::Outranged);
    }
    if !any_marked_exec(&facts.emoji) {
        return Ok(PasswordVerdict::NoEmoji);
    }
    let d = &facts.digest;
    if !(d.len() > 0 && d[d.len() - 1] == 'a') {
        return Ok(PasswordVerdict::NotACoffeeBrewer);
    }
    Ok(PasswordVerdict::Nice)
}

/// Whether `c` belongs to the `regex` crate's Unicode class `\d`, that is to
/// Unicode's `Nd` (decimal number) category.
pub uninterp spec fn spec_is_decimal_digit(c: char) -> bool;

/// Whether `c` has the Unicode property `Emoji_Presentation`, as the `regex`
/// crate's class `\p{Emoji_Presentation}` decides.
pub uninterp spec fn spec_is_emoji_presentation(c: char) -> bool;

/// The lowercase hex SHA-256 digest of the UTF-8 bytes of a string, as the
/// `sha256` crate's `digest` computes it.
pub uninterp spec fn spec_sha256_hex(input: Seq<char>) -> Seq<char>;

/// Matches `c` against the `regex` crate's `\d`. The contract claims only
/// that the result is the named class membership.
#[verifier::external_body]
fn is_decimal_digit(c: char) -> (res: bool)
    ensures
        res == spec_is_decimal_digit(c),
{
    let mut buf = [0u8; 4];
    regex::Regex::new(r"\d").unwrap().is_match(c.encode_utf8(&mut buf))
}

/// Matches `c` against the `regex` crate's `\p{Emoji_Presentation}`. The
/// contract claims only that the result is the named class membership.
#[verifier::external_body]
fn is_emoji_presentation(c: char) -> (res: bool)
    ensures
        res == spec_is_emoji_presentation(c),
{
    let mut buf = [0u8; 4];
    regex::Regex::new(r"\p{Emoji_Presentation}").unwrap().is_match(c.encode_utf8(&mut buf))
}

/// Calls the `sha256` crate's `digest` on a string. The contract claims only
/// that the result is the named digest of the string.
#[verifier::external_body]
fn sha256_hex(input: &str) -> (res: String)
    ensures
        res@ == spec_sha256_hex(input@),
{
    sha256::digest(input)
}

/// Which characters of `s` are Unicode decimal digits.
pub open spec fn decimal_digit_marks(s: Seq<char>) -> Seq<bool> {
    Seq::new(s.len(), |i: int| spec_is_decimal_digit(s[i]))
}

/// Which characters of `s` have the Emoji_Presentation property.
pub open spec fn emoji_marks(s: Seq<char>) -> Seq<bool> {
    Seq::new(s.len(), |i: int| spec_is_emoji_presentation(s[i]))
}

/// The game's verdict on an input string.
pub open spec fn game_verdict(s: Seq<char>) -> Option<PasswordVerdict> {
    password_verdict(
        s,
        vstd::utf8::encode_utf8(s).len(),
        decimal_digit_marks(s),
        emoji_marks(s),
        spec_sha256_hex(s),
    )
}

/// Gathers the facts about an input that the game needs.
pub fn password_facts(input: &str) -> (facts: PasswordFacts)
    ensures
        facts.chars@ == input@,
        facts.byte_len == vstd::utf8::encode_utf8(input@).len(),
        facts.decimal_digit@ == decimal_digit_marks(input@),
        facts.emoji@ == emoji_marks(input@),
        facts.digest@ == spec_sha256_hex(input@),
{
    let chars = chars_of(input);
    let mut decimal_digit: Vec<bool> = Vec::new();
    let mut emoji: Vec<bool> = Vec::new();
    let mut i: usize = 0;
    while i < chars.len()
        invariant
            i <= chars.len(),
            chars@ == input@,
            decimal_digit@ =~= decimal_digit_marks(input@).take(i as int),
            emoji@ =~= emoji_marks(input@).take(i as int),
        decreases chars.len() - i,
    {
        let c = chars[i];
        decimal_digit.push(is_decimal_digit(c));
        emoji.push(is_emoji_presentation(c));
        i = i + 1;
    }
    let digest = chars_of(sha256_hex(input).as_str());
    let byte_len = input.as_bytes().len();
    PasswordFacts { chars, byte_len, decimal_digit, emoji, digest }
}

/// Plays the password game on the input of a request.
pub fn game_of_the_year(data: &Data) -> (res: Result<PasswordVerdict, MyError>)
    ensures
        match res {
            Ok(v) => game_verdict(data.input@) == Some(v),
            Err(e) => game_verdict(data.input@) is None && e is ParseError,
        },
{
    let facts = password_facts(data.input.as_str());
    judge_password(&facts)
}

/// A string that holds one of the adjacent pairs `ab`, `cd`, `pq`, `xy` is
/// never nice, wherever the pair stands.
pub proof fn lemma_forbidden_pair_is_naughty(s: Seq<char>, i: int)
    requires
        0 <= i,
        i + 1 < s.len(),
        (s[i] == 'a' && s[i + 1] == 'b') || (s[i] == 'c' && s[i + 1] == 'd') || (s[i] == 'p' && s[i + 1]
            == 'q') || (s[i] == 'x' && s[i + 1] == 'y'),
    ensures
        !is_nice(s),
{
    assert(forbidden_pair(s[i], s[i + 1]));
}

/// A nice string holds none of the adjacent pairs `ab`, `cd`, `pq`, `xy`.
pub proof fn lemma_nice_has_no_forbidden_pair(s: Seq<char>)
    requires
        is_nice(s),
    ensures
        forall|i: int|
            0 <= i && i + 1 < s.len() ==> !((#[trigger] s[i] == 'a' && s[i + 1] == 'b') || (s[i] == 'c' && s[i
                + 1] == 'd') || (s[i] == 'p' && s[i + 1] == 'q') || (s[i] == 'x' && s[i + 1] == 'y')),
{
    assert forall|i: int| 0 <= i && i + 1 < s.len() implies !((#[trigger] s[i] == 'a' && s[i + 1] == 'b') || (
    s[i] == 'c' && s[i + 1] == 'd') || (s[i] == 'p' && s[i + 1] == 'q') || (s[i] == 'x' && s[i + 1] == 'y')) by {
        if forbidden_pair(s[i], s[i + 1]) {
            assert(has_forbidden_pair(s));
        }
    }
}

/// The first two rules of the game: an input shorter than 8 bytes is too
/// short; a longer one that lacks an ASCII lowercase letter, an ASCII
/// uppercase letter or an ASCII digit needs more types of characters, and
/// only such an input gets that verdict.
pub proof fn lemma_password_length_and_kinds(
    s: Seq<char>,
    byte_len: nat,
    decimal_digit: Seq<bool>,
    emoji: Seq<bool>,
    digest: Seq<char>,
)
    ensures
        byte_len < 8 ==> password_verdict(s, byte_len, decimal_digit, emoji, digest) == Some(
            PasswordVerdict::TooShort,
        ),
        byte_len >= 8 ==> (password_verdict(s, byte_len, decimal_digit, emoji, digest) == Some(
            PasswordVerdict::MoreTypesOfChars,
        ) <==> !((exists|i: int| 0 <= i < s.len() && 'a' <= #[trigger] s[i] && s[i] <= 'z') && (exists|i: int|
            0 <= i < s.len() && 'A' <= #[trigger] s[i] && s[i] <= 'Z') && (exists|i: int|
            0 <= i < s.len() && '0' <= #[trigger] s[i] && s[i] <= '9'))),
{
    let lower = exists|i: int| 0 <= i < s.len() && 'a' <= #[trigger] s[i] && s[i] <= 'z';
    let upper = exists|i: int| 0 <= i < s.len() && 'A' <= #[trigger] s[i] && s[i] <= 'Z';
    let digit = exists|i: int| 0 <= i < s.len() && '0' <= #[trigger] s[i] && s[i] <= '9';
    assert(any_in(s, CharClass::AsciiLower) == lower) by {
        if lower {
            let i = choose|i: int| 0 <= i < s.len() && 'a' <= #[trigger] s[i] && s[i] <= 'z';
            assert(in_class(CharClass::AsciiLower, s[i]));
        }
    }
    assert(any_in(s, CharClass::AsciiUpper) == upper) by {
        if upper {
            let i = choose|i: int| 0 <= i < s.len() && 'A' <= #[trigger] s[i] && s[i] <= 'Z';
            assert(in_class(CharClass::AsciiUpper, s[i]));
        }
    }
    assert(any_in(s, CharClass::AsciiDigit) == digit) by {
        if digit {
            let i = choose|i: int| 0 <= i < s.len() && '0' <= #[trigger] s[i] && s[i] <= '9';
            assert(in_class(CharClass::AsciiDigit, s[i]));
        }
    }
}

/// A nice password is at least 8 bytes long, holds an ASCII lowercase letter,
/// an ASCII uppercase letter and an ASCII digit, a character in U+2980 ..=
/// U+2BFF and an emoji, and its digest ends in `a`.
pub proof fn lemma_nice_password_keeps_simple_rules(
    s: Seq<char>,
    byte_len: nat,
    decimal_digit: Seq<bool>,
    emoji: Seq<bool>,
    digest: Seq<char>,
)
    requires
        password_verdict(s, byte_len, decimal_digit, emoji, digest) == Some(PasswordVerdict::Nice),
    ensures
        byte_len >= 8,
        exists|i: int| 0 <= i < s.len() && 'a' <= #[trigger] s[i] && s[i] <= 'z',
        exists|i: int| 0 <= i < s.len() && 'A' <= #[trigger] s[i] && s[i] <= 'Z',
        exists|i: int| 0 <= i < s.len() && '0' <= #[trigger] s[i] && s[i] <= '9',
        exists|i: int| 0 <= i < s.len() && 0x2980 <= (#[trigger] s[i] as u32) && (s[i] as u32) <= 0x2bff,
        exists|i: int| 0 <= i < emoji.len() && #[trigger] emoji[i],
        digest.len() > 0 && digest.last() == 'a',
{
    lemma_password_length_and_kinds(s, byte_len, decimal_digit, emoji, digest);
    let i = choose|i: int| 0 <= i < s.len() && in_math_arrows_range(#[trigger] s[i]);
    assert(0x2980 <= (s[i] as u32) && (s[i] as u32) <= 0x2bff);
}

} // verus!
