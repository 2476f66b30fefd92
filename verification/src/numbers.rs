use vstd::prelude::*;

verus! {

/// `c` is one of the ASCII digits `0`..`9`.
pub open spec fn is_ascii_digit(c: char) -> bool {
    '0' <= c && c <= '9'
}

/// `c` is an ASCII digit whose value is below `radix` (radix at most ten).
pub open spec fn is_radix_digit(c: char, radix: nat) -> bool {
    is_ascii_digit(c) && (c as int - '0' as int) < radix
}

/// Every character of `s` is a digit in the given radix.
pub open spec fn all_radix_digits(s: Seq<char>, radix: nat) -> bool {
    forall|i: int| 0 <= i < s.len() ==> is_radix_digit(#[trigger] s[i], radix)
}

/// The number that the digit string `s` denotes in the given radix.
pub open spec fn digits_value(s: Seq<char>, radix: nat) -> nat
    decreases s.len(),
{
    if s.len() == 0 {
        0
    } else {
        digits_value(s.drop_last(), radix) * radix + (s.last() as nat - '0' as nat) as nat
    }
}

/// What std's `from_str_radix` gives for an unsigned integer type whose largest
/// value is `max`: an optional `+`, then one or more digits, and no overflow.
pub open spec fn parse_unsigned(s: Seq<char>, radix: nat, max: nat) -> Option<nat> {
    let body = if s.len() > 0 && s[0] == '+' { s.drop_first() } else { s };
    if body.len() > 0 && all_radix_digits(body, radix) && digits_value(body, radix) <= max {
        Some(digits_value(body, radix))
    } else {
        None
    }
}

/// What std's `str::parse::<i32>` gives: an optional sign, then one or more
/// decimal digits, and a value that fits in an `i32`.
pub open spec fn parse_i32(s: Seq<char>) -> Option<i32> {
    let neg = s.len() > 0 && s[0] == '-';
    let body = if s.len() > 0 && (s[0] == '+' || s[0] == '-') { s.drop_first() } else { s };
    if body.len() > 0 && all_radix_digits(body, 10) {
        let v: int = if neg { -(digits_value(body, 10) as int) } else { digits_value(body, 10) as int };
        if i32::MIN <= v && v <= i32::MAX { Some(v as i32) } else { None }
    } else {
        None
    }
}

/// The decimal digit character of a value below ten.
pub open spec fn digit_char(d: nat) -> char {
    ((d + '0' as nat) as u8) as char
}

/// The decimal representation of `n`, without sign or leading zeros.
pub open spec fn decimal(n: nat) -> Seq<char>
    decreases n,
{
    if n < 10 {
        seq![digit_char(n)]
    } else {
        decimal(n / 10).push(digit_char(n % 10))
    }
}

proof fn lemma_prefix_value_le(s: Seq<char>, k: int, radix: nat)
    requires
        0 <= k <= s.len(),
        radix >= 1,
        all_radix_digits(s, radix),
    ensures
        digits_value(s.take(k), radix) <= digits_value(s, radix),
    decreases s.len(),
{
    if k < s.len() {
        assert(all_radix_digits(s.drop_last(), radix)) by {
            assert forall|i: int| 0 <= i < s.drop_last().len() implies is_radix_digit(
                #[trigger] s.drop_last()[i],
                radix,
            ) by {
                assert(s.drop_last()[i] == s[i]);
            }
        }
        lemma_prefix_value_le(s.drop_last(), k, radix);
        assert(s.drop_last().take(k) =~= s.take(k));
        assert(digits_value(s, radix) == digits_value(s.drop_last(), radix) * radix + (s.last() as nat - '0' as nat) as nat);
        assert(digits_value(s.drop_last(), radix) * radix >= digits_value(s.drop_last(), radix)) by (nonlinear_arith)
            requires radix >= 1;
    } else {
        assert(s.take(k) =~= s);
    }
}

/// Reads the digits `s[start..]` in the given radix; `None` when there are none,
/// when one of them is not a digit, or when the value exceeds `max`.
pub fn parse_digits(s: &Vec<char>, start: usize, radix: u8, max: u64) -> (res: Option<u64>)
    requires
        start <= s.len(),
        2 <= radix <= 10,
    ensures
        ({
            let body = s@.skip(start as int);
            match res {
                Some(v) => body.len() > 0 && all_radix_digits(body, radix as nat)
                    && v == digits_value(body, radix as nat) && v <= max,
                None => !(body.len() > 0 && all_radix_digits(body, radix as nat)
                    && digits_value(body, radix as nat) <= max),
            }
        }),
{
    let ghost body = s@.skip(start as int);
    if start == s.len() {
        return None;
    }
    let mut acc: u128 = 0;
    let mut i: usize = start;
    while i < s.len()
        invariant
            start <= i <= s.len(),
            body == s@.skip(start as int),
            all_radix_digits(body.take(i - start), radix as nat),
            acc as nat == digits_value(body.take(i - start), radix as nat),
            acc <= max,
            2 <= radix <= 10,
        decreases s.len() - i,
    {
        let c = s[i];
        assert(body[i - start] == c);
        if !(c >= '0' && c <= '9' && ((c as u32) - ('0' as u32)) < radix as u32) {
            assert(!all_radix_digits(body, radix as nat)) by {
                assert(!is_radix_digit(body[i - start], radix as nat));
            }
            return None;
        }
        let d: u128 = ((c as u32) - ('0' as u32)) as u128;
        let ghost prev = body.take(i - start);
        assert(acc * (radix as u128) <= 0xffff_ffff_ffff_ffffu128 * 10) by (nonlinear_arith)
            requires acc <= 0xffff_ffff_ffff_ffffu128, radix <= 10;
        let next_acc = acc * (radix as u128) + d;
        proof {
            let nb = body.take(i + 1 - start);
            assert(nb.drop_last() =~= prev);
            assert(nb.last() == c);
            assert forall|j: int| 0 <= j < nb.len() implies is_radix_digit(#[trigger] nb[j], radix as nat) by {
                if j < nb.len() - 1 {
                    assert(nb[j] == prev[j]);
                }
            }
        }
        if next_acc > max as u128 {
            proof {
                let nb = body.take(i + 1 - start);
                if all_radix_digits(body, radix as nat) {
                    lemma_prefix_value_le(body, i + 1 - start, radix as nat);
                }
            }
            return None;
        }
        acc = next_acc;
        i = i + 1;
    }
    assert(body.take(i - start) =~= body);
    Some(acc as u64)
}

/// Parses `s` the way std's `from_str_radix` does for an unsigned type whose
/// largest value is `max`.
pub fn parse_unsigned_chars(s: &Vec<char>, radix: u8, max: u64) -> (res: Option<u64>)
    requires
        2 <= radix <= 10,
    ensures
        match res {
            Some(v) => parse_unsigned(s@, radix as nat, max as nat) == Some(v as nat),
            None => parse_unsigned(s@, radix as nat, max as nat) is None,
        },
{
    let start: usize = if s.len() > 0 && s[0] == '+' { 1 } else { 0 };
    assert(s@.skip(0) =~= s@);
    assert(s@.len() > 0 ==> s@.skip(1) =~= s@.drop_first());
    parse_digits(s, start, radix, max)
}

/// Parses `s` the way std's `str::parse::<i32>` does.
pub fn parse_i32_chars(s: &Vec<char>) -> (res: Option<i32>)
    ensures
        res == parse_i32(s@),
{
    let neg = s.len() > 0 && s[0] == '-';
    let start: usize = if s.len() > 0 && (s[0] == '+' || s[0] == '-') { 1 } else { 0 };
    assert(s@.skip(0) =~= s@);
    assert(s@.len() > 0 ==> s@.skip(1) =~= s@.drop_first());
    let limit: u64 = if neg { 2147483648 } else { 2147483647 };
    match parse_digits(s, start, 10, limit) {
        Some(v) => {
            if neg {
                Some((0i64 - v as i64) as i32)
            } else {
                Some(v as i32)
            }
        },
        None => None,
    }
}

/// The decimal digits of `n`.
pub fn decimal_chars(n: u64) -> (res: Vec<char>)
    ensures
        res@ == decimal(n as nat),
    decreases n,
{
    let d = ((n % 10) as u8 + 48u8) as char;
    assert(d == digit_char((n % 10) as nat));
    if n < 10 {
        let mut v: Vec<char> = Vec::new();
        v.push(d);
        assert(v@ =~= seq![d]);
        v
    } else {
        let mut v = decimal_chars(n / 10);
        v.push(d);
        v
    }
}

/// The decimal text of `n`, as std's `Display` writes an unsigned integer.
pub fn decimal_string(n: u64) -> (res: String)
    ensures
        res@ == decimal(n as nat),
{
    let v = decimal_chars(n);
    crate::text::string_from_chars(&v)
}

} // verus!
