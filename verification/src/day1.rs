use vstd::prelude::*;

use crate::error::MyError;
use crate::numbers::{parse_i32, parse_i32_chars};
use crate::text::{char_views, chars_of, lemma_split_nonempty, split_chars, split_on};

verus! {

/// The pieces of `s` between occurrences of `sep`, as std's
/// `str::split_terminator` yields them: like `split_on`, but an empty last
/// piece is left out.
pub open spec fn split_terminator_on(s: Seq<char>, sep: char) -> Seq<Seq<char>> {
    let p = split_on(s, sep);
    if p.last().len() == 0 {
        p.drop_last()
    } else {
        p
    }
}

/// Every piece reads as an `i32`.
pub open spec fn all_parse_i32(parts: Seq<Seq<char>>) -> bool {
    forall|i: int| 0 <= i < parts.len() ==> (#[trigger] parse_i32(parts[i])) is Some
}

/// The exclusive or of all the numbers that the pieces read as.
pub open spec fn xor_of_parsed(parts: Seq<Seq<char>>) -> i32
    decreases parts.len(),
{
    if parts.len() == 0 {
        0
    } else {
        xor_of_parsed(parts.drop_last()) ^ parse_i32(parts.last()).unwrap()
    }
}

/// The cube of `x` in 32-bit two's complement arithmetic, as `i32::pow`
/// computes it in a release build.
pub open spec fn wrapping_cube(x: i32) -> i32 {
    x.wrapping_mul(x).wrapping_mul(x)
}

/// The answer for the path `s`: a parse error if a piece is not an `i32`, too
/// many pieces if there are more than twenty, else the cube of the exclusive or
/// of all of them.
pub open spec fn cube_bits_spec(s: Seq<char>) -> Result<i32, MyError> {
    let parts = split_terminator_on(s, '/');
    if !all_parse_i32(parts) {
        Err(MyError::ParseError)
    } else if parts.len() > 20 {
        Err(MyError::SledRangeExceed)
    } else {
        Ok(wrapping_cube(xor_of_parsed(parts)))
    }
}

/// The numbers of a path such as `4/8/16`, combined by exclusive or and cubed.
pub fn cube_bits(path: &str) -> (res: Result<i32, MyError>)
    ensures
        match (res, cube_bits_spec(path@)) {
            (Ok(v), Ok(w)) => v == w,
            (Err(MyError::ParseError), Err(MyError::ParseError)) => true,
            (Err(MyError::SledRangeExceed), Err(MyError::SledRangeExceed)) => true,
            _ => false,
        },
{
    let chars = chars_of(path);
    let mut parts = split_chars(&chars, '/');
    proof {
        lemma_split_nonempty(chars@, '/');
    }
    let ghost all = char_views(parts@);
    if parts[parts.len() - 1].len() == 0 {
        parts.pop();
        assert(char_views(parts@) =~= all.drop_last());
    }
    let ghost pieces = char_views(parts@);
    assert(pieces == split_terminator_on(path@, '/'));
    let mut acc: i32 = 0;
    let mut i: usize = 0;
    while i < parts.len()
        invariant
            i <= parts.len(),
            pieces == char_views(parts@),
            pieces == split_terminator_on(path@, '/'),
            all_parse_i32(pieces.take(i as int)),
            acc == xor_of_parsed(pieces.take(i as int)),
        decreases parts.len() - i,
    {
        assert(pieces[i as int] == parts@[i as int]@);
        match parse_i32_chars(&parts[i]) {
            Some(v) => {
                proof {
                    let next = pieces.take(i + 1);
                    assert(next.drop_last() =~= pieces.take(i as int));
                    assert forall|j: int| 0 <= j < next.len() implies (#[trigger] parse_i32(next[j])) is Some by {
                        if j < i {
                            assert(next[j] == pieces.take(i as int)[j]);
                        }
                    }
                }
                acc = acc ^ v;
            },
            None => {
                assert(!all_parse_i32(pieces));
                return Err(MyError::ParseError);
            },
        }
        i = i + 1;
    }
    assert(pieces.take(parts.len() as int) =~= pieces);
    if parts.len() > 20 {
        return Err(MyError::SledRangeExceed);
    }
    Ok(acc.wrapping_mul(acc).wrapping_mul(acc))
}

} // verus!
