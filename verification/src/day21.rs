use vstd::prelude::*;

use crate::numbers::{parse_unsigned, parse_unsigned_chars};
use crate::text::chars_of;

verus! {

/// Reads the binary digits of an S2 cell id, as `u64::from_str_radix(.., 2)`
/// does; `None` where that fails.
pub fn parse_cell_id(text: &str) -> (res: Option<u64>)
    ensures
        match res {
            Some(v) => parse_unsigned(text@, 2, 0xffff_ffff_ffff_ffff) == Some(v as nat),
            None => parse_unsigned(text@, 2, 0xffff_ffff_ffff_ffff) is None,
        },
{
    let chars = chars_of(text);
    parse_unsigned_chars(&chars, 2, 0xffff_ffff_ffff_ffff)
}

} // verus!
