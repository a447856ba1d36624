//! Printable symbols for digit values: `0`-`9`, then `A`-`Z`.
use vstd::prelude::*;

verus! {

/// Number of digit values that have a printable symbol.
pub const SYMBOL_COUNT: u32 = 36;

/// The symbol of digit value `d`: `'0'`..`'9'` for 0..9, then `'A'` for 10,
/// `'B'` for 11, and so on.
pub open spec fn symbol(d: nat) -> char {
    if d < 10 {
        ((48 + d) as u8) as char
    } else {
        ((65 + (d - 10)) as u8) as char
    }
}

/// Whether `c` is one of the symbols `0`-`9`, `A`-`Z`.
pub open spec fn is_symbol(c: char) -> bool {
    ('0' <= c && c <= '9') || ('A' <= c && c <= 'Z')
}

/// Every digit value below 36 has a symbol.
pub proof fn lemma_symbol(d: nat)
    requires
        d < 36,
    ensures
        is_symbol(symbol(d)),
{
}

/// Renders a digit value as its symbol.
pub fn digit_to_char(d: u32) -> (c: char)
    requires
        d < SYMBOL_COUNT,
    ensures
        c == symbol(d as nat),
        is_symbol(c),
{
    if d < 10 {
        (48u8 + d as u8) as char
    } else {
        (65u8 + (d - 10) as u8) as char
    }
}

} // verus!
