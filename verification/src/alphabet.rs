//! The alphabet: thirty-two symbols, digits and upper-case letters without
//! `I`, `L`, `O` and `U`, and the table that reads a character back.
//!
//! Reading is forgiving: a lower-case letter stands for its upper-case form,
//! `O` for `0`, and both `I` and `L` for `1`.

use vstd::prelude::*;

verus! {

/// The symbols in the order of their values.
pub const C32_CHARACTERS: [u8; 32] = [
    0x30, 0x31, 0x32, 0x33, 0x34, 0x35, 0x36, 0x37, 0x38, 0x39, 0x41, 0x42, 0x43, 0x44, 0x45, 0x46,
    0x47, 0x48, 0x4a, 0x4b, 0x4d, 0x4e, 0x50, 0x51, 0x52, 0x53, 0x54, 0x56, 0x57, 0x58, 0x59, 0x5a,
];

/// For each ASCII code the value of the symbol it stands for, or `-1`.
pub const C32_CHARACTERS_MAP: [i8; 128] = [
    -1, -1, -1, -1, -1, -1, -1, -1, -1, -1, -1, -1, -1, -1, -1, -1, -1, -1, -1, -1, -1, -1, -1, -1,
    -1, -1, -1, -1, -1, -1, -1, -1, -1, -1, -1, -1, -1, -1, -1, -1, -1, -1, -1, -1, -1, -1, -1, -1,
    0, 1, 2, 3, 4, 5, 6, 7, 8, 9, -1, -1, -1, -1, -1, -1, -1, 10, 11, 12, 13, 14, 15, 16, 17, 1,
    18, 19, 1, 20, 21, 0, 22, 23, 24, 25, 26, -1, 27, 28, 29, 30, 31, -1, -1, -1, -1, -1, -1, 10,
    11, 12, 13, 14, 15, 16, 17, 1, 18, 19, 1, 20, 21, 0, 22, 23, 24, 25, 26, -1, 27, 28, 29, 30,
    31, -1, -1, -1, -1, -1,
];

/// The symbol that stands for the value `digit`, as an ASCII code.
pub open spec fn symbol(digit: u8) -> u8
    recommends
        digit < 32,
{
    C32_CHARACTERS[digit as int]
}

/// The upper-case form of an ASCII letter; any other code is left alone.
pub open spec fn to_upper(code: u8) -> u8 {
    if 0x61 <= code <= 0x7a {
        (code - 0x20) as u8
    } else {
        code
    }
}

/// The symbol that a character is read as: its upper-case form, with `O`
/// taken for `0`, and `I` and `L` for `1`.
pub open spec fn canonical(code: u8) -> u8 {
    let upper = to_upper(code);
    if upper == 0x4f {
        0x30
    } else if upper == 0x49 || upper == 0x4c {
        0x31
    } else {
        upper
    }
}

/// The place of a symbol in the alphabet, written out run by run: the
/// digits, then the letters in five runs, broken at `I`, `L`, `O` and `U`.
pub open spec fn place(code: u8) -> Option<u8> {
    if 0x30 <= code <= 0x39 {
        Some((code - 0x30) as u8)
    } else if 0x41 <= code <= 0x48 {
        Some((code - 0x41 + 10) as u8)
    } else if 0x4a <= code <= 0x4b {
        Some((code - 0x4a + 18) as u8)
    } else if 0x4d <= code <= 0x4e {
        Some((code - 0x4d + 20) as u8)
    } else if 0x50 <= code <= 0x54 {
        Some((code - 0x50 + 22) as u8)
    } else if 0x56 <= code <= 0x5a {
        Some((code - 0x56 + 27) as u8)
    } else {
        None
    }
}

/// The value that a character stands for, if it stands for one.
pub open spec fn digit_of(code: u8) -> Option<u8> {
    place(canonical(code))
}

/// `place` is the inverse of `symbol`: a code has a place exactly when it is
/// the symbol of that place.
pub proof fn lemma_place_inverts_symbol(code: u8, digit: u8)
    ensures
        place(code) == Some(digit) <==> digit < 32 && symbol(digit) == code,
{
    if digit < 32 {
        lemma_symbol_at(digit);
    }
    if place(code) == Some(digit) {
        lemma_symbol_at(digit);
    }
}

/// The alphabet, entry by entry.
proof fn lemma_symbol_at(d: u8)
    requires
        d < 32,
    ensures
        place(symbol(d)) == Some(d),
        0x30 <= symbol(d) <= 0x5a,
        d < 10 ==> symbol(d) == 0x30 + d,
        10 <= d < 18 ==> symbol(d) == 0x41 + (d - 10),
        18 <= d < 20 ==> symbol(d) == 0x4a + (d - 18),
        20 <= d < 22 ==> symbol(d) == 0x4d + (d - 20),
        22 <= d < 27 ==> symbol(d) == 0x50 + (d - 22),
        27 <= d < 32 ==> symbol(d) == 0x56 + (d - 27),
{
    let a = C32_CHARACTERS;
}

/// A symbol is an ASCII code and stands for its own value.
pub proof fn lemma_symbol_reads_back(digit: u8)
    requires
        digit < 32,
    ensures
        symbol(digit) < 128,
        digit_of(symbol(digit)) == Some(digit),
{
    lemma_symbol_at(digit);
}

/// Whatever a character stands for is a value below 32.
pub proof fn lemma_digit_of_bound(code: u8)
    ensures
        digit_of(code) matches Some(digit) ==> digit < 32,
{
}

/// The symbol for a value below 32.
pub fn symbol_for(digit: u8) -> (code: u8)
    requires
        digit < 32,
    ensures
        code == symbol(digit),
        digit_of(code) == Some(digit),
        code < 128,
{
    proof {
        lemma_symbol_at(digit);
    }
    C32_CHARACTERS[digit as usize]
}

/// The value that a character stands for, aliases and lower case included;
/// `None` for any other byte.
pub fn index_for(code: u8) -> (digit: Option<u8>)
    ensures
        digit == digit_of(code),
        digit matches Some(d) ==> d < 32,
{
    if code >= 128 {
        return None;
    }
    let entry: i8 = C32_CHARACTERS_MAP[code as usize];
    proof {
        lemma_map_entry(code);
    }
    if entry < 0 {
        None
    } else {
        Some(entry as u8)
    }
}

/// What the lookup table holds at an ASCII code is what `digit_of` says.
proof fn lemma_map_entry(code: u8)
    requires
        code < 128,
    ensures
        match digit_of(code) {
            Some(d) => C32_CHARACTERS_MAP[code as int] == d && d < 32,
            None => C32_CHARACTERS_MAP[code as int] == -1,
        },
{
}

} // verus!
