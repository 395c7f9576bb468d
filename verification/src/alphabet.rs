//! The 32-symbol alphabet and its inverse.

use vstd::prelude::*;

verus! {

/// The filler that marks the unused positions of an undersized group (`=`).
pub const PAD_CHAR: u8 = 61;

/// The symbols, indexed by the 5-bit value each stands for:
/// `ybndrfg8ejkmcpqxot1uwisza345h769`.
pub const ALPHA: [u8; 32] = [
    121, 98, 110, 100, 114, 102, 103, 56, 101, 106, 107, 109, 99, 112, 113, 120,
    111, 116, 49, 117, 119, 105, 115, 122, 97, 51, 52, 53, 104, 55, 54, 57,
];

/// What the inverse table holds for a character that is no symbol.
pub const NO_SYMBOL: u8 = 255;

/// The inverse of `ALPHA`, indexed by the character: the value that the
/// character stands for, or `NO_SYMBOL`.
pub const DE_ALPHA: [u8; 256] = [
    255, 255, 255, 255, 255, 255, 255, 255, 255, 255, 255, 255, 255, 255, 255, 255,
    255, 255, 255, 255, 255, 255, 255, 255, 255, 255, 255, 255, 255, 255, 255, 255,
    255, 255, 255, 255, 255, 255, 255, 255, 255, 255, 255, 255, 255, 255, 255, 255,
    255, 18, 255, 25, 26, 27, 30, 29, 7, 31, 255, 255, 255, 255, 255, 255,
    255, 255, 255, 255, 255, 255, 255, 255, 255, 255, 255, 255, 255, 255, 255, 255,
    255, 255, 255, 255, 255, 255, 255, 255, 255, 255, 255, 255, 255, 255, 255, 255,
    255, 24, 1, 12, 3, 8, 5, 6, 28, 21, 9, 10, 255, 11, 2, 16,
    13, 14, 4, 22, 17, 19, 255, 20, 15, 0, 23, 255, 255, 255, 255, 255,
    255, 255, 255, 255, 255, 255, 255, 255, 255, 255, 255, 255, 255, 255, 255, 255,
    255, 255, 255, 255, 255, 255, 255, 255, 255, 255, 255, 255, 255, 255, 255, 255,
    255, 255, 255, 255, 255, 255, 255, 255, 255, 255, 255, 255, 255, 255, 255, 255,
    255, 255, 255, 255, 255, 255, 255, 255, 255, 255, 255, 255, 255, 255, 255, 255,
    255, 255, 255, 255, 255, 255, 255, 255, 255, 255, 255, 255, 255, 255, 255, 255,
    255, 255, 255, 255, 255, 255, 255, 255, 255, 255, 255, 255, 255, 255, 255, 255,
    255, 255, 255, 255, 255, 255, 255, 255, 255, 255, 255, 255, 255, 255, 255, 255,
    255, 255, 255, 255, 255, 255, 255, 255, 255, 255, 255, 255, 255, 255, 255, 255,
];

/// Whether `c` is one of the 32 symbols.
pub open spec fn is_symbol(c: u8) -> bool {
    exists|v: int| 0 <= v < 32 && #[trigger] ALPHA@[v] == c
}

/// The 5-bit value that the symbol `c` stands for.
pub open spec fn value_of(c: u8) -> u8
    recommends
        is_symbol(c),
{
    choose|v: u8| v < 32 && #[trigger] ALPHA@[v as int] == c
}

/// The lookup of a character in the alphabet: its value, or nothing.
pub open spec fn spec_decode_symbol(c: u8) -> Option<u8> {
    if is_symbol(c) {
        Some(value_of(c))
    } else {
        None
    }
}

/// No character occurs twice in the alphabet.
pub proof fn lemma_alphabet_distinct()
    ensures
        forall|i: int, j: int|
            0 <= i < 32 && 0 <= j < 32 && #[trigger] ALPHA@[i] == #[trigger] ALPHA@[j] ==> i == j,
{
}

/// The two tables are inverse to each other: looking up the symbol of a
/// value gives the value back.
pub proof fn lemma_value_of_symbol(v: u8)
    requires
        v < 32,
    ensures
        is_symbol(ALPHA@[v as int]),
        value_of(ALPHA@[v as int]) == v,
        spec_decode_symbol(ALPHA@[v as int]) == Some(v),
        ALPHA@[v as int] != PAD_CHAR,
{
    lemma_alphabet_distinct();
    let c = ALPHA@[v as int];
    assert(v < 32 && ALPHA@[v as int] == c);
}

/// The two tables are inverse to each other: the value of a symbol selects
/// that symbol.
pub proof fn lemma_symbol_of_value(c: u8)
    requires
        is_symbol(c),
    ensures
        value_of(c) < 32,
        ALPHA@[value_of(c) as int] == c,
        c != PAD_CHAR,
{
    let w = choose|v: int| 0 <= v < 32 && #[trigger] ALPHA@[v] == c;
    let v = w as u8;
    assert(v < 32 && ALPHA@[v as int] == c);
}

/// The pad character is not a symbol.
pub proof fn lemma_pad_is_no_symbol()
    ensures
        !is_symbol(PAD_CHAR),
{
    if is_symbol(PAD_CHAR) {
        lemma_symbol_of_value(PAD_CHAR);
    }
}

/// The symbol for a 5-bit value.
pub fn encode_symbol(value: u8) -> (c: u8)
    requires
        value < 32,
    ensures
        c == ALPHA@[value as int],
{
    ALPHA[value as usize]
}

/// The inverse table is the exact inverse of the alphabet: it holds a value
/// for the 32 symbols and for no other character, and the value of a symbol
/// selects that symbol.
pub proof fn lemma_inverse_table(c: u8)
    ensures
        is_symbol(c) <==> DE_ALPHA@[c as int] < 32,
        is_symbol(c) ==> DE_ALPHA@[c as int] == value_of(c),
        !is_symbol(c) ==> DE_ALPHA@[c as int] == NO_SYMBOL,
{
    let v = DE_ALPHA@[c as int];
    if v < 32 {
        assert(ALPHA@[v as int] == c);
        lemma_value_of_symbol(v);
    }
    if is_symbol(c) {
        lemma_symbol_of_value(c);
    }
}

/// Looks a character up in the alphabet.
pub fn decode_symbol(c: u8) -> (r: Option<u8>)
    ensures
        r == spec_decode_symbol(c),
{
    let v = DE_ALPHA[c as usize];
    proof {
        lemma_inverse_table(c);
    }
    if v < 32 {
        Some(v)
    } else {
        None
    }
}

} // verus!
