//! The letter codec: every letter of the alphabet has a small ordinal.

use vstd::prelude::*;

verus! {

/// Ordinal of the letter A with diaeresis.
pub const AE: u64 = 27;

/// Ordinal of the letter A with ring.
pub const AA: u64 = 28;

/// Ordinal of the letter O with diaeresis.
pub const OE: u64 = 29;

/// Distance between the code point of a plain letter and its ordinal.
pub const ORD_OFFSET: u64 = 64;

/// Highest ordinal that stands for a letter.
pub const MAX_ORDINAL: u64 = 29;

/// The alphabet: `A` to `Z` and the three accented letters.
pub open spec fn is_letter(c: char) -> bool {
    ('A' <= c && c <= 'Z') || c == '\u{c4}' || c == '\u{c5}' || c == '\u{d6}'
}

/// The ordinal of a character: 1 to 29 for a letter, 0 for anything else.
pub open spec fn ordinal(c: char) -> u64 {
    if c == '\u{c4}' {
        AE
    } else if c == '\u{c5}' {
        AA
    } else if c == '\u{d6}' {
        OE
    } else if 'A' <= c && c <= 'Z' {
        (c as u64 - ORD_OFFSET) as u64
    } else {
        0
    }
}

/// The letter that an ordinal stands for.
pub open spec fn letter_of(k: u64) -> char
    recommends
        1 <= k <= MAX_ORDINAL,
{
    if k == AE {
        '\u{c4}'
    } else if k == AA {
        '\u{c5}'
    } else if k == OE {
        '\u{d6}'
    } else {
        (k + ORD_OFFSET) as u8 as char
    }
}

/// Encodes a character as its ordinal; a character outside the alphabet
/// gives 0, which no letter has.
pub fn to_bits(l: char) -> (ord: u64)
    ensures
        ord == ordinal(l),
        ord <= MAX_ORDINAL,
        ord != 0 <==> is_letter(l),
{
    if l == '\u{c4}' {
        AE
    } else if l == '\u{c5}' {
        AA
    } else if l == '\u{d6}' {
        OE
    } else if 'A' <= l && l <= 'Z' {
        l as u64 - ORD_OFFSET
    } else {
        0
    }
}

/// Decodes an ordinal into its letter.
pub fn from_bits(l: u64) -> (c: char)
    requires
        1 <= l <= MAX_ORDINAL,
    ensures
        c == letter_of(l),
        is_letter(c),
        ordinal(c) == l,
{
    if l == AE {
        '\u{c4}'
    } else if l == AA {
        '\u{c5}'
    } else if l == OE {
        '\u{d6}'
    } else {
        (l + ORD_OFFSET) as u8 as char
    }
}

/// The letter that an ordinal stands for, as a text of one character.
pub fn letter_text(l: u64) -> (text: &'static str)
    requires
        1 <= l <= MAX_ORDINAL,
    ensures
        text@ == seq![letter_of(l)],
{
    proof {
        reveal_strlit("A");
        reveal_strlit("B");
        reveal_strlit("C");
        reveal_strlit("D");
        reveal_strlit("E");
        reveal_strlit("F");
        reveal_strlit("G");
        reveal_strlit("H");
        reveal_strlit("I");
        reveal_strlit("J");
        reveal_strlit("K");
        reveal_strlit("L");
        reveal_strlit("M");
        reveal_strlit("N");
        reveal_strlit("O");
        reveal_strlit("P");
        reveal_strlit("Q");
        reveal_strlit("R");
        reveal_strlit("S");
        reveal_strlit("T");
        reveal_strlit("U");
        reveal_strlit("V");
        reveal_strlit("W");
        reveal_strlit("X");
        reveal_strlit("Y");
        reveal_strlit("Z");
        reveal_strlit("\u{c4}");
        reveal_strlit("\u{c5}");
        reveal_strlit("\u{d6}");
    }
    let text = match l {
        1 => "A",
        2 => "B",
        3 => "C",
        4 => "D",
        5 => "E",
        6 => "F",
        7 => "G",
        8 => "H",
        9 => "I",
        10 => "J",
        11 => "K",
        12 => "L",
        13 => "M",
        14 => "N",
        15 => "O",
        16 => "P",
        17 => "Q",
        18 => "R",
        19 => "S",
        20 => "T",
        21 => "U",
        22 => "V",
        23 => "W",
        24 => "X",
        25 => "Y",
        26 => "Z",
        27 => "\u{c4}",
        28 => "\u{c5}",
        _ => "\u{d6}",
    };
    assert(text@ =~= seq![letter_of(l)]);
    text
}

/// Decoding after encoding gives the letter back.
pub proof fn lemma_letter_round_trip(c: char)
    requires
        is_letter(c),
    ensures
        1 <= ordinal(c) <= MAX_ORDINAL,
        letter_of(ordinal(c)) == c,
{
}

/// Encoding after decoding gives the ordinal back.
pub proof fn lemma_ordinal_round_trip(k: u64)
    requires
        1 <= k <= MAX_ORDINAL,
    ensures
        is_letter(letter_of(k)),
        ordinal(letter_of(k)) == k,
{
}

} // verus!
