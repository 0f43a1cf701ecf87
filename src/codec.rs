//! The alphabet: a bijection between 32 letters and the codes `0..32`.
use vstd::prelude::*;

verus! {

/// Number of letters in the alphabet, and the bit width of a `CharSet`.
pub const ALPHABET_SIZE: u8 = 32;

/// The code of each letter of the alphabet; `None` for any other character.
pub open spec fn code_of(c: char) -> Option<u8> {
    match c {
        'a' => Some(0u8),
        'e' => Some(1u8),
        'i' => Some(2u8),
        'o' => Some(3u8),
        'r' => Some(4u8),
        'n' => Some(5u8),
        'l' => Some(6u8),
        's' => Some(7u8),
        't' => Some(8u8),
        'u' => Some(9u8),
        'p' => Some(10u8),
        'c' => Some(11u8),
        'd' => Some(12u8),
        'k' => Some(13u8),
        'y' => Some(14u8),
        'g' => Some(15u8),
        'h' => Some(16u8),
        'b' => Some(17u8),
        'v' => Some(18u8),
        'f' => Some(19u8),
        'w' => Some(20u8),
        'z' => Some(21u8),
        'j' => Some(22u8),
        'x' => Some(23u8),
        'A' => Some(24u8),
        'B' => Some(25u8),
        'C' => Some(26u8),
        'D' => Some(27u8),
        'E' => Some(28u8),
        'F' => Some(29u8),
        'm' => Some(30u8),
        'q' => Some(31u8),
        _ => None,
    }
}

/// The letter of each code below 32; `None` for any other value.
pub open spec fn char_of(code: u8) -> Option<char> {
    match code {
        0u8 => Some('a'),
        1u8 => Some('e'),
        2u8 => Some('i'),
        3u8 => Some('o'),
        4u8 => Some('r'),
        5u8 => Some('n'),
        6u8 => Some('l'),
        7u8 => Some('s'),
        8u8 => Some('t'),
        9u8 => Some('u'),
        10u8 => Some('p'),
        11u8 => Some('c'),
        12u8 => Some('d'),
        13u8 => Some('k'),
        14u8 => Some('y'),
        15u8 => Some('g'),
        16u8 => Some('h'),
        17u8 => Some('b'),
        18u8 => Some('v'),
        19u8 => Some('f'),
        20u8 => Some('w'),
        21u8 => Some('z'),
        22u8 => Some('j'),
        23u8 => Some('x'),
        24u8 => Some('A'),
        25u8 => Some('B'),
        26u8 => Some('C'),
        27u8 => Some('D'),
        28u8 => Some('E'),
        29u8 => Some('F'),
        30u8 => Some('m'),
        31u8 => Some('q'),
        _ => None,
    }
}

pub fn encode(from: char) -> (r: Option<u8>)
    ensures
        r == code_of(from),
{
    match from {
        'a' => Some(0),
        'e' => Some(1),
        'i' => Some(2),
        'o' => Some(3),
        'r' => Some(4),
        'n' => Some(5),
        'l' => Some(6),
        's' => Some(7),
        't' => Some(8),
        'u' => Some(9),
        'p' => Some(10),
        'c' => Some(11),
        'd' => Some(12),
        'k' => Some(13),
        'y' => Some(14),
        'g' => Some(15),
        'h' => Some(16),
        'b' => Some(17),
        'v' => Some(18),
        'f' => Some(19),
        'w' => Some(20),
        'z' => Some(21),
        'j' => Some(22),
        'x' => Some(23),
        'A' => Some(24),
        'B' => Some(25),
        'C' => Some(26),
        'D' => Some(27),
        'E' => Some(28),
        'F' => Some(29),
        'm' => Some(30),
        'q' => Some(31),
        _ => None,
    }
}

pub fn decode(code: u8) -> (r: Option<char>)
    ensures
        r == char_of(code),
{
    match code {
        0 => Some('a'),
        1 => Some('e'),
        2 => Some('i'),
        3 => Some('o'),
        4 => Some('r'),
        5 => Some('n'),
        6 => Some('l'),
        7 => Some('s'),
        8 => Some('t'),
        9 => Some('u'),
        10 => Some('p'),
        11 => Some('c'),
        12 => Some('d'),
        13 => Some('k'),
        14 => Some('y'),
        15 => Some('g'),
        16 => Some('h'),
        17 => Some('b'),
        18 => Some('v'),
        19 => Some('f'),
        20 => Some('w'),
        21 => Some('z'),
        22 => Some('j'),
        23 => Some('x'),
        24 => Some('A'),
        25 => Some('B'),
        26 => Some('C'),
        27 => Some('D'),
        28 => Some('E'),
        29 => Some('F'),
        30 => Some('m'),
        31 => Some('q'),
        _ => None,
    }
}

/// Every letter of the alphabet gets a code below 32 that decodes back to
/// it, and every code below 32 decodes to a letter that encodes back to it.
pub proof fn lemma_codec_round_trip()
    ensures
        forall|c: char| #[trigger] code_of(c) matches Some(k) ==> k < 32 && char_of(k) == Some(c),
        forall|k: u8| k < 32 ==> (#[trigger] char_of(k) matches Some(c) && code_of(c) == Some(k)),
        forall|k: u8| k >= 32 ==> #[trigger] char_of(k) is None,
{
}

} // verus!
