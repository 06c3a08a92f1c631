//! The digit alphabet: 94 ordered symbols that define the radix and the
//! value of each digit.
//!
//! The position of a symbol in the alphabet is its digit value, so the
//! alphabet fixes a base-94 positional numeral system. `digit_value` and
//! `symbol_of` are the two directions of the lookup; `lemma_alphabet_bijective`
//! states that they invert each other, so no symbol stands for two values.

use vstd::prelude::*;
use vstd::string::StrSliceExecFns;

verus! {

/// The value of a digit symbol: its 0-based position in the alphabet,
/// or -1 for a character that is not part of the alphabet.
pub open spec fn digit_value(c: char) -> int {
    match c {
        '0' => 0,
        '1' => 1,
        '2' => 2,
        '3' => 3,
        '4' => 4,
        '5' => 5,
        '6' => 6,
        '7' => 7,
        '8' => 8,
        '9' => 9,
        'A' => 10,
        'a' => 11,
        'B' => 12,
        'b' => 13,
        'C' => 14,
        'c' => 15,
        'D' => 16,
        'd' => 17,
        'E' => 18,
        'e' => 19,
        'F' => 20,
        'f' => 21,
        'G' => 22,
        'g' => 23,
        'H' => 24,
        'h' => 25,
        'I' => 26,
        'i' => 27,
        'J' => 28,
        'j' => 29,
        'K' => 30,
        'k' => 31,
        'L' => 32,
        'l' => 33,
        'M' => 34,
        'm' => 35,
        'N' => 36,
        'n' => 37,
        'O' => 38,
        'o' => 39,
        'P' => 40,
        'p' => 41,
        'Q' => 42,
        'q' => 43,
        'R' => 44,
        'r' => 45,
        'S' => 46,
        's' => 47,
        'T' => 48,
        't' => 49,
        'U' => 50,
        'u' => 51,
        'V' => 52,
        'v' => 53,
        'W' => 54,
        'w' => 55,
        'X' => 56,
        'x' => 57,
        'Y' => 58,
        'y' => 59,
        'Z' => 60,
        'z' => 61,
        '!' => 62,
        '"' => 63,
        '#' => 64,
        '$' => 65,
        '%' => 66,
        '&' => 67,
        '\'' => 68,
        '(' => 69,
        ')' => 70,
        '*' => 71,
        '+' => 72,
        ',' => 73,
        '-' => 74,
        '.' => 75,
        '/' => 76,
        ':' => 77,
        ';' => 78,
        '<' => 79,
        '=' => 80,
        '>' => 81,
        '?' => 82,
        '@' => 83,
        '[' => 84,
        '\\' => 85,
        ']' => 86,
        '^' => 87,
        '_' => 88,
        '`' => 89,
        '|' => 90,
        '}' => 91,
        '{' => 92,
        '~' => 93,
        _ => -1,
    }
}

/// One block of the value-to-symbol table (split to keep each
/// definition shallow).
pub open spec fn symbol_table_0(v: int) -> char {
    if v == 0 {
        '0'
    } else if v == 1 {
        '1'
    } else if v == 2 {
        '2'
    } else if v == 3 {
        '3'
    } else if v == 4 {
        '4'
    } else if v == 5 {
        '5'
    } else if v == 6 {
        '6'
    } else if v == 7 {
        '7'
    } else if v == 8 {
        '8'
    } else if v == 9 {
        '9'
    } else if v == 10 {
        'A'
    } else if v == 11 {
        'a'
    } else if v == 12 {
        'B'
    } else if v == 13 {
        'b'
    } else if v == 14 {
        'C'
    } else if v == 15 {
        'c'
    } else {
        ' '
    }
}

pub open spec fn symbol_table_1(v: int) -> char {
    if v == 16 {
        'D'
    } else if v == 17 {
        'd'
    } else if v == 18 {
        'E'
    } else if v == 19 {
        'e'
    } else if v == 20 {
        'F'
    } else if v == 21 {
        'f'
    } else if v == 22 {
        'G'
    } else if v == 23 {
        'g'
    } else if v == 24 {
        'H'
    } else if v == 25 {
        'h'
    } else if v == 26 {
        'I'
    } else if v == 27 {
        'i'
    } else if v == 28 {
        'J'
    } else if v == 29 {
        'j'
    } else if v == 30 {
        'K'
    } else if v == 31 {
        'k'
    } else {
        ' '
    }
}

pub open spec fn symbol_table_2(v: int) -> char {
    if v == 32 {
        'L'
    } else if v == 33 {
        'l'
    } else if v == 34 {
        'M'
    } else if v == 35 {
        'm'
    } else if v == 36 {
        'N'
    } else if v == 37 {
        'n'
    } else if v == 38 {
        'O'
    } else if v == 39 {
        'o'
    } else if v == 40 {
        'P'
    } else if v == 41 {
        'p'
    } else if v == 42 {
        'Q'
    } else if v == 43 {
        'q'
    } else if v == 44 {
        'R'
    } else if v == 45 {
        'r'
    } else if v == 46 {
        'S'
    } else if v == 47 {
        's'
    } else {
        ' '
    }
}

pub open spec fn symbol_table_3(v: int) -> char {
    if v == 48 {
        'T'
    } else if v == 49 {
        't'
    } else if v == 50 {
        'U'
    } else if v == 51 {
        'u'
    } else if v == 52 {
        'V'
    } else if v == 53 {
        'v'
    } else if v == 54 {
        'W'
    } else if v == 55 {
        'w'
    } else if v == 56 {
        'X'
    } else if v == 57 {
        'x'
    } else if v == 58 {
        'Y'
    } else if v == 59 {
        'y'
    } else if v == 60 {
        'Z'
    } else if v == 61 {
        'z'
    } else if v == 62 {
        '!'
    } else if v == 63 {
        '"'
    } else {
        ' '
    }
}

pub open spec fn symbol_table_4(v: int) -> char {
    if v == 64 {
        '#'
    } else if v == 65 {
        '$'
    } else if v == 66 {
        '%'
    } else if v == 67 {
        '&'
    } else if v == 68 {
        '\''
    } else if v == 69 {
        '('
    } else if v == 70 {
        ')'
    } else if v == 71 {
        '*'
    } else if v == 72 {
        '+'
    } else if v == 73 {
        ','
    } else if v == 74 {
        '-'
    } else if v == 75 {
        '.'
    } else if v == 76 {
        '/'
    } else if v == 77 {
        ':'
    } else if v == 78 {
        ';'
    } else if v == 79 {
        '<'
    } else {
        ' '
    }
}

pub open spec fn symbol_table_5(v: int) -> char {
    if v == 80 {
        '='
    } else if v == 81 {
        '>'
    } else if v == 82 {
        '?'
    } else if v == 83 {
        '@'
    } else if v == 84 {
        '['
    } else if v == 85 {
        '\\'
    } else if v == 86 {
        ']'
    } else if v == 87 {
        '^'
    } else if v == 88 {
        '_'
    } else if v == 89 {
        '`'
    } else if v == 90 {
        '|'
    } else if v == 91 {
        '}'
    } else if v == 92 {
        '{'
    } else if v == 93 {
        '~'
    } else {
        ' '
    }
}

/// The symbol of a digit value: the alphabet entry at that 0-based
/// position. Positions outside 0..94 have no symbol; a blank stands in.
pub open spec fn symbol_of(v: int) -> char {
    if v < 16 {
        symbol_table_0(v)
    } else if v < 32 {
        symbol_table_1(v)
    } else if v < 48 {
        symbol_table_2(v)
    } else if v < 64 {
        symbol_table_3(v)
    } else if v < 80 {
        symbol_table_4(v)
    } else if v < 94 {
        symbol_table_5(v)
    } else {
        ' '
    }
}

/// Executable lookup of a digit symbol's value.
pub(crate) fn digit_of_char(c: char) -> (r: Option<u8>)
    ensures
        r matches Some(v) ==> digit_value(c) == v && v < 94,
        r is None <==> digit_value(c) == -1,
{
    match c {
        '0' => Some(0),
        '1' => Some(1),
        '2' => Some(2),
        '3' => Some(3),
        '4' => Some(4),
        '5' => Some(5),
        '6' => Some(6),
        '7' => Some(7),
        '8' => Some(8),
        '9' => Some(9),
        'A' => Some(10),
        'a' => Some(11),
        'B' => Some(12),
        'b' => Some(13),
        'C' => Some(14),
        'c' => Some(15),
        'D' => Some(16),
        'd' => Some(17),
        'E' => Some(18),
        'e' => Some(19),
        'F' => Some(20),
        'f' => Some(21),
        'G' => Some(22),
        'g' => Some(23),
        'H' => Some(24),
        'h' => Some(25),
        'I' => Some(26),
        'i' => Some(27),
        'J' => Some(28),
        'j' => Some(29),
        'K' => Some(30),
        'k' => Some(31),
        'L' => Some(32),
        'l' => Some(33),
        'M' => Some(34),
        'm' => Some(35),
        'N' => Some(36),
        'n' => Some(37),
        'O' => Some(38),
        'o' => Some(39),
        'P' => Some(40),
        'p' => Some(41),
        'Q' => Some(42),
        'q' => Some(43),
        'R' => Some(44),
        'r' => Some(45),
        'S' => Some(46),
        's' => Some(47),
        'T' => Some(48),
        't' => Some(49),
        'U' => Some(50),
        'u' => Some(51),
        'V' => Some(52),
        'v' => Some(53),
        'W' => Some(54),
        'w' => Some(55),
        'X' => Some(56),
        'x' => Some(57),
        'Y' => Some(58),
        'y' => Some(59),
        'Z' => Some(60),
        'z' => Some(61),
        '!' => Some(62),
        '"' => Some(63),
        '#' => Some(64),
        '$' => Some(65),
        '%' => Some(66),
        '&' => Some(67),
        '\'' => Some(68),
        '(' => Some(69),
        ')' => Some(70),
        '*' => Some(71),
        '+' => Some(72),
        ',' => Some(73),
        '-' => Some(74),
        '.' => Some(75),
        '/' => Some(76),
        ':' => Some(77),
        ';' => Some(78),
        '<' => Some(79),
        '=' => Some(80),
        '>' => Some(81),
        '?' => Some(82),
        '@' => Some(83),
        '[' => Some(84),
        '\\' => Some(85),
        ']' => Some(86),
        '^' => Some(87),
        '_' => Some(88),
        '`' => Some(89),
        '|' => Some(90),
        '}' => Some(91),
        '{' => Some(92),
        '~' => Some(93),
        _ => None,
    }
}

/// Executable lookup of the symbol of a digit value.
pub(crate) fn char_of_digit(v: u8) -> (c: char)
    requires
        0 <= v < 94,
    ensures
        c == symbol_of(v as int),
{
    match v {
        0 => '0',
        1 => '1',
        2 => '2',
        3 => '3',
        4 => '4',
        5 => '5',
        6 => '6',
        7 => '7',
        8 => '8',
        9 => '9',
        10 => 'A',
        11 => 'a',
        12 => 'B',
        13 => 'b',
        14 => 'C',
        15 => 'c',
        16 => 'D',
        17 => 'd',
        18 => 'E',
        19 => 'e',
        20 => 'F',
        21 => 'f',
        22 => 'G',
        23 => 'g',
        24 => 'H',
        25 => 'h',
        26 => 'I',
        27 => 'i',
        28 => 'J',
        29 => 'j',
        30 => 'K',
        31 => 'k',
        32 => 'L',
        33 => 'l',
        34 => 'M',
        35 => 'm',
        36 => 'N',
        37 => 'n',
        38 => 'O',
        39 => 'o',
        40 => 'P',
        41 => 'p',
        42 => 'Q',
        43 => 'q',
        44 => 'R',
        45 => 'r',
        46 => 'S',
        47 => 's',
        48 => 'T',
        49 => 't',
        50 => 'U',
        51 => 'u',
        52 => 'V',
        53 => 'v',
        54 => 'W',
        55 => 'w',
        56 => 'X',
        57 => 'x',
        58 => 'Y',
        59 => 'y',
        60 => 'Z',
        61 => 'z',
        62 => '!',
        63 => '"',
        64 => '#',
        65 => '$',
        66 => '%',
        67 => '&',
        68 => '\'',
        69 => '(',
        70 => ')',
        71 => '*',
        72 => '+',
        73 => ',',
        74 => '-',
        75 => '.',
        76 => '/',
        77 => ':',
        78 => ';',
        79 => '<',
        80 => '=',
        81 => '>',
        82 => '?',
        83 => '@',
        84 => '[',
        85 => '\\',
        86 => ']',
        87 => '^',
        88 => '_',
        89 => '`',
        90 => '|',
        91 => '}',
        92 => '{',
        93 => '~',
        _ => ' ',
    }
}

/// Whether a character is one of the 94 digit symbols.
pub open spec fn is_digit(c: char) -> bool {
    digit_value(c) >= 0
}

/// Whether every character of a sequence is a digit symbol.
pub open spec fn all_digits(s: Seq<char>) -> bool {
    forall|i: int| 0 <= i < s.len() ==> is_digit(#[trigger] s[i])
}

/// The two lookup directions agree: each value 0..94 names exactly one
/// symbol, and each digit symbol has exactly that value.
pub proof fn lemma_alphabet_bijective()
    ensures
        forall|v: int| 0 <= v < 94 ==> digit_value(#[trigger] symbol_of(v)) == v,
        forall|c: char| is_digit(c) ==> symbol_of(#[trigger] digit_value(c)) == c,
        forall|c: char| is_digit(c) ==> 0 <= digit_value(c) < 94,
{
}

/// The digit alphabet in value order: entry `v` is the symbol of value `v`.
pub fn get_compa_digits() -> (r: Vec<char>)
    ensures
        r@.len() == 94,
        forall|i: int| 0 <= i < 94 ==> r@[i] == symbol_of(i),
{
    let mut r: Vec<char> = Vec::new();
    let mut v: u8 = 0;
    while v < 94
        invariant
            v <= 94,
            r@.len() == v as int,
            forall|i: int| 0 <= i < v as int ==> r@[i] == symbol_of(i),
        decreases 94 - v as int,
    {
        r.push(char_of_digit(v));
        v = v + 1;
    }
    r
}

/// Whether every character of the string is a digit symbol.
/// The empty string has no characters, so it passes.
pub fn valid_str(string: &str) -> (b: bool)
    ensures
        b == all_digits(string@),
{
    let n = string.unicode_len();
    let mut i: usize = 0;
    while i < n
        invariant
            n == string@.len(),
            i <= n,
            forall|j: int| 0 <= j < i as int ==> is_digit(#[trigger] string@[j]),
        decreases n - i,
    {
        let c = string.get_char(i);
        if digit_of_char(c).is_none() {
            return false;
        }
        i = i + 1;
    }
    true
}

} // verus!
