//! The 5-by-7 pixel font of the on-screen text.

use vstd::prelude::*;

verus! {

/// The pixel drawn at the column of weight `weight` (16 for the leftmost column, 1 for
/// the rightmost) of a row whose lit columns are the set bits of `bits`.
pub open spec fn pixel(bits: u8, weight: int) -> char {
    if (bits as int / weight) % 2 == 1 {
        '#'
    } else {
        '.'
    }
}

/// A glyph row drawn as text: `#` for a lit pixel, `.` for a dark one, left to right.
pub open spec fn row_chars(bits: u8) -> Seq<char> {
    seq![pixel(bits, 16), pixel(bits, 8), pixel(bits, 4), pixel(bits, 2), pixel(bits, 1)]
}

/// The rows of the glyph of `c`, top to bottom, each a 5-bit mask whose bit 4 is the
/// leftmost column; `None` for a character the font does not draw.
pub open spec fn glyph_bits(c: char) -> Option<Seq<u8>> {
    if c == 'A' {
        Some(seq![0b01110, 0b10001, 0b10001, 0b11111, 0b10001, 0b10001, 0b10001])
    } else if c == 'B' {
        Some(seq![0b11110, 0b10001, 0b10001, 0b11110, 0b10001, 0b10001, 0b11110])
    } else if c == 'C' {
        Some(seq![0b01111, 0b10000, 0b10000, 0b10000, 0b10000, 0b10000, 0b01111])
    } else if c == 'D' {
        Some(seq![0b11110, 0b10001, 0b10001, 0b10001, 0b10001, 0b10001, 0b11110])
    } else if c == 'E' {
        Some(seq![0b11111, 0b10000, 0b10000, 0b11110, 0b10000, 0b10000, 0b11111])
    } else if c == 'F' {
        Some(seq![0b11111, 0b10000, 0b10000, 0b11110, 0b10000, 0b10000, 0b10000])
    } else if c == 'G' {
        Some(seq![0b01111, 0b10000, 0b10000, 0b10111, 0b10001, 0b10001, 0b01111])
    } else if c == 'H' {
        Some(seq![0b10001, 0b10001, 0b10001, 0b11111, 0b10001, 0b10001, 0b10001])
    } else if c == 'I' {
        Some(seq![0b11111, 0b00100, 0b00100, 0b00100, 0b00100, 0b00100, 0b11111])
    } else if c == 'J' {
        Some(seq![0b00111, 0b00010, 0b00010, 0b00010, 0b10010, 0b10010, 0b01100])
    } else if c == 'K' {
        Some(seq![0b10001, 0b10010, 0b10100, 0b11000, 0b10100, 0b10010, 0b10001])
    } else if c == 'L' {
        Some(seq![0b10000, 0b10000, 0b10000, 0b10000, 0b10000, 0b10000, 0b11111])
    } else if c == 'M' {
        Some(seq![0b10001, 0b11011, 0b10101, 0b10001, 0b10001, 0b10001, 0b10001])
    } else if c == 'N' {
        Some(seq![0b10001, 0b11001, 0b10101, 0b10011, 0b10001, 0b10001, 0b10001])
    } else if c == 'O' {
        Some(seq![0b01110, 0b10001, 0b10001, 0b10001, 0b10001, 0b10001, 0b01110])
    } else if c == 'P' {
        Some(seq![0b11110, 0b10001, 0b10001, 0b11110, 0b10000, 0b10000, 0b10000])
    } else if c == 'Q' {
        Some(seq![0b01110, 0b10001, 0b10001, 0b10001, 0b10101, 0b10010, 0b01101])
    } else if c == 'R' {
        Some(seq![0b11110, 0b10001, 0b10001, 0b11110, 0b10100, 0b10010, 0b10001])
    } else if c == 'S' {
        Some(seq![0b11111, 0b10000, 0b10000, 0b11111, 0b00001, 0b00001, 0b11111])
    } else if c == 'T' {
        Some(seq![0b11111, 0b00100, 0b00100, 0b00100, 0b00100, 0b00100, 0b00100])
    } else if c == 'U' {
        Some(seq![0b10001, 0b10001, 0b10001, 0b10001, 0b10001, 0b10001, 0b01110])
    } else if c == 'V' {
        Some(seq![0b10001, 0b10001, 0b10001, 0b10001, 0b10001, 0b01010, 0b00100])
    } else if c == 'W' {
        Some(seq![0b10001, 0b10001, 0b10001, 0b10101, 0b10101, 0b11011, 0b10001])
    } else if c == 'X' {
        Some(seq![0b10001, 0b10001, 0b01010, 0b00100, 0b01010, 0b10001, 0b10001])
    } else if c == 'Y' {
        Some(seq![0b10001, 0b10001, 0b01010, 0b00100, 0b00100, 0b00100, 0b00100])
    } else if c == 'Z' {
        Some(seq![0b11111, 0b00001, 0b00010, 0b00100, 0b01000, 0b10000, 0b11111])
    } else if c == '0' {
        Some(seq![0b11111, 0b10001, 0b10011, 0b10101, 0b11001, 0b10001, 0b11111])
    } else if c == '1' {
        Some(seq![0b00100, 0b01100, 0b00100, 0b00100, 0b00100, 0b00100, 0b01110])
    } else if c == '2' {
        Some(seq![0b11111, 0b00001, 0b00001, 0b11111, 0b10000, 0b10000, 0b11111])
    } else if c == '3' {
        Some(seq![0b11111, 0b00001, 0b00001, 0b11111, 0b00001, 0b00001, 0b11111])
    } else if c == '4' {
        Some(seq![0b10001, 0b10001, 0b10001, 0b11111, 0b00001, 0b00001, 0b00001])
    } else if c == '5' {
        Some(seq![0b11111, 0b10000, 0b10000, 0b11111, 0b00001, 0b00001, 0b11111])
    } else if c == '6' {
        Some(seq![0b11111, 0b10000, 0b10000, 0b11111, 0b10001, 0b10001, 0b11111])
    } else if c == '7' {
        Some(seq![0b11111, 0b00001, 0b00010, 0b00100, 0b01000, 0b01000, 0b01000])
    } else if c == '8' {
        Some(seq![0b11111, 0b10001, 0b10001, 0b11111, 0b10001, 0b10001, 0b11111])
    } else if c == '9' {
        Some(seq![0b11111, 0b10001, 0b10001, 0b11111, 0b00001, 0b00001, 0b11111])
    } else if c == '.' {
        Some(seq![0b00000, 0b00000, 0b00000, 0b00000, 0b00000, 0b00100, 0b00100])
    } else {
        None
    }
}

/// The text of a glyph row.
fn glyph_row(bits: u8) -> (row: &'static str)
    requires
        bits < 32,
    ensures
        row@ == row_chars(bits),
{
    match bits {
        0 => {
            proof {
                reveal_strlit(".....");
            }
            "....."
        },
        1 => {
            proof {
                reveal_strlit("....#");
            }
            "....#"
        },
        2 => {
            proof {
                reveal_strlit("...#.");
            }
            "...#."
        },
        3 => {
            proof {
                reveal_strlit("...##");
            }
            "...##"
        },
        4 => {
            proof {
                reveal_strlit("..#..");
            }
            "..#.."
        },
        5 => {
            proof {
                reveal_strlit("..#.#");
            }
            "..#.#"
        },
        6 => {
            proof {
                reveal_strlit("..##.");
            }
            "..##."
        },
        7 => {
            proof {
                reveal_strlit("..###");
            }
            "..###"
        },
        8 => {
            proof {
                reveal_strlit(".#...");
            }
            ".#..."
        },
        9 => {
            proof {
                reveal_strlit(".#..#");
            }
            ".#..#"
        },
        10 => {
            proof {
                reveal_strlit(".#.#.");
            }
            ".#.#."
        },
        11 => {
            proof {
                reveal_strlit(".#.##");
            }
            ".#.##"
        },
        12 => {
            proof {
                reveal_strlit(".##..");
            }
            ".##.."
        },
        13 => {
            proof {
                reveal_strlit(".##.#");
            }
            ".##.#"
        },
        14 => {
            proof {
                reveal_strlit(".###.");
            }
            ".###."
        },
        15 => {
            proof {
                reveal_strlit(".####");
            }
            ".####"
        },
        16 => {
            proof {
                reveal_strlit("#....");
            }
            "#...."
        },
        17 => {
            proof {
                reveal_strlit("#...#");
            }
            "#...#"
        },
        18 => {
            proof {
                reveal_strlit("#..#.");
            }
            "#..#."
        },
        19 => {
            proof {
                reveal_strlit("#..##");
            }
            "#..##"
        },
        20 => {
            proof {
                reveal_strlit("#.#..");
            }
            "#.#.."
        },
        21 => {
            proof {
                reveal_strlit("#.#.#");
            }
            "#.#.#"
        },
        22 => {
            proof {
                reveal_strlit("#.##.");
            }
            "#.##."
        },
        23 => {
            proof {
                reveal_strlit("#.###");
            }
            "#.###"
        },
        24 => {
            proof {
                reveal_strlit("##...");
            }
            "##..."
        },
        25 => {
            proof {
                reveal_strlit("##..#");
            }
            "##..#"
        },
        26 => {
            proof {
                reveal_strlit("##.#.");
            }
            "##.#."
        },
        27 => {
            proof {
                reveal_strlit("##.##");
            }
            "##.##"
        },
        28 => {
            proof {
                reveal_strlit("###..");
            }
            "###.."
        },
        29 => {
            proof {
                reveal_strlit("###.#");
            }
            "###.#"
        },
        30 => {
            proof {
                reveal_strlit("####.");
            }
            "####."
        },
        _ => {
            proof {
                reveal_strlit("#####");
            }
            "#####"
        },
    }
}

/// The text rows of a glyph given by its row masks.
fn glyph_rows(bits: [u8; 7]) -> (rows: [&'static str; 7])
    requires
        forall|i: int| 0 <= i < 7 ==> bits[i] < 32,
    ensures
        forall|i: int| 0 <= i < 7 ==> (#[trigger] rows[i])@ == row_chars(bits[i]),
{
    [
        glyph_row(bits[0]),
        glyph_row(bits[1]),
        glyph_row(bits[2]),
        glyph_row(bits[3]),
        glyph_row(bits[4]),
        glyph_row(bits[5]),
        glyph_row(bits[6]),
    ]
}

/// The seven text rows (`#` lit, `.` dark) of the glyph of `character`, or `None` for
/// a character the font does not draw: the font has the capital letters, the digits
/// and `.`.
pub fn glyph_pattern(character: char) -> (r: Option<[&'static str; 7]>)
    ensures
        r is Some <==> glyph_bits(character) is Some,
        r matches Some(rows) ==> forall|i: int|
            0 <= i < 7 ==> (#[trigger] rows[i])@ == row_chars(glyph_bits(character)->0[i]),
{
    match character {
        'A' => Some(glyph_rows([0b01110, 0b10001, 0b10001, 0b11111, 0b10001, 0b10001, 0b10001])),
        'B' => Some(glyph_rows([0b11110, 0b10001, 0b10001, 0b11110, 0b10001, 0b10001, 0b11110])),
        'C' => Some(glyph_rows([0b01111, 0b10000, 0b10000, 0b10000, 0b10000, 0b10000, 0b01111])),
        'D' => Some(glyph_rows([0b11110, 0b10001, 0b10001, 0b10001, 0b10001, 0b10001, 0b11110])),
        'E' => Some(glyph_rows([0b11111, 0b10000, 0b10000, 0b11110, 0b10000, 0b10000, 0b11111])),
        'F' => Some(glyph_rows([0b11111, 0b10000, 0b10000, 0b11110, 0b10000, 0b10000, 0b10000])),
        'G' => Some(glyph_rows([0b01111, 0b10000, 0b10000, 0b10111, 0b10001, 0b10001, 0b01111])),
        'H' => Some(glyph_rows([0b10001, 0b10001, 0b10001, 0b11111, 0b10001, 0b10001, 0b10001])),
        'I' => Some(glyph_rows([0b11111, 0b00100, 0b00100, 0b00100, 0b00100, 0b00100, 0b11111])),
        'J' => Some(glyph_rows([0b00111, 0b00010, 0b00010, 0b00010, 0b10010, 0b10010, 0b01100])),
        'K' => Some(glyph_rows([0b10001, 0b10010, 0b10100, 0b11000, 0b10100, 0b10010, 0b10001])),
        'L' => Some(glyph_rows([0b10000, 0b10000, 0b10000, 0b10000, 0b10000, 0b10000, 0b11111])),
        'M' => Some(glyph_rows([0b10001, 0b11011, 0b10101, 0b10001, 0b10001, 0b10001, 0b10001])),
        'N' => Some(glyph_rows([0b10001, 0b11001, 0b10101, 0b10011, 0b10001, 0b10001, 0b10001])),
        'O' => Some(glyph_rows([0b01110, 0b10001, 0b10001, 0b10001, 0b10001, 0b10001, 0b01110])),
        'P' => Some(glyph_rows([0b11110, 0b10001, 0b10001, 0b11110, 0b10000, 0b10000, 0b10000])),
        'Q' => Some(glyph_rows([0b01110, 0b10001, 0b10001, 0b10001, 0b10101, 0b10010, 0b01101])),
        'R' => Some(glyph_rows([0b11110, 0b10001, 0b10001, 0b11110, 0b10100, 0b10010, 0b10001])),
        'S' => Some(glyph_rows([0b11111, 0b10000, 0b10000, 0b11111, 0b00001, 0b00001, 0b11111])),
        'T' => Some(glyph_rows([0b11111, 0b00100, 0b00100, 0b00100, 0b00100, 0b00100, 0b00100])),
        'U' => Some(glyph_rows([0b10001, 0b10001, 0b10001, 0b10001, 0b10001, 0b10001, 0b01110])),
        'V' => Some(glyph_rows([0b10001, 0b10001, 0b10001, 0b10001, 0b10001, 0b01010, 0b00100])),
        'W' => Some(glyph_rows([0b10001, 0b10001, 0b10001, 0b10101, 0b10101, 0b11011, 0b10001])),
        'X' => Some(glyph_rows([0b10001, 0b10001, 0b01010, 0b00100, 0b01010, 0b10001, 0b10001])),
        'Y' => Some(glyph_rows([0b10001, 0b10001, 0b01010, 0b00100, 0b00100, 0b00100, 0b00100])),
        'Z' => Some(glyph_rows([0b11111, 0b00001, 0b00010, 0b00100, 0b01000, 0b10000, 0b11111])),
        '0' => Some(glyph_rows([0b11111, 0b10001, 0b10011, 0b10101, 0b11001, 0b10001, 0b11111])),
        '1' => Some(glyph_rows([0b00100, 0b01100, 0b00100, 0b00100, 0b00100, 0b00100, 0b01110])),
        '2' => Some(glyph_rows([0b11111, 0b00001, 0b00001, 0b11111, 0b10000, 0b10000, 0b11111])),
        '3' => Some(glyph_rows([0b11111, 0b00001, 0b00001, 0b11111, 0b00001, 0b00001, 0b11111])),
        '4' => Some(glyph_rows([0b10001, 0b10001, 0b10001, 0b11111, 0b00001, 0b00001, 0b00001])),
        '5' => Some(glyph_rows([0b11111, 0b10000, 0b10000, 0b11111, 0b00001, 0b00001, 0b11111])),
        '6' => Some(glyph_rows([0b11111, 0b10000, 0b10000, 0b11111, 0b10001, 0b10001, 0b11111])),
        '7' => Some(glyph_rows([0b11111, 0b00001, 0b00010, 0b00100, 0b01000, 0b01000, 0b01000])),
        '8' => Some(glyph_rows([0b11111, 0b10001, 0b10001, 0b11111, 0b10001, 0b10001, 0b11111])),
        '9' => Some(glyph_rows([0b11111, 0b10001, 0b10001, 0b11111, 0b00001, 0b00001, 0b11111])),
        '.' => Some(glyph_rows([0b00000, 0b00000, 0b00000, 0b00000, 0b00000, 0b00100, 0b00100])),
        _ => None,
    }
}

} // verus!
