use adventure_quest::glyphs::glyph_pattern;

#[test]
fn glyph_pattern_draws_capital_letters() {
    assert_eq!(
        glyph_pattern('A'),
        Some([".###.", "#...#", "#...#", "#####", "#...#", "#...#", "#...#"])
    );
    assert_eq!(
        glyph_pattern('Q'),
        Some([".###.", "#...#", "#...#", "#...#", "#.#.#", "#..#.", ".##.#"])
    );
}

#[test]
fn glyph_pattern_draws_digits_and_period() {
    assert_eq!(
        glyph_pattern('0'),
        Some(["#####", "#...#", "#..##", "#.#.#", "##..#", "#...#", "#####"])
    );
    assert_eq!(
        glyph_pattern('.'),
        Some([".....", ".....", ".....", ".....", ".....", "..#..", "..#.."])
    );
}

#[test]
fn glyph_pattern_has_no_lowercase_space_or_symbols() {
    assert_eq!(glyph_pattern('a'), None);
    assert_eq!(glyph_pattern(' '), None);
    assert_eq!(glyph_pattern('!'), None);
}

#[test]
fn glyph_pattern_rows_are_five_pixels_of_hash_or_dot() {
    for c in "ABCDEFGHIJKLMNOPQRSTUVWXYZ0123456789.".chars() {
        let rows = glyph_pattern(c).expect("font draws this character");
        for row in rows {
            assert_eq!(row.len(), 5);
            assert!(row.bytes().all(|b| b == b'#' || b == b'.'));
        }
    }
}
