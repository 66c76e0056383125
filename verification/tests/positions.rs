use cypher::position::{byte_to_char, byte_to_line_col, line_col_to_byte};

#[test]
fn line_and_column_of_ascii_offsets() {
    let s = "ab\ncd";
    assert_eq!(byte_to_line_col(s, 0), (0, 0));
    assert_eq!(byte_to_line_col(s, 2), (0, 2));
    assert_eq!(byte_to_line_col(s, 3), (1, 0));
    assert_eq!(byte_to_line_col(s, 4), (1, 1));
}

#[test]
fn offset_past_end_counts_as_end() {
    assert_eq!(byte_to_line_col("ab\ncd", 99), (1, 2));
    assert_eq!(byte_to_char("ab\ncd", 99), 5);
    assert_eq!(line_col_to_byte("ab\ncd", 7, 0), 5);
}

#[test]
fn columns_count_utf16_units() {
    // U+1F600 takes four UTF-8 bytes and two UTF-16 units.
    let s = "a\u{1F600}b";
    assert_eq!(byte_to_line_col(s, 5), (0, 3));
    assert_eq!(byte_to_line_col(s, 6), (0, 4));
    assert_eq!(line_col_to_byte(s, 0, 3), 5);
    assert_eq!(byte_to_char(s, 5), 2);
}

#[test]
fn offset_inside_a_character_moves_to_its_start() {
    let s = "a\u{e9}b"; // the accented letter takes two bytes
    assert_eq!(byte_to_line_col(s, 2), (0, 1));
    assert_eq!(byte_to_char(s, 2), 1);
    assert_eq!(byte_to_line_col(s, 3), (0, 2));
}

#[test]
fn column_past_line_end_runs_on() {
    let s = "ab\ncd";
    assert_eq!(line_col_to_byte(s, 0, 4), 4);
    assert_eq!(line_col_to_byte(s, 1, 9), 5);
}

#[test]
fn line_col_round_trip_on_every_offset() {
    let s = "MATCH (n)\n  /** caf\u{e9} \u{1F600} */\nRETURN n\n";
    for byte in 0..=s.len() + 2 {
        let (line, col) = byte_to_line_col(s, byte);
        let back = line_col_to_byte(s, line, col);
        let mut floor = byte.min(s.len());
        while !s.is_char_boundary(floor) {
            floor -= 1;
        }
        assert_eq!(back, floor, "offset {byte}");
    }
}

#[test]
fn positions_at_characters_round_trip() {
    let s = "a\u{1F600}\n\u{e9}\n\nxyz";
    for (byte, _) in s.char_indices().chain(std::iter::once((s.len(), ' '))) {
        let (line, col) = byte_to_line_col(s, byte);
        assert_eq!(byte_to_line_col(s, line_col_to_byte(s, line, col)), (line, col), "offset {byte}");
    }
}

#[test]
fn later_offsets_never_get_earlier_positions() {
    let s = "ab\n\u{1F600}\u{e9}\n\nxyz";
    let mut prev = (0, 0);
    for byte in 0..=s.len() + 3 {
        let p = byte_to_line_col(s, byte);
        assert!(p >= prev, "offset {byte}");
        prev = p;
    }
}
