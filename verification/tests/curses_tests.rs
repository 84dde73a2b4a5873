use cheats::curses::parse_cursor_report;

#[test]
fn well_formed_report_yields_column_and_row() {
    let bytes: Vec<u8> = b"\x1b[12;34R".to_vec();
    assert_eq!(parse_cursor_report(&bytes), Some((34, 12)));
}

#[test]
fn the_last_bracket_starts_the_fields() {
    let bytes: Vec<u8> = b"junk[5\x1b[7;9R".to_vec();
    assert_eq!(parse_cursor_report(&bytes), Some((9, 7)));
}

#[test]
fn a_third_field_is_ignored_beyond_the_second() {
    let bytes: Vec<u8> = b"\x1b[1;2;3R".to_vec();
    assert_eq!(parse_cursor_report(&bytes), Some((2, 1)));
}

#[test]
fn missing_bracket_is_malformed() {
    let bytes: Vec<u8> = b"12;34R".to_vec();
    assert_eq!(parse_cursor_report(&bytes), None);
}

#[test]
fn missing_separator_is_malformed() {
    let bytes: Vec<u8> = b"\x1b[1234R".to_vec();
    assert_eq!(parse_cursor_report(&bytes), None);
}

#[test]
fn non_digits_are_malformed() {
    let bytes: Vec<u8> = b"\x1b[12;3a4R".to_vec();
    assert_eq!(parse_cursor_report(&bytes), None);
}

#[test]
fn empty_fields_are_malformed() {
    let bytes: Vec<u8> = b"\x1b[;34R".to_vec();
    assert_eq!(parse_cursor_report(&bytes), None);
    let bytes: Vec<u8> = b"\x1b[12;R".to_vec();
    assert_eq!(parse_cursor_report(&bytes), None);
}

#[test]
fn out_of_range_coordinates_are_malformed() {
    let bytes: Vec<u8> = b"\x1b[12;70000R".to_vec();
    assert_eq!(parse_cursor_report(&bytes), None);
    let bytes: Vec<u8> = b"\x1b[65535;1R".to_vec();
    assert_eq!(parse_cursor_report(&bytes), Some((1, 65535)));
}
