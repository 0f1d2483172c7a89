use datavalue::reader::{SerialReader, StringReader};

#[test]
fn serial_reader_tracks_rows_and_columns() {
    let mut r = SerialReader::new("ab\nc");
    assert!(r.has_more());
    assert_eq!(r.next(), 'a');
    assert_eq!(r.next(), 'b');
    assert_eq!((r.row, r.col), (0, 2));
    assert_eq!(r.next(), '\n');
    assert_eq!((r.row, r.col), (1, 0));
    assert_eq!(r.next(), 'c');
    assert_eq!((r.row, r.col), (1, 1));
    assert!(!r.has_more());
    assert_eq!(r.next(), ' ');
    assert_eq!(r.next(), ' ');
}

#[test]
fn serial_reader_back_rereads() {
    let mut r = SerialReader::new("xy");
    assert_eq!(r.next(), 'x');
    assert_eq!(r.next(), 'y');
    r.back();
    assert_eq!(r.col, 1);
    assert!(r.has_more());
    assert_eq!(r.next(), 'y');
    assert_eq!(r.col, 2);
}

#[test]
fn serial_reader_back_over_newline_keeps_row() {
    let mut r = SerialReader::new("\nz");
    assert_eq!(r.next(), '\n');
    r.back();
    assert_eq!((r.row, r.col), (1, 0));
    assert_eq!(r.next(), '\n');
    assert_eq!(r.row, 2);
}

#[test]
fn serial_reader_counts_chars_not_bytes() {
    let mut r = SerialReader::new("é!");
    assert_eq!(r.next(), 'é');
    assert_eq!(r.next(), '!');
    assert!(!r.has_more());
}

#[test]
fn string_reader_ends_with_nul() {
    let mut r = StringReader::new("hi");
    assert_eq!(r.next(), 'h');
    assert_eq!(r.next(), 'i');
    assert_eq!(r.next(), '\0');
    assert_eq!(r.next(), '\0');
}
