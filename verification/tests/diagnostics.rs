use tiger::error::{end_of_line, excerpt, num_text_size, start_of_line, start_of_window, Error};
use tiger::position::Pos;

fn at(line: u32, column: u32, byte: u64, length: usize) -> Pos {
    Pos::new(line, column, byte, 0, length)
}

#[test]
fn each_error_says_what_is_wrong() {
    assert_eq!(Error::Eof.message(), "end of file");
    assert_eq!(
        Error::InvalidEscape { escape: "q".to_string(), pos: Pos::dummy() }.message(),
        "Invalid escape \\q"
    );
    assert_eq!(Error::Msg("no such file".to_string()).message(), "no such file");
    assert_eq!(Error::Unclosed { pos: Pos::dummy(), token: "string" }.message(), "Unclosed string");
    assert_eq!(
        Error::UnknownToken { pos: Pos::dummy(), start: '#' }.message(),
        "Unexpected start of token `#`"
    );
}

#[test]
fn only_errors_in_the_source_have_a_place() {
    let pos = at(3, 4, 20, 1);
    assert_eq!(Error::Eof.place(), None);
    assert_eq!(Error::Msg(String::new()).place(), None);
    assert_eq!(Error::InvalidEscape { escape: String::new(), pos }.place(), Some(pos));
    assert_eq!(Error::Unclosed { pos, token: "comment" }.place(), Some(pos));
    assert_eq!(Error::UnknownToken { pos, start: '?' }.place(), Some(pos));
}

#[test]
fn the_window_starts_half_a_window_before_the_error() {
    assert_eq!(start_of_window(0), 0);
    assert_eq!(start_of_window(2047), 0);
    assert_eq!(start_of_window(2048), 0);
    assert_eq!(start_of_window(2049), 1);
    assert_eq!(start_of_window(10_000), 7952);
    assert_eq!(start_of_window(u64::MAX), 0);
}

#[test]
fn a_line_lies_between_two_line_ends() {
    let buffer = b"let\nvar x := #\nin x end\n".to_vec();
    assert_eq!(start_of_line(&buffer, 13), 4);
    assert_eq!(end_of_line(&buffer, 13), 14);
    assert_eq!(start_of_line(&buffer, 0), 0);
    assert_eq!(end_of_line(&buffer, 0), 3);
    assert_eq!(start_of_line(&buffer, 4), 4);
    assert_eq!(end_of_line(&buffer, 3), 3);
    assert_eq!(start_of_line(&buffer, buffer.len()), buffer.len());
    assert_eq!(end_of_line(&buffer, buffer.len()), buffer.len());
}

#[test]
fn a_line_without_line_ends_is_the_whole_buffer() {
    let buffer = b"nil".to_vec();
    assert_eq!(start_of_line(&buffer, 2), 0);
    assert_eq!(end_of_line(&buffer, 2), 3);
    let empty: Vec<u8> = Vec::new();
    assert_eq!(start_of_line(&empty, 0), 0);
    assert_eq!(end_of_line(&empty, 0), 0);
}

#[test]
fn the_excerpt_shows_the_line_and_where_to_mark_it() {
    let buffer = b"let\nvar x := #\nin x end\n".to_vec();
    let shown = excerpt(&buffer, &at(2, 9, 13, 1), 0);
    assert_eq!(&buffer[shown.start..shown.end], b"var x := #");
    assert_eq!(shown.margin, 1);
    assert_eq!(shown.indent, 9);
    assert_eq!(shown.marks, 1);
}

#[test]
fn the_mark_stays_within_the_line() {
    let buffer = b"ab\ncd\n".to_vec();
    let shown = excerpt(&buffer, &at(120, 40, 4, 3), 0);
    assert_eq!(&buffer[shown.start..shown.end], b"cd");
    assert_eq!(shown.margin, 3);
    assert_eq!(shown.indent, 2);
    assert_eq!(shown.marks, 3);
}

#[test]
fn an_error_past_what_was_read_shows_the_last_line() {
    let buffer = b"ab\ncd".to_vec();
    let shown = excerpt(&buffer, &at(7, 0, 5000, 1), 100);
    assert_eq!(&buffer[shown.start..shown.end], b"cd");
    assert_eq!(shown.indent, 0);
}

#[test]
fn the_excerpt_counts_from_where_the_window_starts() {
    let buffer = b"x\nfoo bar\ny".to_vec();
    let shown = excerpt(&buffer, &at(1000, 4, 3006, 3), 3000);
    assert_eq!(&buffer[shown.start..shown.end], b"foo bar");
    assert_eq!(shown.margin, 4);
    assert_eq!(shown.indent, 4);
    assert_eq!(num_text_size(1000), 4);
}
