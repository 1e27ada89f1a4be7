use rust_solver::text::char_is_whitespace;
use rust_solver::wordfile::parse_word_list;

#[test]
fn solution_file_takes_first_of_two_fields_and_skips_header() {
    let contents = "Word Count\ncrane 12\r\nslate\t7\n\nbad line here\nzebra 3";
    assert_eq!(
        parse_word_list(contents, true),
        Ok(vec!["CRANE".to_owned(), "SLATE".to_owned(), "ZEBRA".to_owned()])
    );
}

#[test]
fn guess_file_takes_lines_of_one_field() {
    let contents = "aback\n  abase  \r\ntwo fields\n\nabbey\n";
    assert_eq!(
        parse_word_list(contents, false),
        Ok(vec!["ABACK".to_owned(), "ABASE".to_owned(), "ABBEY".to_owned()])
    );
}

#[test]
fn word_of_wrong_length_is_an_error() {
    assert_eq!(
        parse_word_list("crane 1\ncranes 2\nab 3\n", true),
        Err("Invalid solution length: CRANES".to_owned())
    );
    assert_eq!(
        parse_word_list("abc\n", false),
        Err("Invalid guess length: ABC".to_owned())
    );
}

#[test]
fn empty_file_has_no_words() {
    assert_eq!(parse_word_list("", false), Ok(vec![]));
    assert_eq!(parse_word_list("\n\n", true), Ok(vec![]));
}

#[test]
fn white_space_is_what_std_says() {
    for code in 0u32..=0x10FFFF {
        if let Some(c) = char::from_u32(code) {
            assert_eq!(char_is_whitespace(c), c.is_whitespace(), "{code:x}");
        }
    }
}
