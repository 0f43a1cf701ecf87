use word_rectangles::text::{preprocess_line, LineError};

#[test]
fn plain_line_is_the_word() {
    assert_eq!(preprocess_line("cat", false), Ok(Some("cat".to_string())));
    assert_eq!(preprocess_line("c\u{0430}t", false), Ok(Some("cat".to_string())));
    assert_eq!(preprocess_line("c t", false), Ok(None));
}

#[test]
fn two_column_line_takes_second_column() {
    assert_eq!(preprocess_line("0\tcat", true), Ok(Some("cat".to_string())));
    assert_eq!(preprocess_line("14\tc t", true), Ok(None));
}

#[test]
fn two_column_line_needs_one_tab() {
    assert_eq!(preprocess_line("cat", true), Err(LineError::MissingTab));
    assert_eq!(preprocess_line("0\tcat\tdog", true), Err(LineError::ExtraTab));
}
