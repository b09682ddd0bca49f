use csv2html::reader::{parse_bytes, ReadError};

fn rows_of(data: &[u8], delim: u8) -> (Vec<Vec<String>>, Option<ReadError>) {
    let (rows, err) = parse_bytes(&data.to_vec(), delim);
    let strs = rows
        .into_iter()
        .map(|r| {
            r.into_iter()
                .map(|f| String::from_utf8(f).unwrap())
                .collect()
        })
        .collect();
    (strs, err)
}

#[test]
fn simple_rows() {
    let (rows, err) = rows_of(b"a,b\nc,d\n", b',');
    assert_eq!(err, None);
    assert_eq!(rows, vec![vec!["a", "b"], vec!["c", "d"]]);
}

#[test]
fn no_trailing_newline() {
    let (rows, err) = rows_of(b"a,b", b',');
    assert_eq!(err, None);
    assert_eq!(rows, vec![vec!["a", "b"]]);
}

#[test]
fn unequal_field_counts_are_fine() {
    let (rows, err) = rows_of(b"a\nb,c,d\ne,f\n", b',');
    assert_eq!(err, None);
    assert_eq!(rows, vec![vec!["a"], vec!["b", "c", "d"], vec!["e", "f"]]);
}

#[test]
fn tab_delimiter() {
    let (rows, err) = rows_of(b"a\tb\nc\td\n", b'\t');
    assert_eq!(err, None);
    assert_eq!(rows, vec![vec!["a", "b"], vec!["c", "d"]]);
}

#[test]
fn quoted_field_with_delimiter_and_newline() {
    let (rows, err) = rows_of(b"\"a,b\nc\",d\n", b',');
    assert_eq!(err, None);
    assert_eq!(rows, vec![vec!["a,b\nc", "d"]]);
}

#[test]
fn doubled_quote_is_literal() {
    let (rows, err) = rows_of(b"\"a\"\"b\"\n", b',');
    assert_eq!(err, None);
    assert_eq!(rows, vec![vec!["a\"b"]]);
}

#[test]
fn crlf_and_lone_cr() {
    let (rows, err) = rows_of(b"a\r\nb\rc\n", b',');
    assert_eq!(err, None);
    assert_eq!(rows, vec![vec!["a"], vec!["b"], vec!["c"]]);
}

#[test]
fn blank_lines_are_skipped() {
    let (rows, err) = rows_of(b"a\n\n\nb\n", b',');
    assert_eq!(err, None);
    assert_eq!(rows, vec![vec!["a"], vec!["b"]]);
}

#[test]
fn trailing_delimiter_gives_empty_field() {
    let (rows, err) = rows_of(b"a,\n,b\n", b',');
    assert_eq!(err, None);
    assert_eq!(rows, vec![vec!["a", ""], vec!["", "b"]]);
}

#[test]
fn unterminated_quote_fails() {
    let (rows, err) = rows_of(b"\"abc", b',');
    assert_eq!(err, Some(ReadError::UnterminatedQuote));
    assert_eq!(rows.len(), 0);
}

#[test]
fn text_after_closing_quote_fails() {
    let (rows, err) = rows_of(b"\"a\"x,b\n", b',');
    assert_eq!(err, Some(ReadError::MalformedQuote));
    assert_eq!(rows.len(), 0);
}

#[test]
fn rows_before_error_are_kept() {
    let (rows, err) = rows_of(b"x,y\n\"open", b',');
    assert_eq!(err, Some(ReadError::UnterminatedQuote));
    assert_eq!(rows, vec![vec!["x", "y"]]);
}

#[test]
fn empty_input_has_no_rows() {
    let (rows, err) = rows_of(b"", b',');
    assert_eq!(err, None);
    assert_eq!(rows.len(), 0);
}

#[test]
fn quote_in_the_middle_of_unquoted_field() {
    let (rows, err) = rows_of(b"a\"b,c\n", b',');
    assert_eq!(err, None);
    assert_eq!(rows, vec![vec!["a\"b", "c"]]);
}
