use csv2html::errors::{Error, ErrorCategory};
use csv2html::pipeline::{convert, effective_skip, parse_delimiter, parse_start, Options};

fn opts() -> Options {
    Options {
        title: String::new(),
        delimiter: b',',
        start: 0,
        renumber: false,
        header: true,
        complete_document: false,
        table_attrs: String::new(),
        tr_attrs: String::new(),
        th_attrs: String::new(),
        td_attrs: String::new(),
    }
}

fn run(data: &[u8], o: &Options) -> (String, Option<Error>) {
    convert(&data.to_vec(), o)
}

#[test]
fn table_with_header() {
    let (out, err) = run(b"name,color\napple,red\npear,green\n", &opts());
    assert!(err.is_none());
    assert_eq!(
        out,
        "<table>\n<tr><th>name</th><th>color</th></tr>\n\
         <tr><td>apple</td><td>red</td></tr>\n\
         <tr><td>pear</td><td>green</td></tr>\n</table>\n"
    );
}

#[test]
fn table_without_header() {
    let mut o = opts();
    o.header = false;
    let (out, err) = run(b"a,b\nc,d\n", &o);
    assert!(err.is_none());
    assert_eq!(
        out,
        "<table>\n<tr><td>a</td><td>b</td></tr>\n<tr><td>c</td><td>d</td></tr>\n</table>\n"
    );
}

#[test]
fn complete_document_escapes_title() {
    let mut o = opts();
    o.header = false;
    o.complete_document = true;
    o.title = String::from("Foo & Bar");
    let (out, err) = run(b"x\n", &o);
    assert!(err.is_none());
    assert_eq!(
        out,
        "<!DOCTYPE html>\n<html>\n<head><title>Foo &amp; Bar</title></head>\n<body>\n\
         <table>\n<tr><td>x</td></tr>\n</table>\n</body>\n</html>\n"
    );
}

#[test]
fn attributes_are_inserted_verbatim() {
    let mut o = opts();
    o.table_attrs = String::from("class=\"foo\" id=\"bar\"");
    o.tr_attrs = String::from("class=\"row\"");
    o.th_attrs = String::from("class=\"hcell\"");
    o.td_attrs = String::from("class=\"cell\"");
    let (out, err) = run(b"h\nv\n", &o);
    assert!(err.is_none());
    assert_eq!(
        out,
        "<table class=\"foo\" id=\"bar\">\n\
         <tr class=\"row\"><th class=\"hcell\">h</th></tr>\n\
         <tr class=\"row\"><td class=\"cell\">v</td></tr>\n</table>\n"
    );
}

#[test]
fn start_one_with_header_skips_nothing() {
    let mut o = opts();
    o.start = 1;
    let (out, err) = run(b"h\na\nb\n", &o);
    assert!(err.is_none());
    assert_eq!(
        out,
        "<table>\n<tr><th>h</th></tr>\n<tr><td>a</td></tr>\n<tr><td>b</td></tr>\n</table>\n"
    );
}

#[test]
fn start_skips_data_rows_only() {
    let mut o = opts();
    o.start = 3;
    let (out, err) = run(b"h\na\nb\nc\n", &o);
    assert!(err.is_none());
    // The header absorbs one of the three: two data rows are skipped.
    assert_eq!(out, "<table>\n<tr><th>h</th></tr>\n<tr><td>c</td></tr>\n</table>\n");
}

#[test]
fn start_zero_without_header_skips_nothing() {
    let mut o = opts();
    o.header = false;
    o.start = 0;
    let (out, err) = run(b"a\nb\n", &o);
    assert!(err.is_none());
    assert_eq!(out, "<table>\n<tr><td>a</td></tr>\n<tr><td>b</td></tr>\n</table>\n");
}

#[test]
fn start_one_without_header_skips_one_row() {
    let mut o = opts();
    o.header = false;
    o.start = 1;
    let (out, err) = run(b"a\nb\n", &o);
    assert!(err.is_none());
    assert_eq!(out, "<table>\n<tr><td>b</td></tr>\n</table>\n");
}

#[test]
fn start_beyond_end_emits_no_rows() {
    let mut o = opts();
    o.header = false;
    o.start = 10;
    let (out, err) = run(b"a\nb\n", &o);
    assert!(err.is_none());
    assert_eq!(out, "<table>\n</table>\n");
}

#[test]
fn renumber_assigns_output_positions() {
    let mut o = opts();
    o.header = false;
    o.renumber = true;
    o.start = 2;
    let (out, err) = run(b"first,x\nsecond,y\nthird,z\nfourth,w\n", &o);
    assert!(err.is_none());
    // Rows three and four survive the skip and are numbered 1 and 2.
    assert_eq!(
        out,
        "<table>\n<tr><td>1</td><td>z</td></tr>\n<tr><td>2</td><td>w</td></tr>\n</table>\n"
    );
}

#[test]
fn renumber_keeps_header_untouched() {
    let mut o = opts();
    o.renumber = true;
    let (out, err) = run(b"id,name\nx,apple\ny,pear\n", &o);
    assert!(err.is_none());
    assert_eq!(
        out,
        "<table>\n<tr><th>id</th><th>name</th></tr>\n\
         <tr><td>1</td><td>apple</td></tr>\n<tr><td>2</td><td>pear</td></tr>\n</table>\n"
    );
}

#[test]
fn unequal_field_counts_render_actual_cells() {
    let mut o = opts();
    o.header = false;
    let (out, err) = run(b"a\nb,c,d\n", &o);
    assert!(err.is_none());
    assert_eq!(
        out,
        "<table>\n<tr><td>a</td></tr>\n<tr><td>b</td><td>c</td><td>d</td></tr>\n</table>\n"
    );
}

#[test]
fn malformed_quote_stops_the_run() {
    let (out, err) = run(b"h1,h2\nok,row\n\"open\nnever,seen\n", &opts());
    let e = err.expect("a data error");
    assert!(matches!(e, Error::ParseRow { .. }));
    assert_eq!(e.category(), ErrorCategory::Data);
    assert_eq!(e.message(), "Can not parse a CSV row: unterminated quoted field");
    // Everything rendered before the failure stays; nothing after it does.
    assert_eq!(
        out,
        "<table>\n<tr><th>h1</th><th>h2</th></tr>\n<tr><td>ok</td><td>row</td></tr>\n"
    );
    assert!(!out.contains("never"));
    assert!(!out.contains("</table>"));
}

#[test]
fn text_after_quote_is_a_row_error() {
    let mut o = opts();
    o.header = false;
    let (out, err) = run(b"\"a\"x\n", &o);
    let e = err.expect("a data error");
    assert!(matches!(e, Error::ParseRow { .. }));
    assert_eq!(e.message(), "Can not parse a CSV row: malformed quoted field");
    assert_eq!(out, "<table>\n");
}

#[test]
fn header_parse_error() {
    let (out, err) = run(b"\"open", &opts());
    let e = err.expect("a header error");
    assert!(matches!(e, Error::ParseHeader { .. }));
    assert_eq!(e.category(), ErrorCategory::Data);
    assert_eq!(
        e.message(),
        "Can not parse the CSV header: unterminated quoted field"
    );
    assert_eq!(out, "<table>\n");
}

#[test]
fn invalid_utf8_in_data_row() {
    let mut o = opts();
    o.header = false;
    let mut data = b"ok\n".to_vec();
    data.extend_from_slice(&[0xff, 0xfe, b'\n']);
    let (out, err) = convert(&data, &o);
    let e = err.expect("a data error");
    assert!(matches!(e, Error::ParseRow { .. }));
    assert_eq!(e.message(), "Can not parse a CSV row: invalid UTF-8 in a field");
    assert_eq!(out, "<table>\n<tr><td>ok</td></tr>\n");
}

#[test]
fn invalid_utf8_in_header() {
    let mut data = vec![0xff, b'\n'];
    data.extend_from_slice(b"ok\n");
    let (out, err) = convert(&data, &opts());
    let e = err.expect("a header error");
    assert!(matches!(e, Error::ParseHeader { .. }));
    assert_eq!(out, "<table>\n");
}

#[test]
fn invalid_utf8_in_skipped_row_is_ignored() {
    let mut o = opts();
    o.header = false;
    o.start = 1;
    let mut data = vec![0xff, b'\n'];
    data.extend_from_slice(b"ok\n");
    let (out, err) = convert(&data, &o);
    assert!(err.is_none());
    assert_eq!(out, "<table>\n<tr><td>ok</td></tr>\n</table>\n");
}

#[test]
fn empty_input_with_header() {
    let (out, err) = run(b"", &opts());
    assert!(err.is_none());
    assert_eq!(out, "<table>\n<tr></tr>\n</table>\n");
}

#[test]
fn empty_input_without_header() {
    let mut o = opts();
    o.header = false;
    let (out, err) = run(b"", &o);
    assert!(err.is_none());
    assert_eq!(out, "<table>\n</table>\n");
}

#[test]
fn effective_skip_formula() {
    assert_eq!(effective_skip(0, false), 0);
    assert_eq!(effective_skip(0, true), 0);
    assert_eq!(effective_skip(1, true), 0);
    assert_eq!(effective_skip(1, false), 1);
    assert_eq!(effective_skip(5, true), 4);
    assert_eq!(effective_skip(5, false), 5);
}

#[test]
fn parse_start_accepts_numerals() {
    assert_eq!(parse_start("0").unwrap(), 0);
    assert_eq!(parse_start("42").unwrap(), 42);
    assert_eq!(parse_start("+7").unwrap(), 7);
}

#[test]
fn parse_start_rejects_bad_input() {
    let e = parse_start("").unwrap_err();
    assert!(matches!(e, Error::CLIStart { .. }));
    assert_eq!(e.category(), ErrorCategory::Software);
    assert_eq!(
        e.message(),
        "Invalid start row argument: cannot parse integer from empty string"
    );
    let e = parse_start("12x").unwrap_err();
    assert_eq!(
        e.message(),
        "Invalid start row argument: invalid digit found in string"
    );
    let e = parse_start("+").unwrap_err();
    assert_eq!(
        e.message(),
        "Invalid start row argument: invalid digit found in string"
    );
    let e = parse_start("99999999999999999999999999").unwrap_err();
    assert_eq!(
        e.message(),
        "Invalid start row argument: number too large to fit in target type"
    );
}

#[test]
fn parse_delimiter_single_byte_only() {
    assert_eq!(parse_delimiter(",").unwrap(), b',');
    assert_eq!(parse_delimiter("\t").unwrap(), b'\t');
    let e = parse_delimiter("").unwrap_err();
    assert!(matches!(e, Error::CLIDelimiter { .. }));
    assert_eq!(e.category(), ErrorCategory::Software);
    assert_eq!(e.message(), "Invalid delimiter: \"\"");
    let e = parse_delimiter("ab").unwrap_err();
    assert_eq!(e.message(), "Invalid delimiter: \"ab\"");
}
