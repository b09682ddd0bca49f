use csv2html::tablegen::{end, escape, row, start};

#[test]
fn test_start_1() {
    assert_eq!(start(false, "<\"Greetings!\">", "x=y"), "<table x=y>\n");
}

#[test]
fn test_start_2() {
    assert_eq!(
        start(true, "<\"Greetings!\">", ""),
        "<!DOCTYPE html>\n<html>\n<head><title>&lt;&quot;\
        Greetings!&quot;&gt;</title></head>\n<body>\n<table>\n"
    );
}

#[test]
fn test_end() {
    assert_eq!(end(true), "</table>\n</body>\n</html>\n");
}

#[test]
fn test_row_1() {
    assert_eq!(
        row(&vec!["foo", "bar", "baz"], false, "", ""),
        "<tr><td>foo</td><td>bar</td><td>baz</td></tr>\n"
    )
}

#[test]
fn test_row_2() {
    assert_eq!(
        row(&vec!["one", "two"], true, "x=1", "y=2"),
        "<tr x=1><th y=2>one</th><th y=2>two</th></tr>\n"
    )
}

#[test]
fn end_fragment_only() {
    assert_eq!(end(false), "</table>\n");
}

#[test]
fn escape_all_four() {
    assert_eq!(escape("&"), "&amp;");
    assert_eq!(escape("<"), "&lt;");
    assert_eq!(escape(">"), "&gt;");
    assert_eq!(escape("\""), "&quot;");
    assert_eq!(escape("a<b & c>\"d\""), "a&lt;b &amp; c&gt;&quot;d&quot;");
}

#[test]
fn escape_order_ampersand_first() {
    // The ampersand is replaced before the other three, so the entities
    // inserted for them keep a single ampersand each, while a literal
    // ampersand in the input is never expanded twice in one pass.
    assert_eq!(escape("&lt;"), "&amp;lt;");
    assert_eq!(escape("&<"), "&amp;&lt;");
}

#[test]
fn escape_applied_exactly_once() {
    // Escaping a clean string is the identity; re-escaping an escaped
    // string double-escapes the inserted ampersands.
    assert_eq!(escape("plain text"), "plain text");
    let once = escape("<");
    let twice = escape(&once);
    assert_ne!(once, twice);
    assert_eq!(twice, "&amp;lt;");
}

#[test]
fn escape_leaves_no_specials() {
    let e = escape("x<y>&\"z");
    assert!(!e.contains('<'));
    assert!(!e.contains('>'));
    assert!(!e.contains('"'));
    for (i, c) in e.char_indices() {
        if c == '&' {
            let rest = &e[i..];
            assert!(
                rest.starts_with("&amp;")
                    || rest.starts_with("&lt;")
                    || rest.starts_with("&gt;")
                    || rest.starts_with("&quot;")
            );
        }
    }
}

#[test]
fn row_empty_cols() {
    assert_eq!(row(&vec![], false, "", ""), "<tr></tr>\n");
    assert_eq!(row(&vec![], true, "a=b", ""), "<tr a=b></tr>\n");
}

#[test]
fn row_escapes_fields_not_attrs() {
    assert_eq!(
        row(&vec!["a<b"], false, "x=\"1\"", "y=\"2\""),
        "<tr x=\"1\"><td y=\"2\">a&lt;b</td></tr>\n"
    );
}
