//! The table renderer: stateless functions that build HTML fragments by
//! string concatenation. Fields are escaped; attribute strings are inserted
//! verbatim, which is the documented contract of the tool.

use vstd::prelude::*;

verus! {

/// The replacement for a single character: the four HTML-special characters
/// become entities, every other character stands for itself. The ampersand
/// case comes first, so entities introduced for the other three characters
/// are never escaped twice.
pub open spec fn escape_char(c: char) -> Seq<char> {
    if c == '&' {
        "&amp;"@
    } else if c == '<' {
        "&lt;"@
    } else if c == '>' {
        "&gt;"@
    } else if c == '"' {
        "&quot;"@
    } else {
        seq![c]
    }
}

/// The escaped form of a whole string: each character replaced independently.
pub open spec fn escape_seq(s: Seq<char>) -> Seq<char>
    decreases s.len(),
{
    if s.len() == 0 {
        Seq::<char>::empty()
    } else {
        escape_seq(s.drop_last()) + escape_char(s.last())
    }
}

/// Replaces `&` with `&amp;`, `<` with `&lt;`, `>` with `&gt;` and `"` with
/// `&quot;`, in that order of precedence: the ampersand is escaped first, so
/// the entities inserted for the later three are left intact.
pub fn escape(s: &str) -> (r: String)
    ensures
        r@ == escape_seq(s@),
{
    let len = s.unicode_len();
    let mut out = String::new();
    let mut i: usize = 0;
    while i < len
        invariant
            len == s@.len(),
            i <= len,
            out@ == escape_seq(s@.take(i as int)),
        decreases len - i,
    {
        let c = s.get_char(i);
        if c == '&' {
            out.append("&amp;");
        } else if c == '<' {
            out.append("&lt;");
        } else if c == '>' {
            out.append("&gt;");
        } else if c == '"' {
            out.append("&quot;");
        } else {
            let piece = s.substring_char(i, i + 1);
            proof {
                assert(piece@ =~= seq![s@[i as int]]);
            }
            out.append(piece);
        }
        proof {
            assert(s@.take(i + 1).drop_last() =~= s@.take(i as int));
            assert(s@.take(i + 1).last() == s@[i as int]);
        }
        i = i + 1;
    }
    proof {
        assert(s@.take(len as int) =~= s@);
    }
    out
}

/// Whether the string holds a character that escaping replaces.
pub open spec fn has_special(s: Seq<char>) -> bool {
    exists|i: int|
        0 <= i < s.len() && (s[i] == '&' || s[i] == '<' || s[i] == '>' || s[i] == '"')
}

/// Whether one of the four entities that escaping inserts begins at
/// position `i` of `t`.
pub open spec fn entity_starts_at(t: Seq<char>, i: int) -> bool {
    ||| (i + 5 <= t.len() && t.subrange(i, i + 5) == "&amp;"@)
    ||| (i + 4 <= t.len() && t.subrange(i, i + 4) == "&lt;"@)
    ||| (i + 4 <= t.len() && t.subrange(i, i + 4) == "&gt;"@)
    ||| (i + 6 <= t.len() && t.subrange(i, i + 6) == "&quot;"@)
}

/// For every input, the escaped string holds no literal `<`, `>` or `"` at
/// all, and every `&` in it is the first character of an inserted entity.
pub proof fn lemma_escape_no_specials(s: Seq<char>)
    ensures
        forall|i: int|
            0 <= i < escape_seq(s).len() ==> escape_seq(s)[i] != '<' && escape_seq(s)[i] != '>'
                && escape_seq(s)[i] != '"',
        forall|i: int|
            0 <= i < escape_seq(s).len() && escape_seq(s)[i] == '&' ==> entity_starts_at(
                escape_seq(s),
                i,
            ),
    decreases s.len(),
{
    reveal_strlit("&amp;");
    reveal_strlit("&lt;");
    reveal_strlit("&gt;");
    reveal_strlit("&quot;");
    if s.len() > 0 {
        lemma_escape_no_specials(s.drop_last());
        let p = escape_seq(s.drop_last());
        let e = escape_char(s.last());
        let t = escape_seq(s);
        assert(t == p + e);
        assert forall|i: int| 0 <= i < p.len() && #[trigger] p[i] == '&' implies entity_starts_at(
            t,
            i,
        ) by {
            if i + 5 <= p.len() && p.subrange(i, i + 5) == "&amp;"@ {
                assert(t.subrange(i, i + 5) =~= p.subrange(i, i + 5));
            }
            if i + 4 <= p.len() && p.subrange(i, i + 4) == "&lt;"@ {
                assert(t.subrange(i, i + 4) =~= p.subrange(i, i + 4));
            }
            if i + 4 <= p.len() && p.subrange(i, i + 4) == "&gt;"@ {
                assert(t.subrange(i, i + 4) =~= p.subrange(i, i + 4));
            }
            if i + 6 <= p.len() && p.subrange(i, i + 6) == "&quot;"@ {
                assert(t.subrange(i, i + 6) =~= p.subrange(i, i + 6));
            }
        }
        let c = s.last();
        if c == '&' {
            assert(t.subrange(p.len() as int, p.len() as int + 5) =~= "&amp;"@);
        } else if c == '<' {
            assert(t.subrange(p.len() as int, p.len() as int + 4) =~= "&lt;"@);
        } else if c == '>' {
            assert(t.subrange(p.len() as int, p.len() as int + 4) =~= "&gt;"@);
        } else if c == '"' {
            assert(t.subrange(p.len() as int, p.len() as int + 6) =~= "&quot;"@);
        }
        assert forall|i: int|
            0 <= i < t.len() && #[trigger] t[i] == '&' implies entity_starts_at(t, i) by {
            if i < p.len() {
            } else if c == '&' {
                assert(i == p.len());
            } else if c == '<' {
                assert(i == p.len());
                assert(entity_starts_at(t, i));
            } else if c == '>' {
                assert(i == p.len());
                assert(entity_starts_at(t, i));
            } else if c == '"' {
                assert(i == p.len());
                assert(entity_starts_at(t, i));
            }
        }
    }
}

/// A string without the four special characters is unchanged by escaping:
/// escaping is the identity exactly there, so applying it once is all the
/// idempotence the renderer has.
pub proof fn lemma_escape_clean_identity(s: Seq<char>)
    requires
        !has_special(s),
    ensures
        escape_seq(s) == s,
    decreases s.len(),
{
    if s.len() > 0 {
        assert(!has_special(s.drop_last()));
        lemma_escape_clean_identity(s.drop_last());
        assert(s.last() != '&' && s.last() != '<' && s.last() != '>' && s.last() != '"');
        assert(escape_seq(s) =~= s);
    } else {
        assert(escape_seq(s) =~= s);
    }
}

/// Escaping never shortens a string, and strictly lengthens one that holds
/// a special character.
pub proof fn lemma_escape_len(s: Seq<char>)
    ensures
        escape_seq(s).len() >= s.len(),
        has_special(s) ==> escape_seq(s).len() > s.len(),
    decreases s.len(),
{
    reveal_strlit("&amp;");
    reveal_strlit("&lt;");
    reveal_strlit("&gt;");
    reveal_strlit("&quot;");
    if s.len() > 0 {
        lemma_escape_len(s.drop_last());
        if has_special(s) {
            let i = choose|i: int|
                0 <= i < s.len() && (s[i] == '&' || s[i] == '<' || s[i] == '>' || s[i] == '"');
            if i < s.len() - 1 {
                assert(s.drop_last()[i] == s[i]);
                assert(has_special(s.drop_last()));
            } else {
                assert(escape_char(s.last()).len() > 1);
            }
        }
    }
}

/// The escaped form of a string with a special character itself holds `&`.
pub proof fn lemma_escape_has_amp(s: Seq<char>)
    requires
        has_special(s),
    ensures
        exists|i: int| 0 <= i < escape_seq(s).len() && escape_seq(s)[i] == '&',
    decreases s.len(),
{
    reveal_strlit("&amp;");
    reveal_strlit("&lt;");
    reveal_strlit("&gt;");
    reveal_strlit("&quot;");
    let p = escape_seq(s.drop_last());
    let c = s.last();
    if c == '&' || c == '<' || c == '>' || c == '"' {
        assert(escape_seq(s)[p.len() as int] == '&');
    } else {
        let i = choose|i: int|
            0 <= i < s.len() && (s[i] == '&' || s[i] == '<' || s[i] == '>' || s[i] == '"');
        assert(s.drop_last()[i] == s[i]);
        assert(has_special(s.drop_last()));
        lemma_escape_has_amp(s.drop_last());
        let j = choose|j: int| 0 <= j < p.len() && p[j] == '&';
        assert(escape_seq(s)[j] == '&');
    }
}

/// Escaping is applied exactly once: on a string that holds a special
/// character, escaping the already-escaped string gives a different (longer)
/// result, because the inserted `&` is escaped again.
pub proof fn lemma_escape_applied_once(s: Seq<char>)
    requires
        has_special(s),
    ensures
        escape_seq(escape_seq(s)) != escape_seq(s),
{
    lemma_escape_has_amp(s);
    assert(has_special(escape_seq(s)));
    lemma_escape_len(escape_seq(s));
    assert(escape_seq(escape_seq(s)).len() > escape_seq(s).len());
}

/// An opening tag: `<tag>` when the attribute string is empty, else
/// `<tag attrs>` with a single space between name and attributes.
pub open spec fn tag_seq(tag: Seq<char>, attrs: Seq<char>) -> Seq<char> {
    if attrs.len() == 0 {
        "<"@ + tag + ">"@
    } else {
        "<"@ + tag + " "@ + attrs + ">"@
    }
}

fn tag_with_attrs(tag: &str, attrs: &str) -> (r: String)
    ensures
        r@ == tag_seq(tag@, attrs@),
{
    let mut s = String::from_str("<");
    s.append(tag);
    if !attrs.is_empty() {
        s.append(" ");
        s.append(attrs);
    }
    s.append(">");
    proof {
        assert(s@ =~= tag_seq(tag@, attrs@));
    }
    s
}

/// The document preamble: with `complete_doc` a doctype, `<html>`, a head
/// holding the escaped title and an opening `<body>`; always the opening
/// `<table>` tag (with its verbatim attributes) and a newline.
pub open spec fn start_seq(complete_doc: bool, title: Seq<char>, table_attrs: Seq<char>) -> Seq<char> {
    (if complete_doc {
        "<!DOCTYPE html>\n<html>\n<head><title>"@ + escape_seq(title) + "</title></head>\n<body>\n"@
    } else {
        Seq::<char>::empty()
    }) + tag_seq("table"@, table_attrs) + "\n"@
}

/// Renders everything that precedes the first row.
pub fn start(complete_doc: bool, title: &str, table_attrs: &str) -> (r: String)
    ensures
        r@ == start_seq(complete_doc, title@, table_attrs@),
{
    let mut s = String::new();
    if complete_doc {
        s.append("<!DOCTYPE html>\n<html>\n<head><title>");
        let escaped = escape(title);
        s.append(escaped.as_str());
        s.append("</title></head>\n<body>\n");
    }
    let table_tag = tag_with_attrs("table", table_attrs);
    s.append(table_tag.as_str());
    s.append("\n");
    proof {
        assert(s@ =~= start_seq(complete_doc, title@, table_attrs@));
    }
    s
}

/// The document closer: `</table>` and, for a complete document, the
/// closing `</body>` and `</html>`.
pub open spec fn end_seq(complete_doc: bool) -> Seq<char> {
    "</table>\n"@ + if complete_doc {
        "</body>\n</html>\n"@
    } else {
        Seq::<char>::empty()
    }
}

/// Renders everything that follows the last row.
pub fn end(complete_doc: bool) -> (r: String)
    ensures
        r@ == end_seq(complete_doc),
{
    let mut s = String::from_str("</table>\n");
    if complete_doc {
        s.append("</body>\n</html>\n");
    }
    proof {
        assert(s@ =~= end_seq(complete_doc));
    }
    s
}

/// One table cell: the opening `<th>`/`<td>` tag with its verbatim
/// attributes, the escaped field text, and the matching closing tag.
pub open spec fn cell_seq(field: Seq<char>, header: bool, cell_attrs: Seq<char>) -> Seq<char> {
    tag_seq(if header { "th"@ } else { "td"@ }, cell_attrs) + escape_seq(field) + (if header {
        "</th>"@
    } else {
        "</td>"@
    })
}

/// All cells of a row, concatenated in order.
pub open spec fn cells_seq(cols: Seq<Seq<char>>, header: bool, cell_attrs: Seq<char>) -> Seq<char>
    decreases cols.len(),
{
    if cols.len() == 0 {
        Seq::<char>::empty()
    } else {
        cells_seq(cols.drop_last(), header, cell_attrs) + cell_seq(cols.last(), header, cell_attrs)
    }
}

/// A whole row: the opening `<tr>` tag with its verbatim attributes, the
/// cells, and `</tr>` with a trailing newline.
pub open spec fn row_seq(
    cols: Seq<Seq<char>>,
    header: bool,
    row_attrs: Seq<char>,
    cell_attrs: Seq<char>,
) -> Seq<char> {
    tag_seq("tr"@, row_attrs) + cells_seq(cols, header, cell_attrs) + "</tr>\n"@
}

/// The views of a sequence of string slices.
pub open spec fn str_views(cols: Seq<&str>) -> Seq<Seq<char>> {
    cols.map_values(|c: &str| c@)
}

/// Renders one row, with `<th>` cells when `header` is set and `<td>` cells
/// otherwise. Field text is escaped; the attribute strings are not.
pub fn row(cols: &[&str], header: bool, row_attrs: &str, col_attrs: &str) -> (r: String)
    ensures
        r@ == row_seq(str_views(cols@), header, row_attrs@, col_attrs@),
{
    let col_tag = if header { "th" } else { "td" };
    let closing = if header { "</th>" } else { "</td>" };
    let mut s = tag_with_attrs("tr", row_attrs);
    let n = cols.len();
    let mut i: usize = 0;
    while i < n
        invariant
            n == cols@.len(),
            i <= n,
            col_tag@ == if header { "th"@ } else { "td"@ },
            closing@ == if header { "</th>"@ } else { "</td>"@ },
            s@ == tag_seq("tr"@, row_attrs@) + cells_seq(
                str_views(cols@).take(i as int),
                header,
                col_attrs@,
            ),
        decreases n - i,
    {
        let cell_tag = tag_with_attrs(col_tag, col_attrs);
        s.append(cell_tag.as_str());
        let escaped = escape(cols[i]);
        s.append(escaped.as_str());
        s.append(closing);
        proof {
            assert(str_views(cols@).take(i + 1).drop_last() =~= str_views(cols@).take(i as int));
            assert(str_views(cols@).take(i + 1).last() == cols@[i as int]@);
            assert(s@ =~= tag_seq("tr"@, row_attrs@) + cells_seq(
                str_views(cols@).take(i + 1),
                header,
                col_attrs@,
            ));
        }
        i = i + 1;
    }
    s.append("</tr>\n");
    proof {
        assert(str_views(cols@).take(n as int) =~= str_views(cols@));
        assert(s@ =~= row_seq(str_views(cols@), header, row_attrs@, col_attrs@));
    }
    s
}

} // verus!
