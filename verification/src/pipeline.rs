//! The pipeline: one linear pass that renders parsed rows as an HTML table.
//!
//! `convert` does everything between reading the input bytes and writing
//! the output text: it parses the rows, takes the first as header when one
//! is configured, applies the start-row skip to the data rows only,
//! renumbers the first field of emitted rows when asked to, and renders
//! each row, stopping at the first malformed record. Its contract states
//! the exact output text and the exact error for every input.

use vstd::prelude::*;
use vstd::string::StringSliceAdditionalSpecFns;
use vstd::utf8::{decode_utf8, valid_utf8};

use crate::errors::Error;
use crate::numbers::{
    dec_str, parse_usize, spec_parse_usize, u64_to_string, NumeralError,
};
use crate::reader::{
    lemma_parsed_rows_nonempty, parse_bytes, parse_error, parsed_rows, rows_nonempty, ReadError,
};
use crate::tablegen::{end, end_seq, row, row_seq, start, start_seq, str_views};

verus! {

/// The configuration of one run, resolved once at startup. The input and
/// output locations are not here: the pipeline works on values.
pub struct Options {
    pub title: String,
    pub delimiter: u8,
    pub start: usize,
    pub renumber: bool,
    pub header: bool,
    pub complete_document: bool,
    pub table_attrs: String,
    pub tr_attrs: String,
    pub th_attrs: String,
    pub td_attrs: String,
}

/// How many data rows the start-row option skips: when a header is
/// configured and the count is positive, it is reduced by one, because the
/// header was already consumed as the first physical row.
pub open spec fn spec_effective_skip(start: nat, header: bool) -> nat {
    if header && start > 0 {
        (start - 1) as nat
    } else {
        start
    }
}

/// Computes the skip count for the data rows.
pub fn effective_skip(start: usize, header: bool) -> (r: usize)
    ensures
        r as nat == spec_effective_skip(start as nat, header),
{
    if header && start > 0 {
        start - 1
    } else {
        start
    }
}

/// With a header, a start row of 1 skips no data rows (the header absorbs
/// the one row); without a header, a start row of 0 skips none, and the
/// skip count is otherwise taken as given.
pub proof fn lemma_skip_header_interaction()
    ensures
        spec_effective_skip(1, true) == 0,
        spec_effective_skip(0, false) == 0,
        forall|s: nat| spec_effective_skip(s, false) == s,
        forall|s: nat| s > 0 ==> spec_effective_skip(s, true) == s - 1,
{
}

/// The ways one row can be unusable.
#[derive(Clone, Copy, PartialEq, Eq, Structural, Debug)]
pub enum RowFail {
    UnterminatedQuote,
    MalformedQuote,
    InvalidUtf8,
}

/// Which stage a data failure hit: the header row or a data row.
#[derive(Clone, Copy, PartialEq, Eq, Structural, Debug)]
pub enum ConvertFail {
    Header(RowFail),
    Row(RowFail),
}

/// The row failure corresponding to a reader error.
pub open spec fn fail_of_read(e: ReadError) -> RowFail {
    match e {
        ReadError::UnterminatedQuote => RowFail::UnterminatedQuote,
        ReadError::MalformedQuote => RowFail::MalformedQuote,
    }
}

/// The cause text of each row failure.
pub open spec fn fail_msg(f: RowFail) -> Seq<char> {
    match f {
        RowFail::UnterminatedQuote => "unterminated quoted field"@,
        RowFail::MalformedQuote => "malformed quoted field"@,
        RowFail::InvalidUtf8 => "invalid UTF-8 in a field"@,
    }
}

fn fail_msg_string(f: RowFail) -> (s: String)
    ensures
        s@ == fail_msg(f),
{
    match f {
        RowFail::UnterminatedQuote => String::from_str("unterminated quoted field"),
        RowFail::MalformedQuote => String::from_str("malformed quoted field"),
        RowFail::InvalidUtf8 => String::from_str("invalid UTF-8 in a field"),
    }
}

fn read_fail(e: ReadError) -> (r: RowFail)
    ensures
        r == fail_of_read(e),
{
    match e {
        ReadError::UnterminatedQuote => RowFail::UnterminatedQuote,
        ReadError::MalformedQuote => RowFail::MalformedQuote,
    }
}

/// Whether every field of the row is valid UTF-8.
pub open spec fn row_ok(fields: Seq<Seq<u8>>) -> bool {
    forall|i: int| 0 <= i < fields.len() ==> valid_utf8(#[trigger] fields[i])
}

/// The fields of a row decoded to text.
pub open spec fn decode_row(fields: Seq<Seq<u8>>) -> Seq<Seq<char>> {
    fields.map_values(|f: Seq<u8>| decode_utf8(f))
}

/// Relies on `String::from_utf8`: it returns `Ok` exactly on UTF-8 input,
/// and then decodes the bytes to the character sequence that vstd's
/// `decode_utf8` describes.
#[verifier::external_body]
fn utf8_to_string(bytes: &Vec<u8>) -> (r: Option<String>)
    ensures
        (r is Some) <==> valid_utf8(bytes@),
        r matches Some(s) ==> s@ == decode_utf8(bytes@),
{
    String::from_utf8(bytes.clone()).ok()
}

/// Decodes every field of one row, or reports that some field is not text.
fn decode_fields(fields: &Vec<Vec<u8>>) -> (r: Option<Vec<String>>)
    ensures
        (r is Some) <==> row_ok(fields.deep_view()),
        r matches Some(v) ==> v.deep_view() == decode_row(fields.deep_view()),
{
    let mut out: Vec<String> = Vec::new();
    let n = fields.len();
    let mut i: usize = 0;
    while i < n
        invariant
            n == fields@.len(),
            i <= n,
            out@.len() == i,
            forall|j: int| 0 <= j < i ==> valid_utf8(#[trigger] fields.deep_view()[j]),
            forall|j: int| 0 <= j < i ==> #[trigger] out@[j]@ == decode_utf8(fields.deep_view()[j]),
        decreases n - i,
    {
        proof {
            assert(fields@[i as int]@ =~= fields.deep_view()[i as int]);
        }
        match utf8_to_string(&fields[i]) {
            Some(s) => {
                out.push(s);
            },
            None => {
                proof {
                    assert(!valid_utf8(fields.deep_view()[i as int]));
                }
                return None;
            },
        }
        i = i + 1;
    }
    proof {
        assert(out.deep_view() =~= decode_row(fields.deep_view()));
    }
    Some(out)
}

/// Borrows every field of a decoded row as a string slice.
fn strs_of<'a>(v: &'a Vec<String>) -> (r: Vec<&'a str>)
    ensures
        str_views(r@) == v.deep_view(),
{
    let mut r: Vec<&str> = Vec::new();
    let n = v.len();
    let mut i: usize = 0;
    while i < n
        invariant
            n == v@.len(),
            i <= n,
            r@.len() == i,
            forall|j: int| 0 <= j < i ==> #[trigger] r@[j]@ == v@[j]@,
        decreases n - i,
    {
        r.push(v[i].as_str());
        i = i + 1;
    }
    proof {
        assert(str_views(r@) =~= v.deep_view());
    }
    r
}

/// The fields of one emitted data row after renumbering: with `renumber`
/// set, the first field is replaced by the decimal numeral of the row's
/// 1-based position among the emitted rows.
pub open spec fn spec_renumber(fields: Seq<Seq<char>>, renumber: bool, n: nat) -> Seq<Seq<char>> {
    if renumber && fields.len() > 0 {
        fields.update(0, dec_str(n))
    } else {
        fields
    }
}

/// The text and outcome of one stage of the conversion.
pub struct ConvOut {
    pub text: Seq<char>,
    pub fail: Option<ConvertFail>,
}

/// The rendering of a sequence of emitted data rows, the first of which
/// has 1-based position `n`: each row is decoded, renumbered and rendered
/// in turn; the first row with a field that is not text stops the run with
/// nothing of that row emitted.
pub open spec fn data_rows_out(rows: Seq<Seq<Seq<u8>>>, n: nat, opts: Options) -> ConvOut
    decreases rows.len(),
{
    if rows.len() == 0 {
        ConvOut { text: Seq::<char>::empty(), fail: None }
    } else if !row_ok(rows[0]) {
        ConvOut {
            text: Seq::<char>::empty(),
            fail: Some(ConvertFail::Row(RowFail::InvalidUtf8)),
        }
    } else {
        let rendered = row_seq(
            spec_renumber(decode_row(rows[0]), opts.renumber, n),
            false,
            opts.tr_attrs@,
            opts.td_attrs@,
        );
        let rest = data_rows_out(rows.drop_first(), n + 1, opts);
        ConvOut { text: rendered + rest.text, fail: rest.fail }
    }
}

/// Renumbering assigns the emitted rows their 1-based output positions in
/// order: in the rendering of `rows` whose first row has position `n`, the
/// row at offset `i` is rendered with its first field replaced by the
/// numeral of `n + i` — regardless of where the row stood in the input.
pub proof fn lemma_renumber_positions(rows: Seq<Seq<Seq<u8>>>, n: nat, i: int, opts: Options)
    requires
        opts.renumber,
        0 <= i < rows.len(),
        forall|j: int| 0 <= j <= i ==> row_ok(#[trigger] rows[j]),
    ensures
        data_rows_out(rows, n, opts).text == data_rows_out(rows.take(i), n, opts).text + row_seq(
            spec_renumber(decode_row(rows[i]), true, (n + i) as nat),
            false,
            opts.tr_attrs@,
            opts.td_attrs@,
        ) + data_rows_out(rows.skip(i + 1), (n + i + 1) as nat, opts).text,
    decreases i,
{
    let r0 = row_seq(
        spec_renumber(decode_row(rows[0]), true, n),
        false,
        opts.tr_attrs@,
        opts.td_attrs@,
    );
    if i == 0 {
        assert(rows.take(0).len() == 0);
        assert(rows.skip(1) =~= rows.drop_first());
        assert(data_rows_out(rows, n, opts).text =~= data_rows_out(rows.take(0), n, opts).text
            + r0 + data_rows_out(rows.skip(1), (n + 1) as nat, opts).text);
    } else {
        let rest = rows.drop_first();
        assert(forall|j: int| 0 <= j <= i - 1 ==> rest[j] == rows[j + 1]);
        assert(forall|j: int| 0 <= j <= i - 1 ==> row_ok(#[trigger] rest[j]));
        lemma_renumber_positions(rest, (n + 1) as nat, i - 1, opts);
        assert(rest[i - 1] == rows[i]);
        assert(rest.skip(i) =~= rows.skip(i + 1));
        assert(rest.take(i - 1) =~= rows.take(i).drop_first());
        assert(rows.take(i)[0] == rows[0]);
        assert(data_rows_out(rows.take(i), n, opts).text == r0 + data_rows_out(
            rows.take(i).drop_first(),
            (n + 1) as nat,
            opts,
        ).text);
        assert(data_rows_out(rows, n, opts).text == r0 + data_rows_out(
            rest,
            (n + 1) as nat,
            opts,
        ).text);
        assert(data_rows_out(rows, n, opts).text =~= data_rows_out(rows.take(i), n, opts).text
            + row_seq(
            spec_renumber(decode_row(rows[i]), true, (n + i) as nat),
            false,
            opts.tr_attrs@,
            opts.td_attrs@,
        ) + data_rows_out(rows.skip(i + 1), (n + i + 1) as nat, opts).text);
    }
}

/// Everything after the header: the data rows that survive the skip are
/// rendered; then a parse error, if the reader hit one, ends the run, and
/// otherwise the document closer is appended.
pub open spec fn tail_out(
    prefix: Seq<char>,
    drows: Seq<Seq<Seq<u8>>>,
    err: Option<ReadError>,
    opts: Options,
) -> ConvOut {
    let k = spec_effective_skip(opts.start as nat, opts.header);
    let emitted = if k <= drows.len() {
        drows.skip(k as int)
    } else {
        Seq::<Seq<Seq<u8>>>::empty()
    };
    let d = data_rows_out(emitted, 1, opts);
    if d.fail is Some {
        ConvOut { text: prefix + d.text, fail: d.fail }
    } else {
        match err {
            Some(e) => ConvOut {
                text: prefix + d.text,
                fail: Some(ConvertFail::Row(fail_of_read(e))),
            },
            None => ConvOut {
                text: prefix + d.text + end_seq(opts.complete_document),
                fail: None,
            },
        }
    }
}

/// The whole conversion: document start, header row (when configured),
/// data rows after skip and renumbering, document end — or the prefix
/// written before the first failure, together with that failure.
pub open spec fn spec_convert(data: Seq<u8>, opts: Options) -> ConvOut {
    let rows = parsed_rows(data, opts.delimiter);
    let err = parse_error(data, opts.delimiter);
    let head = start_seq(opts.complete_document, opts.title@, opts.table_attrs@);
    if opts.header {
        if rows.len() == 0 && err is Some {
            match err {
                Some(e) => ConvOut {
                    text: head,
                    fail: Some(ConvertFail::Header(fail_of_read(e))),
                },
                None => ConvOut { text: head, fail: None },
            }
        } else {
            let hfields = if rows.len() > 0 {
                rows[0]
            } else {
                Seq::<Seq<u8>>::empty()
            };
            if !row_ok(hfields) {
                ConvOut { text: head, fail: Some(ConvertFail::Header(RowFail::InvalidUtf8)) }
            } else {
                let htext = row_seq(decode_row(hfields), true, opts.tr_attrs@, opts.th_attrs@);
                let drows = if rows.len() > 0 {
                    rows.drop_first()
                } else {
                    rows
                };
                tail_out(head + htext, drows, err, opts)
            }
        }
    } else {
        tail_out(head, rows, err, opts)
    }
}

/// Whether the error value reports exactly the failure of the spec.
pub open spec fn err_corresponds(e: Error, f: Option<ConvertFail>) -> bool {
    match f {
        None => false,
        Some(ConvertFail::Header(k)) => (e matches Error::ParseHeader { cause } && cause@
            == fail_msg(k)),
        Some(ConvertFail::Row(k)) => (e matches Error::ParseRow { cause } && cause@ == fail_msg(
            k,
        )),
    }
}

/// Renders the data rows from index `begin` on, appending each to `out`;
/// stops at the first row with a field that is not text and reports it.
#[verifier::loop_isolation(false)]
fn render_data_rows(
    out: &mut String,
    rows: &Vec<Vec<Vec<u8>>>,
    begin: usize,
    opts: &Options,
) -> (fail: Option<Error>)
    requires
        begin <= rows@.len(),
        rows_nonempty(rows.deep_view()),
    ensures
        final(out)@ == old(out)@ + data_rows_out(
            rows.deep_view().skip(begin as int),
            1,
            *opts,
        ).text,
        match fail {
            None => data_rows_out(rows.deep_view().skip(begin as int), 1, *opts).fail is None,
            Some(e) => err_corresponds(
                e,
                data_rows_out(rows.deep_view().skip(begin as int), 1, *opts).fail,
            ),
        },
{
    let ghost rows_dv = rows.deep_view();
    let ghost prefix = old(out)@;
    let ghost emitted = rows_dv.skip(begin as int);
    let ghost dfull = data_rows_out(emitted, 1, *opts);
    let ghost mut rendered = Seq::<char>::empty();
    proof {
        assert(emitted.skip(0) =~= emitted);
        assert(rendered + dfull.text =~= dfull.text);
        assert(prefix + rendered =~= prefix);
    }
    let mut j = begin;
    while j < rows.len()
        invariant
            begin <= j <= rows@.len(),
            out@ == prefix + rendered,
            dfull.text == rendered + data_rows_out(
                emitted.skip(j - begin),
                (j - begin + 1) as nat,
                *opts,
            ).text,
            dfull.fail == data_rows_out(emitted.skip(j - begin), (j - begin + 1) as nat, *opts).fail,
        decreases rows@.len() - j,
    {
        let ghost t = (j - begin) as int;
        let ghost rem = emitted.skip(t);
        proof {
            assert(rem.len() == rows_dv.len() - j);
            assert(rem[0] == rows_dv[j as int]);
            assert(rows@[j as int].deep_view() == rows_dv[j as int]);
        }
        match decode_fields(&rows[j]) {
            None => {
                let e = Error::ParseRow { cause: fail_msg_string(RowFail::InvalidUtf8) };
                proof {
                    assert(data_rows_out(rem, (t + 1) as nat, *opts).fail == Some(
                        ConvertFail::Row(RowFail::InvalidUtf8),
                    ));
                    assert(data_rows_out(rem, (t + 1) as nat, *opts).text == Seq::<char>::empty());
                    assert(dfull.text =~= rendered);
                }
                return Some(e);
            },
            Some(fields) => {
                let mut fields = fields;
                let ghost decoded = decode_row(rem[0]);
                let n_row = j - begin + 1;
                if opts.renumber {
                    proof {
                        assert(rows_dv[j as int].len() >= 1);
                        assert(fields@.len() == decoded.len());
                    }
                    let num = u64_to_string(n_row as u64);
                    fields.set(0, num);
                    proof {
                        assert(fields.deep_view() =~~= decoded.update(0, dec_str(n_row as nat)));
                    }
                } else {
                    proof {
                        assert(fields.deep_view() == decoded);
                    }
                }
                proof {
                    assert(fields.deep_view() == spec_renumber(decoded, opts.renumber, n_row as nat));
                }
                let strs = strs_of(&fields);
                let rtext = row(
                    strs.as_slice(),
                    false,
                    opts.tr_attrs.as_str(),
                    opts.td_attrs.as_str(),
                );
                out.append(rtext.as_str());
                proof {
                    let rrow = row_seq(
                        spec_renumber(decoded, opts.renumber, (t + 1) as nat),
                        false,
                        opts.tr_attrs@,
                        opts.td_attrs@,
                    );
                    assert(data_rows_out(rem, (t + 1) as nat, *opts).text == rrow + data_rows_out(
                        rem.drop_first(),
                        (t + 2) as nat,
                        *opts,
                    ).text);
                    assert(rem.drop_first() =~= emitted.skip(t + 1));
                    rendered = rendered + rrow;
                    assert(out@ =~= prefix + rendered);
                    assert(dfull.text =~= rendered + data_rows_out(
                        emitted.skip(t + 1),
                        (t + 2) as nat,
                        *opts,
                    ).text);
                }
            },
        }
        j = j + 1;
    }
    proof {
        assert(emitted.skip(j - begin).len() == 0);
        assert(data_rows_out(emitted.skip(j - begin), (j - begin + 1) as nat, *opts).text
            == Seq::<char>::empty());
        assert(dfull.text =~= rendered);
    }
    None
}

/// Runs the whole conversion on the input bytes. Returns the output text —
/// everything rendered before the first failure, or the complete document
/// on success — and the failure, if any.
#[verifier::rlimit(30)]
pub fn convert(data: &Vec<u8>, opts: &Options) -> (r: (String, Option<Error>))
    ensures
        r.0@ == spec_convert(data@, *opts).text,
        match r.1 {
            None => spec_convert(data@, *opts).fail is None,
            Some(e) => err_corresponds(e, spec_convert(data@, *opts).fail),
        },
{
    let mut out = start(opts.complete_document, opts.title.as_str(), opts.table_attrs.as_str());
    let (rows, perr) = parse_bytes(data, opts.delimiter);
    let ghost rows_dv = rows.deep_view();
    proof {
        lemma_parsed_rows_nonempty(data@, opts.delimiter);
    }
    let mut data_start: usize = 0;
    if opts.header {
        if rows.len() == 0 {
            match perr {
                Some(pe) => {
                    let e = Error::ParseHeader { cause: fail_msg_string(read_fail(pe)) };
                    return (out, Some(e));
                },
                None => {},
            }
        }
        let empty_row: Vec<Vec<u8>> = Vec::new();
        let hdec = if rows.len() > 0 {
            data_start = 1;
            proof {
                assert(rows@[0].deep_view() == rows_dv[0]);
            }
            decode_fields(&rows[0])
        } else {
            proof {
                assert(empty_row.deep_view() =~= Seq::<Seq<u8>>::empty());
            }
            decode_fields(&empty_row)
        };
        match hdec {
            None => {
                let e = Error::ParseHeader { cause: fail_msg_string(RowFail::InvalidUtf8) };
                return (out, Some(e));
            },
            Some(hfields) => {
                let strs = strs_of(&hfields);
                let hrow = row(strs.as_slice(), true, opts.tr_attrs.as_str(), opts.th_attrs.as_str());
                out.append(hrow.as_str());
            },
        }
    }
    let ghost drows = if opts.header && rows_dv.len() > 0 {
        rows_dv.drop_first()
    } else {
        rows_dv
    };
    let ghost prefix = out@;
    let k = effective_skip(opts.start, opts.header);
    let avail = rows.len() - data_start;
    let begin = if k >= avail {
        rows.len()
    } else {
        data_start + k
    };
    let ghost kk = spec_effective_skip(opts.start as nat, opts.header);
    let ghost emitted = if kk <= drows.len() {
        drows.skip(kk as int)
    } else {
        Seq::<Seq<Seq<u8>>>::empty()
    };
    proof {
        assert(drows =~= rows_dv.skip(data_start as int));
        assert(emitted =~= rows_dv.skip(begin as int));
        assert(spec_convert(data@, *opts) == tail_out(prefix, drows, perr, *opts));
    }
    let ghost dfull = data_rows_out(emitted, 1, *opts);
    let dres = render_data_rows(&mut out, &rows, begin, opts);
    proof {
        assert(out@ == prefix + dfull.text);
    }
    match dres {
        Some(e) => {
            return (out, Some(e));
        },
        None => {},
    }
    match perr {
        Some(pe) => {
            let e = Error::ParseRow { cause: fail_msg_string(read_fail(pe)) };
            (out, Some(e))
        },
        None => {
            let tail = end(opts.complete_document);
            out.append(tail.as_str());
            (out, None)
        },
    }
}

/// Parses the start-row argument as the command line does: a decimal
/// numeral with an optional leading `+`; empty input, a stray character
/// and a value over `usize::MAX` are rejected, each with its own cause.
pub fn parse_start(s: &str) -> (r: Result<usize, Error>)
    ensures
        (r is Ok) <==> spec_parse_usize(s.spec_bytes()) is Ok,
        r matches Ok(v) ==> spec_parse_usize(s.spec_bytes()) == Ok::<nat, NumeralError>(v as nat),
        r matches Err(e) ==> (e matches Error::CLIStart { cause } && spec_parse_usize(
            s.spec_bytes(),
        ) matches Err(k) && cause@ == numeral_error_msg(k)),
{
    match parse_usize(s) {
        Ok(v) => Ok(v),
        Err(k) => Err(Error::CLIStart { cause: numeral_error_string(k) }),
    }
}

/// The cause text of each numeral failure.
pub open spec fn numeral_error_msg(k: NumeralError) -> Seq<char> {
    match k {
        NumeralError::Empty => "cannot parse integer from empty string"@,
        NumeralError::InvalidDigit => "invalid digit found in string"@,
        NumeralError::TooLarge => "number too large to fit in target type"@,
    }
}

fn numeral_error_string(k: NumeralError) -> (s: String)
    ensures
        s@ == numeral_error_msg(k),
{
    match k {
        NumeralError::Empty => String::from_str("cannot parse integer from empty string"),
        NumeralError::InvalidDigit => String::from_str("invalid digit found in string"),
        NumeralError::TooLarge => String::from_str("number too large to fit in target type"),
    }
}

/// Checks the delimiter argument: any string of exactly one byte is the
/// delimiter; anything else is rejected.
pub fn parse_delimiter(s: &str) -> (r: Result<u8, Error>)
    ensures
        (r is Ok) <==> s.spec_bytes().len() == 1,
        r matches Ok(b) ==> b == s.spec_bytes()[0],
        r matches Err(e) ==> (e matches Error::CLIDelimiter { delimiter } && delimiter@ == s@
            && s.spec_bytes().len() != 1),
{
    let b = s.as_bytes();
    if b.len() == 1 {
        Ok(b[0])
    } else {
        Err(Error::CLIDelimiter { delimiter: s.to_owned() })
    }
}

} // verus!
