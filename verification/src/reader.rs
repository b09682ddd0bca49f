//! The record reader: parses delimited byte input into rows of fields.
//!
//! The grammar is the usual one for delimited text: fields separated by a
//! configurable single-byte delimiter, records ended by a line feed, a
//! carriage return, or the two together; a field that begins with a double
//! quote runs to the closing quote and may contain delimiters, quotes
//! (doubled) and line breaks; blank lines between records are skipped.
//! Parsing is flexible: records may have differing field counts, and that
//! is never an error. The two errors are a quoted field that never closes
//! and a closing quote followed by anything but a delimiter or line break.
//!
//! The specification is a byte-at-a-time state machine (`step`, folded over
//! the input by `fold`); the parser is a single pass proved equal to it.

use vstd::prelude::*;

verus! {

/// The double quote, which opens and closes quoted fields.
pub const QUOTE: u8 = 34;

/// Carriage return, a record terminator (alone or before a line feed).
pub const CR: u8 = 13;

/// Line feed, a record terminator.
pub const LF: u8 = 10;

/// The two ways parsing can fail.
#[derive(Clone, Copy, PartialEq, Eq, Structural, Debug)]
pub enum ReadError {
    /// A quoted field was still open at the end of the input.
    UnterminatedQuote,
    /// A closing quote was followed by ordinary text instead of a
    /// delimiter or a record terminator.
    MalformedQuote,
}

/// Where in a record the parser stands.
#[derive(Clone, Copy, PartialEq, Eq, Structural, Debug)]
pub enum Mode {
    /// Between records; nothing of the next record seen yet.
    StartRecord,
    /// Inside a record, at the start of a field.
    StartField,
    /// Inside an unquoted field.
    Unquoted,
    /// Inside a quoted field, after its opening quote.
    Quoted,
    /// Inside a quoted field, just after a quote that may close it.
    QuoteEnd,
    /// A parse error was hit; the rest of the input is ignored.
    Failed(ReadError),
}

/// The whole parser state: finished rows, the fields of the current row,
/// the bytes of the current field, and the mode.
pub struct ParseState {
    pub rows: Seq<Seq<Seq<u8>>>,
    pub row: Seq<Seq<u8>>,
    pub field: Seq<u8>,
    pub mode: Mode,
}

/// The state before any byte is read.
pub open spec fn init_state() -> ParseState {
    ParseState { rows: seq![], row: seq![], field: Seq::<u8>::empty(), mode: Mode::StartRecord }
}

/// Closes the current field and stands at the start of the next one.
pub open spec fn end_field(st: ParseState) -> ParseState {
    ParseState {
        rows: st.rows,
        row: st.row.push(st.field),
        field: Seq::<u8>::empty(),
        mode: Mode::StartField,
    }
}

/// Closes the current field and the current record.
pub open spec fn end_record(st: ParseState) -> ParseState {
    ParseState {
        rows: st.rows.push(st.row.push(st.field)),
        row: seq![],
        field: Seq::<u8>::empty(),
        mode: Mode::StartRecord,
    }
}

/// Handles a byte at the start of a field: a quote opens a quoted field, a
/// delimiter closes the (empty) field, anything else starts an unquoted one.
pub open spec fn begin_field(st: ParseState, d: u8, b: u8) -> ParseState {
    if b == QUOTE {
        ParseState { rows: st.rows, row: st.row, field: st.field, mode: Mode::Quoted }
    } else if b == d {
        end_field(st)
    } else {
        ParseState { rows: st.rows, row: st.row, field: st.field.push(b), mode: Mode::Unquoted }
    }
}

/// One transition of the state machine on the byte `b`, with delimiter `d`.
pub open spec fn step(st: ParseState, d: u8, b: u8) -> ParseState {
    match st.mode {
        Mode::StartRecord => if b == LF || b == CR {
            st
        } else {
            begin_field(st, d, b)
        },
        Mode::StartField => if b == LF || b == CR {
            end_record(st)
        } else {
            begin_field(st, d, b)
        },
        Mode::Unquoted => if b == d {
            end_field(st)
        } else if b == LF || b == CR {
            end_record(st)
        } else {
            ParseState { rows: st.rows, row: st.row, field: st.field.push(b), mode: Mode::Unquoted }
        },
        Mode::Quoted => if b == QUOTE {
            ParseState { rows: st.rows, row: st.row, field: st.field, mode: Mode::QuoteEnd }
        } else {
            ParseState { rows: st.rows, row: st.row, field: st.field.push(b), mode: Mode::Quoted }
        },
        Mode::QuoteEnd => if b == QUOTE {
            ParseState {
                rows: st.rows,
                row: st.row,
                field: st.field.push(QUOTE),
                mode: Mode::Quoted,
            }
        } else if b == d {
            end_field(st)
        } else if b == LF || b == CR {
            end_record(st)
        } else {
            ParseState {
                rows: st.rows,
                row: st.row,
                field: st.field,
                mode: Mode::Failed(ReadError::MalformedQuote),
            }
        },
        Mode::Failed(_) => st,
    }
}

/// The state after the first `n` bytes of `s`.
pub open spec fn fold(s: Seq<u8>, d: u8, n: int) -> ParseState
    decreases n,
{
    if n <= 0 {
        init_state()
    } else {
        step(fold(s, d, n - 1), d, s[n - 1])
    }
}

/// Closes whatever is open at the end of the input: a record in progress
/// becomes the last row; a quoted field still open is an error.
pub open spec fn finish(st: ParseState) -> (Seq<Seq<Seq<u8>>>, Option<ReadError>) {
    match st.mode {
        Mode::StartRecord => (st.rows, None),
        Mode::StartField => (st.rows.push(st.row.push(st.field)), None),
        Mode::Unquoted => (st.rows.push(st.row.push(st.field)), None),
        Mode::QuoteEnd => (st.rows.push(st.row.push(st.field)), None),
        Mode::Quoted => (st.rows, Some(ReadError::UnterminatedQuote)),
        Mode::Failed(e) => (st.rows, Some(e)),
    }
}

/// The rows that parsing `s` with delimiter `d` yields. On an error these
/// are exactly the rows completed before it: parsing is fail-fast, and
/// what was read before the first malformed record is kept.
pub open spec fn parsed_rows(s: Seq<u8>, d: u8) -> Seq<Seq<Seq<u8>>> {
    finish(fold(s, d, s.len() as int)).0
}

/// The error, if any, that parsing `s` with delimiter `d` hits.
pub open spec fn parse_error(s: Seq<u8>, d: u8) -> Option<ReadError> {
    finish(fold(s, d, s.len() as int)).1
}

/// Whether every row has at least one field.
pub open spec fn rows_nonempty(rows: Seq<Seq<Seq<u8>>>) -> bool {
    forall|i: int| 0 <= i < rows.len() ==> #[trigger] rows[i].len() >= 1
}

proof fn lemma_fold_rows_nonempty(s: Seq<u8>, d: u8, n: int)
    ensures
        rows_nonempty(fold(s, d, n).rows),
    decreases n,
{
    if n > 0 {
        lemma_fold_rows_nonempty(s, d, n - 1);
        let st = fold(s, d, n - 1);
        let st2 = step(st, d, s[n - 1]);
        assert forall|i: int| 0 <= i < st2.rows.len() implies #[trigger] st2.rows[i].len() >= 1 by {
            if i < st.rows.len() {
                assert(st.rows[i].len() >= 1);
            }
        }
    }
}

/// Every parsed row holds at least one field: a record only exists once a
/// field (possibly empty) was closed into it.
pub proof fn lemma_parsed_rows_nonempty(s: Seq<u8>, d: u8)
    ensures
        rows_nonempty(parsed_rows(s, d)),
{
    lemma_fold_rows_nonempty(s, d, s.len() as int);
    let st = fold(s, d, s.len() as int);
    assert forall|i: int| 0 <= i < parsed_rows(s, d).len() implies #[trigger] parsed_rows(s, d)[i].len()
        >= 1 by {
        if i < st.rows.len() {
            assert(st.rows[i].len() >= 1);
        }
    }
}

proof fn lemma_fold_no_quote(s: Seq<u8>, d: u8, n: int)
    requires
        n <= s.len(),
        forall|i: int| 0 <= i < s.len() ==> s[i] != QUOTE,
    ensures
        fold(s, d, n).mode is StartRecord || fold(s, d, n).mode is StartField || fold(
            s,
            d,
            n,
        ).mode is Unquoted,
    decreases n,
{
    if n > 0 {
        lemma_fold_no_quote(s, d, n - 1);
        assert(s[n - 1] != QUOTE);
    }
}

/// Flexible parsing never fails over the shape of the records: on input
/// without a quote character, parsing succeeds whatever the field counts
/// of the rows are — the only errors concern quoted fields.
pub proof fn lemma_no_quote_no_error(s: Seq<u8>, d: u8)
    requires
        forall|i: int| 0 <= i < s.len() ==> s[i] != QUOTE,
    ensures
        parse_error(s, d) is None,
{
    lemma_fold_no_quote(s, d, s.len() as int);
}

/// Parses the whole input. Returns the rows completed before the first
/// error, and the error itself if there was one.
pub fn parse_bytes(data: &Vec<u8>, delim: u8) -> (r: (Vec<Vec<Vec<u8>>>, Option<ReadError>))
    ensures
        r.0.deep_view() == parsed_rows(data@, delim),
        r.1 == parse_error(data@, delim),
{
    let mut rows: Vec<Vec<Vec<u8>>> = Vec::new();
    let mut row: Vec<Vec<u8>> = Vec::new();
    let mut field: Vec<u8> = Vec::new();
    let mut mode = Mode::StartRecord;
    let n = data.len();
    let mut i: usize = 0;
    proof {
        assert(rows.deep_view() =~~= init_state().rows);
        assert(row.deep_view() =~~= init_state().row);
    }
    while i < n
        invariant
            n == data@.len(),
            i <= n,
            rows.deep_view() == fold(data@, delim, i as int).rows,
            row.deep_view() == fold(data@, delim, i as int).row,
            field@ == fold(data@, delim, i as int).field,
            mode == fold(data@, delim, i as int).mode,
        decreases n - i,
    {
        let b = data[i];
        let ghost st = fold(data@, delim, i as int);
        proof {
            assert(fold(data@, delim, i + 1) == step(st, delim, data@[i as int]));
        }
        match mode {
            Mode::StartRecord => {
                if b == LF || b == CR {
                } else if b == QUOTE {
                    mode = Mode::Quoted;
                } else if b == delim {
                    let f = field;
                    field = Vec::new();
                    row.push(f);
                    mode = Mode::StartField;
                    proof {
                        assert(row.deep_view() =~~= st.row.push(st.field));
                        assert(field@ =~= Seq::<u8>::empty());
                    }
                } else {
                    field.push(b);
                    mode = Mode::Unquoted;
                }
            },
            Mode::StartField => {
                if b == LF || b == CR {
                    let f = field;
                    field = Vec::new();
                    row.push(f);
                    let r = row;
                    row = Vec::new();
                    rows.push(r);
                    mode = Mode::StartRecord;
                    proof {
                        assert(rows.deep_view() =~~= st.rows.push(st.row.push(st.field)));
                        assert(row.deep_view() =~~= Seq::<Seq<u8>>::empty());
                        assert(field@ =~= Seq::<u8>::empty());
                    }
                } else if b == QUOTE {
                    mode = Mode::Quoted;
                } else if b == delim {
                    let f = field;
                    field = Vec::new();
                    row.push(f);
                    mode = Mode::StartField;
                    proof {
                        assert(row.deep_view() =~~= st.row.push(st.field));
                        assert(field@ =~= Seq::<u8>::empty());
                    }
                } else {
                    field.push(b);
                    mode = Mode::Unquoted;
                }
            },
            Mode::Unquoted => {
                if b == delim {
                    let f = field;
                    field = Vec::new();
                    row.push(f);
                    mode = Mode::StartField;
                    proof {
                        assert(row.deep_view() =~~= st.row.push(st.field));
                        assert(field@ =~= Seq::<u8>::empty());
                    }
                } else if b == LF || b == CR {
                    let f = field;
                    field = Vec::new();
                    row.push(f);
                    let r = row;
                    row = Vec::new();
                    rows.push(r);
                    mode = Mode::StartRecord;
                    proof {
                        assert(rows.deep_view() =~~= st.rows.push(st.row.push(st.field)));
                        assert(row.deep_view() =~~= Seq::<Seq<u8>>::empty());
                        assert(field@ =~= Seq::<u8>::empty());
                    }
                } else {
                    field.push(b);
                }
            },
            Mode::Quoted => {
                if b == QUOTE {
                    mode = Mode::QuoteEnd;
                } else {
                    field.push(b);
                }
            },
            Mode::QuoteEnd => {
                if b == QUOTE {
                    field.push(QUOTE);
                    mode = Mode::Quoted;
                } else if b == delim {
                    let f = field;
                    field = Vec::new();
                    row.push(f);
                    mode = Mode::StartField;
                    proof {
                        assert(row.deep_view() =~~= st.row.push(st.field));
                        assert(field@ =~= Seq::<u8>::empty());
                    }
                } else if b == LF || b == CR {
                    let f = field;
                    field = Vec::new();
                    row.push(f);
                    let r = row;
                    row = Vec::new();
                    rows.push(r);
                    mode = Mode::StartRecord;
                    proof {
                        assert(rows.deep_view() =~~= st.rows.push(st.row.push(st.field)));
                        assert(row.deep_view() =~~= Seq::<Seq<u8>>::empty());
                        assert(field@ =~= Seq::<u8>::empty());
                    }
                } else {
                    mode = Mode::Failed(ReadError::MalformedQuote);
                }
            },
            Mode::Failed(_) => {},
        }
        i = i + 1;
    }
    let ghost stf = fold(data@, delim, n as int);
    match mode {
        Mode::StartRecord => (rows, None),
        Mode::StartField | Mode::Unquoted | Mode::QuoteEnd => {
            let f = field;
            row.push(f);
            rows.push(row);
            proof {
                assert(rows.deep_view() =~~= stf.rows.push(stf.row.push(stf.field)));
            }
            (rows, None)
        },
        Mode::Quoted => (rows, Some(ReadError::UnterminatedQuote)),
        Mode::Failed(e) => (rows, Some(e)),
    }
}

} // verus!
