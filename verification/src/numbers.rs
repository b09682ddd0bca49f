//! Decimal numerals: formatting the row counter used for renumbering, and
//! parsing the start-row argument.

use vstd::prelude::*;
use vstd::string::StringSliceAdditionalSpecFns;

verus! {

/// The numeral character for one decimal digit.
pub open spec fn dec_digit(d: nat) -> char {
    if d == 0 {
        '0'
    } else if d == 1 {
        '1'
    } else if d == 2 {
        '2'
    } else if d == 3 {
        '3'
    } else if d == 4 {
        '4'
    } else if d == 5 {
        '5'
    } else if d == 6 {
        '6'
    } else if d == 7 {
        '7'
    } else if d == 8 {
        '8'
    } else {
        '9'
    }
}

/// The decimal numeral of `n`, most significant digit first, without
/// leading zeros (except for `n == 0` itself).
pub open spec fn dec_str(n: nat) -> Seq<char>
    decreases n,
{
    if n < 10 {
        seq![dec_digit(n)]
    } else {
        dec_str(n / 10) + seq![dec_digit(n % 10)]
    }
}

fn digit_str(d: u64) -> (r: &'static str)
    requires
        d < 10,
    ensures
        r@ == seq![dec_digit(d as nat)],
{
    proof {
        reveal_strlit("0");
        reveal_strlit("1");
        reveal_strlit("2");
        reveal_strlit("3");
        reveal_strlit("4");
        reveal_strlit("5");
        reveal_strlit("6");
        reveal_strlit("7");
        reveal_strlit("8");
        reveal_strlit("9");
    }
    let r = if d == 0 {
        "0"
    } else if d == 1 {
        "1"
    } else if d == 2 {
        "2"
    } else if d == 3 {
        "3"
    } else if d == 4 {
        "4"
    } else if d == 5 {
        "5"
    } else if d == 6 {
        "6"
    } else if d == 7 {
        "7"
    } else if d == 8 {
        "8"
    } else {
        "9"
    };
    proof {
        assert(r@ =~= seq![dec_digit(d as nat)]);
    }
    r
}

/// Formats `n` as its decimal numeral.
pub fn u64_to_string(n: u64) -> (s: String)
    ensures
        s@ == dec_str(n as nat),
    decreases n,
{
    if n < 10 {
        String::from_str(digit_str(n))
    } else {
        let mut s = u64_to_string(n / 10);
        s.append(digit_str(n % 10));
        s
    }
}

/// Whether the byte is an ASCII decimal digit.
pub open spec fn is_digit(b: u8) -> bool {
    48 <= b <= 57
}

/// The digit string of a numeral: the bytes after an optional leading `+`.
pub open spec fn numeral_digits(s: Seq<u8>) -> Seq<u8> {
    if s.len() > 0 && s[0] == 43 {
        s.drop_first()
    } else {
        s
    }
}

/// How parsing a numeral can fail, mirroring the integer-parsing failures
/// the command line reports.
#[derive(Clone, Copy, PartialEq, Eq, Structural, Debug)]
pub enum NumeralError {
    Empty,
    InvalidDigit,
    TooLarge,
}

/// The left-to-right scan of a digit string: consume one digit at a time
/// into an accumulator, stopping at the first non-digit or at the first
/// step that would exceed `usize::MAX`.
pub open spec fn scan_digits(d: Seq<u8>, acc: nat) -> Result<nat, NumeralError>
    decreases d.len(),
{
    if d.len() == 0 {
        Ok(acc)
    } else if !is_digit(d[0]) {
        Err(NumeralError::InvalidDigit)
    } else if acc * 10 + (d[0] - 48) > usize::MAX {
        Err(NumeralError::TooLarge)
    } else {
        scan_digits(d.drop_first(), acc * 10 + (d[0] - 48) as nat)
    }
}

/// The result of parsing a whole numeral string: empty input and a sign
/// with no digits are rejected before the scan.
pub open spec fn spec_parse_usize(s: Seq<u8>) -> Result<nat, NumeralError> {
    if s.len() == 0 {
        Err(NumeralError::Empty)
    } else if numeral_digits(s).len() == 0 {
        Err(NumeralError::InvalidDigit)
    } else {
        scan_digits(numeral_digits(s), 0)
    }
}

/// The numeric value of a digit string, most significant digit first.
pub open spec fn digits_val(d: Seq<u8>) -> int
    decreases d.len(),
{
    if d.len() == 0 {
        0
    } else {
        digits_val(d.drop_last()) * 10 + (d.last() - 48)
    }
}

/// Whether every byte of the string is a decimal digit.
pub open spec fn all_digits(d: Seq<u8>) -> bool {
    forall|i: int| 0 <= i < d.len() ==> is_digit(#[trigger] d[i])
}

/// The scan succeeds exactly on all-digit strings whose value fits in
/// `usize`, and then computes that value.
pub proof fn lemma_scan_digits_ok(d: Seq<u8>)
    ensures
        (scan_digits(d, 0) is Ok) <==> (all_digits(d) && digits_val(d) <= usize::MAX),
        scan_digits(d, 0) matches Ok(v) ==> v == digits_val(d),
{
    lemma_scan_digits_general(d, 0);
}

proof fn lemma_scan_digits_general(d: Seq<u8>, acc: nat)
    requires
        acc <= usize::MAX,
    ensures
        (scan_digits(d, acc) is Ok) <==> (all_digits(d) && pow10(d.len()) * acc + digits_val(d)
            <= usize::MAX),
        scan_digits(d, acc) matches Ok(v) ==> v == pow10(d.len()) * acc + digits_val(d),
    decreases d.len(),
{
    if d.len() == 0 {
        assert(digits_val(d) == 0);
        assert(pow10(d.len()) == 1);
        assert(all_digits(d));
    } else if !is_digit(d[0]) {
        assert(!all_digits(d));
    } else {
        let acc2 = acc * 10 + (d[0] - 48) as nat;
        let df = d.drop_first();
        lemma_digits_val_drop_first(d);
        assert(pow10(d.len()) == 10 * pow10((d.len() - 1) as nat));
        assert(pow10(df.len()) * acc2 + digits_val(df) == pow10(d.len()) * acc + digits_val(d))
            by (nonlinear_arith)
            requires
                acc2 == acc * 10 + (d[0] - 48),
                d.len() >= 1,
                df.len() == d.len() - 1,
                pow10(d.len()) == 10 * pow10((d.len() - 1) as nat),
                digits_val(d) == pow10(df.len()) * (d[0] - 48) + digits_val(df),
        ;
        assert(forall|i: int| 0 <= i < df.len() ==> df[i] == d[i + 1]);
        assert(all_digits(d) ==> all_digits(df));
        if is_digit(d[0]) && all_digits(df) {
            assert forall|i: int| 0 <= i < d.len() implies is_digit(#[trigger] d[i]) by {
                if i >= 1 {
                    assert(d[i] == df[i - 1]);
                }
            }
            assert(all_digits(d));
        }
        if acc2 > usize::MAX {
            if all_digits(d) {
                lemma_digits_val_bounds(df);
                lemma_pow10_pos(df.len());
                assert(pow10(df.len()) * acc2 >= acc2) by (nonlinear_arith)
                    requires
                        pow10(df.len()) >= 1,
                        acc2 >= 0,
                ;
            }
        } else {
            lemma_scan_digits_general(df, acc2);
        }
    }
}

/// Ten to the power `k`.
pub open spec fn pow10(k: nat) -> nat
    decreases k,
{
    if k == 0 {
        1
    } else {
        10 * pow10((k - 1) as nat)
    }
}

proof fn lemma_pow10_pos(k: nat)
    ensures
        pow10(k) >= 1,
    decreases k,
{
    if k > 0 {
        lemma_pow10_pos((k - 1) as nat);
    }
}

proof fn lemma_digits_val_bounds(d: Seq<u8>)
    requires
        all_digits(d),
    ensures
        0 <= digits_val(d) < pow10(d.len()),
    decreases d.len(),
{
    if d.len() > 0 {
        assert(all_digits(d.drop_last())) by {
            assert(forall|i: int| 0 <= i < d.drop_last().len() ==> d.drop_last()[i] == d[i]);
        }
        lemma_digits_val_bounds(d.drop_last());
        assert(pow10(d.len()) == 10 * pow10((d.len() - 1) as nat));
        assert(digits_val(d.drop_last()) * 10 + (d.last() - 48) < 10 * pow10((d.len() - 1) as nat))
            by (nonlinear_arith)
            requires
                0 <= digits_val(d.drop_last()) < pow10((d.len() - 1) as nat),
                0 <= d.last() - 48 <= 9,
        ;
    }
}

/// The value of a digit string decomposed at its first digit.
proof fn lemma_digits_val_drop_first(d: Seq<u8>)
    requires
        d.len() >= 1,
    ensures
        digits_val(d) == pow10(d.drop_first().len()) * (d[0] - 48) + digits_val(d.drop_first()),
    decreases d.len(),
{
    if d.len() == 1 {
        assert(d.drop_first().len() == 0);
        assert(d.drop_last().len() == 0);
        assert(d.last() == d[0]);
        assert(digits_val(d.drop_last()) == 0);
        assert(digits_val(d.drop_first()) == 0);
        assert(pow10(d.drop_first().len()) == 1);
        assert(digits_val(d) == d[0] - 48);
    } else {
        lemma_digits_val_drop_first(d.drop_last());
        assert(d.drop_last()[0] == d[0]);
        assert(d.drop_last().drop_first() =~= d.drop_first().drop_last());
        assert(d.drop_first().last() == d.last());
        let e = d.drop_first();
        assert(digits_val(e) == digits_val(e.drop_last()) * 10 + (e.last() - 48));
        assert(pow10(e.len()) == 10 * pow10((e.len() - 1) as nat));
        assert(digits_val(d.drop_last()) * 10 + (d.last() - 48) == pow10(e.len()) * (d[0] - 48)
            + digits_val(e)) by (nonlinear_arith)
            requires
                digits_val(d.drop_last()) == pow10((e.len() - 1) as nat) * (d[0] - 48) + digits_val(
                    e.drop_last(),
                ),
                digits_val(e) == digits_val(e.drop_last()) * 10 + (e.last() - 48),
                d.last() == e.last(),
                pow10(e.len()) == 10 * pow10((e.len() - 1) as nat),
        ;
    }
}

/// Parses a decimal numeral with an optional leading `+`, as the start-row
/// option is parsed: empty input, a non-digit, and a value over
/// `usize::MAX` are the three failures.
#[verifier::loop_isolation(false)]
pub fn parse_usize(s: &str) -> (r: Result<usize, NumeralError>)
    ensures
        (r is Ok) <==> (spec_parse_usize(s.spec_bytes()) is Ok),
        r matches Ok(v) ==> spec_parse_usize(s.spec_bytes()) == Ok::<nat, NumeralError>(v as nat),
        r matches Err(e) ==> spec_parse_usize(s.spec_bytes()) == Err::<nat, NumeralError>(e),
        (r is Ok) <==> (numeral_digits(s.spec_bytes()).len() > 0 && all_digits(
            numeral_digits(s.spec_bytes()),
        ) && digits_val(numeral_digits(s.spec_bytes())) <= usize::MAX),
        r matches Ok(v) ==> v == digits_val(numeral_digits(s.spec_bytes())),
{
    proof {
        lemma_scan_digits_ok(numeral_digits(s.spec_bytes()));
    }
    let b = s.as_bytes();
    let n = b.len();
    if n == 0 {
        return Err(NumeralError::Empty);
    }
    let from: usize = if b[0] == 43 {
        1
    } else {
        0
    };
    proof {
        assert(numeral_digits(s.spec_bytes()) =~= b@.skip(from as int));
    }
    if from == 1 && n == 1 {
        return Err(NumeralError::InvalidDigit);
    }
    let ghost d = b@.skip(from as int);
    proof {
        assert(d.skip(0) =~= d);
    }
    let mut acc: usize = 0;
    let mut i: usize = from;
    while i < n
        invariant
            n == b@.len(),
            from <= i <= n,
            d == b@.skip(from as int),
            d == numeral_digits(s.spec_bytes()),
            d.len() > 0,
            scan_digits(d, 0) == scan_digits(d.skip(i - from), acc as nat),
        decreases n - i,
    {
        let c = b[i];
        proof {
            assert(d.skip(i - from)[0] == b@[i as int]);
        }
        if c < 48 || c > 57 {
            proof {
                assert(d.skip(i - from).len() > 0);
                assert(!is_digit(d.skip(i - from)[0]));
                assert(scan_digits(d.skip(i - from), acc as nat) == Err::<nat, NumeralError>(
                    NumeralError::InvalidDigit,
                ));
                assert(spec_parse_usize(s.spec_bytes()) == Err::<nat, NumeralError>(
                    NumeralError::InvalidDigit,
                ));
            }
            return Err(NumeralError::InvalidDigit);
        }
        let digit = (c - 48) as usize;
        if acc > (usize::MAX - digit) / 10 {
            proof {
                assert(acc * 10 + digit > usize::MAX) by (nonlinear_arith)
                    requires
                        acc > ((usize::MAX - digit) / 10),
                        0 <= digit <= 9,
                        acc >= 0,
                        usize::MAX >= 9,
                ;
                assert(scan_digits(d.skip(i - from), acc as nat) == Err::<nat, NumeralError>(
                    NumeralError::TooLarge,
                ));
            }
            return Err(NumeralError::TooLarge);
        }
        proof {
            assert(acc * 10 + digit <= usize::MAX) by (nonlinear_arith)
                requires
                    acc <= ((usize::MAX - digit) / 10),
                    0 <= digit <= 9,
                    acc >= 0,
            ;
            assert(d.skip(i - from).drop_first() =~= d.skip(i + 1 - from));
        }
        acc = acc * 10 + digit;
        i = i + 1;
    }
    proof {
        assert(d.skip(n - from).len() == 0);
    }
    Ok(acc)
}

} // verus!
