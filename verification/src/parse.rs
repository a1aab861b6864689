//! The parser: from a raw byte buffer to a database.  The grammar is
//! line oriented: a header line `[Name field:type ...]` opens a table,
//! each following non-blank line is one row of whitespace-separated
//! value literals, and each literal's grammar is chosen by its column's
//! declared kind, never inferred from its shape.

use crate::date::{Date, DateTime};
use crate::field::FieldType;
use crate::realnum::{Real, REAL_MAN_LIMIT, REAL_SENTINEL_MAN};
use crate::table::Table;
use crate::tdb::Tdb;
use crate::value::Record;
use crate::util::{
    spec_all_digits, spec_digits_val, spec_hex_val, spec_is_digit, spec_is_hex, spec_pow10,
    BACKSLASH, BANG, COLON, DASH, DOT, LANGLE, LPAREN, QUERY, RANGLE, RPAREN, TSEP,
};
use crate::value::{spec_needs_escape, Value, ValueModel, INT_SENTINEL};
use vstd::prelude::*;

verus! {

/// What went wrong: one variant per error category of the format.
#[derive(Clone, Copy, Debug, PartialEq, Eq, Structural)]
pub enum ErrorKind {
    /// A header line is not `[Name field:type ...]`.
    MalformedHeader,
    /// A header names a type that is not one of the seven.
    UnknownType,
    /// A header repeats a field name.
    DuplicateField,
    /// A second table under an already-used name.
    DuplicateTable,
    /// A string literal with no closing `>` on its line.
    UnterminatedString,
    /// A backslash before anything but `<`, `>` or `\`.
    InvalidEscape,
    /// A bytes literal with a non-hex byte, an odd digit count, or no
    /// closing `)` on its line.
    InvalidHex,
    /// A row whose token count differs from the column count.
    ArityMismatch { expected: usize, actual: usize },
    /// A literal that does not fit its column's declared kind.
    TypeMismatch,
    /// A date or time component outside the calendar's range.
    OutOfRangeDate,
    /// A numeric literal too large for the representation.
    OutOfRangeNumber,
    /// `!` in a column whose kind has no reserved sentinel.
    NoSentinel,
    /// A row line before any table header.
    ExpectedHeader,
}

/// A parse failure: the error category and the one-based line it was
/// found on.
#[derive(Clone, Copy, Debug, PartialEq, Eq, Structural)]
pub struct ParseError {
    pub lino: usize,
    pub kind: ErrorKind,
}

/// True when every byte of `s` is a hexadecimal digit.
pub open spec fn spec_all_hex(s: Seq<u8>) -> bool {
    forall|i: int| 0 <= i < s.len() ==> spec_is_hex(#[trigger] s[i])
}

/// The bytes named by a string of hexadecimal digit pairs.
pub open spec fn spec_unhex(s: Seq<u8>) -> Seq<u8>
    decreases s.len(),
{
    if s.len() < 2 {
        Seq::empty()
    } else {
        spec_unhex(s.drop_last().drop_last()).push(
            (spec_hex_val(s[s.len() - 2]) * 16 + spec_hex_val(s.last())) as u8,
        )
    }
}

/// The text named by an escaped string body, or `None` when the body
/// holds a bad escape or a bare closing angle bracket.
pub open spec fn spec_unescape(s: Seq<u8>) -> Option<Seq<u8>>
    decreases s.len(),
{
    if s.len() == 0 {
        Some(Seq::empty())
    } else if s[0] == BACKSLASH {
        if s.len() >= 2 && spec_needs_escape(s[1]) {
            match spec_unescape(s.skip(2)) {
                Some(r) => Some(seq![s[1]] + r),
                None => None,
            }
        } else {
            None
        }
    } else if s[0] == RANGLE {
        None
    } else {
        match spec_unescape(s.skip(1)) {
            Some(r) => Some(seq![s[0]] + r),
            None => None,
        }
    }
}

/// The value of a digit string, or `None` when it is empty or holds a
/// non-digit.
pub open spec fn spec_uint(s: Seq<u8>) -> Option<int> {
    if s.len() > 0 && spec_all_digits(s) {
        Some(spec_digits_val(s))
    } else {
        None
    }
}

/// The signed value of an integer literal: an optional `-` then digits.
pub open spec fn spec_parse_int(s: Seq<u8>) -> Option<int> {
    if s.len() > 0 && s[0] == DASH {
        match spec_uint(s.skip(1)) {
            Some(u) => Some(-u),
            None => None,
        }
    } else {
        spec_uint(s)
    }
}

/// The index of the first decimal point at or after `i`, or the length.
pub open spec fn spec_find_dot(s: Seq<u8>, i: int) -> int
    decreases s.len() - i,
{
    if i < 0 || i >= s.len() {
        s.len() as int
    } else if s[i] == DOT {
        i
    } else {
        spec_find_dot(s, i + 1)
    }
}

/// The scaled mantissa of a real literal: an optional `-`, whole
/// digits, and an optional point followed by fraction digits, of which
/// the first nine count.
pub open spec fn spec_parse_real_man(s: Seq<u8>) -> Option<int> {
    let neg = s.len() > 0 && s[0] == DASH;
    let t = if neg {
        s.skip(1)
    } else {
        s
    };
    let d = spec_find_dot(t, 0);
    if d == t.len() {
        match spec_uint(t) {
            Some(u) => Some(
                if neg {
                    -u * 1_000_000_000
                } else {
                    u * 1_000_000_000
                },
            ),
            None => None,
        }
    } else {
        let ipart = t.subrange(0, d);
        let fpart = t.subrange(d + 1, t.len() as int);
        if ipart.len() > 0 && spec_all_digits(ipart) && fpart.len() > 0 && spec_all_digits(fpart) {
            let k = if fpart.len() >= 9 {
                9
            } else {
                fpart.len() as int
            };
            let mag = spec_digits_val(ipart) * 1_000_000_000 + spec_digits_val(fpart.take(k))
                * spec_pow10((9 - k) as nat);
            Some(
                if neg {
                    -mag
                } else {
                    mag
                },
            )
        } else {
            None
        }
    }
}

/// True when `s` has the `YYYY-MM-DD` shape.
pub open spec fn spec_date_shape(s: Seq<u8>) -> bool {
    s.len() == 10 && s[4] == DASH && s[7] == DASH && spec_all_digits(s.subrange(0, 4))
        && spec_all_digits(s.subrange(5, 7)) && spec_all_digits(s.subrange(8, 10))
}

/// The year of a date-shaped literal.
pub open spec fn spec_date_y(s: Seq<u8>) -> int {
    spec_digits_val(s.subrange(0, 4))
}

/// The month of a date-shaped literal.
pub open spec fn spec_date_m(s: Seq<u8>) -> int {
    spec_digits_val(s.subrange(5, 7))
}

/// The day of a date-shaped literal.
pub open spec fn spec_date_d(s: Seq<u8>) -> int {
    spec_digits_val(s.subrange(8, 10))
}

/// True when `s` has a datetime shape: a date, `T`, an hour, and
/// optionally minutes and then seconds.
pub open spec fn spec_datetime_shape(s: Seq<u8>) -> bool {
    (s.len() == 13 || s.len() == 16 || s.len() == 19) && spec_date_shape(s.subrange(0, 10))
        && s[10] == TSEP && spec_all_digits(s.subrange(11, 13)) && (s.len() >= 16 ==> s[13]
        == COLON && spec_all_digits(s.subrange(14, 16))) && (s.len() == 19 ==> s[16] == COLON
        && spec_all_digits(s.subrange(17, 19)))
}

/// The hour of a datetime-shaped literal.
pub open spec fn spec_dt_hour(s: Seq<u8>) -> int {
    spec_digits_val(s.subrange(11, 13))
}

/// The minute of a datetime-shaped literal; absent minutes are zero.
pub open spec fn spec_dt_minute(s: Seq<u8>) -> int {
    if s.len() >= 16 {
        spec_digits_val(s.subrange(14, 16))
    } else {
        0
    }
}

/// The second of a datetime-shaped literal; absent seconds are zero.
pub open spec fn spec_dt_second(s: Seq<u8>) -> int {
    if s.len() == 19 {
        spec_digits_val(s.subrange(17, 19))
    } else {
        0
    }
}

/// The reserved sentinel value of a kind, where the kind has one.
pub open spec fn spec_sentinel_of(k: FieldType) -> Option<ValueModel> {
    match k {
        FieldType::Date => Some(ValueModel::Date(crate::value::spec_date_sentinel())),
        FieldType::DateTime => Some(ValueModel::DateTime(crate::value::spec_datetime_sentinel())),
        FieldType::Int => Some(ValueModel::Int(INT_SENTINEL as int)),
        FieldType::Real => Some(ValueModel::Real(REAL_SENTINEL_MAN as int)),
        _ => None,
    }
}

/// What one whitespace-free token means in a column of kind `k`: the
/// slot it parses to, or the error it raises.
pub open spec fn spec_token_result(s: Seq<u8>, k: FieldType) -> Result<
    Option<ValueModel>,
    ErrorKind,
> {
    if s == seq![QUERY] {
        Ok(None)
    } else if s == seq![BANG] {
        match spec_sentinel_of(k) {
            Some(v) => Ok(Some(v)),
            None => Err(ErrorKind::NoSentinel),
        }
    } else {
        match k {
            FieldType::Bool => if s == seq![84u8] {
                Ok(Some(ValueModel::Bool(true)))
            } else if s == seq![70u8] {
                Ok(Some(ValueModel::Bool(false)))
            } else {
                Err(ErrorKind::TypeMismatch)
            },
            FieldType::Int => match spec_parse_int(s) {
                Some(v) => if -0x8000_0000_0000_0000 <= v <= 0x7fff_ffff_ffff_ffff {
                    Ok(Some(ValueModel::Int(v)))
                } else {
                    Err(ErrorKind::OutOfRangeNumber)
                },
                None => Err(ErrorKind::TypeMismatch),
            },
            FieldType::Real => match spec_parse_real_man(s) {
                Some(man) => if -REAL_MAN_LIMIT < man < REAL_MAN_LIMIT {
                    Ok(Some(ValueModel::Real(man)))
                } else {
                    Err(ErrorKind::OutOfRangeNumber)
                },
                None => Err(ErrorKind::TypeMismatch),
            },
            FieldType::Date => if spec_date_shape(s) {
                if crate::date::spec_valid_date(spec_date_y(s), spec_date_m(s), spec_date_d(s)) {
                    Ok(
                        Some(
                            ValueModel::Date(
                                Date {
                                    year: spec_date_y(s) as u16,
                                    month: spec_date_m(s) as u8,
                                    day: spec_date_d(s) as u8,
                                },
                            ),
                        ),
                    )
                } else {
                    Err(ErrorKind::OutOfRangeDate)
                }
            } else {
                Err(ErrorKind::TypeMismatch)
            },
            FieldType::DateTime => if spec_datetime_shape(s) {
                if crate::date::spec_valid_date(
                    spec_date_y(s.subrange(0, 10)),
                    spec_date_m(s.subrange(0, 10)),
                    spec_date_d(s.subrange(0, 10)),
                ) && crate::date::spec_valid_time(
                    spec_dt_hour(s),
                    spec_dt_minute(s),
                    spec_dt_second(s),
                ) {
                    Ok(
                        Some(
                            ValueModel::DateTime(
                                DateTime {
                                    date: Date {
                                        year: spec_date_y(s.subrange(0, 10)) as u16,
                                        month: spec_date_m(s.subrange(0, 10)) as u8,
                                        day: spec_date_d(s.subrange(0, 10)) as u8,
                                    },
                                    hour: spec_dt_hour(s) as u8,
                                    minute: spec_dt_minute(s) as u8,
                                    second: spec_dt_second(s) as u8,
                                },
                            ),
                        ),
                    )
                } else {
                    Err(ErrorKind::OutOfRangeDate)
                }
            } else {
                Err(ErrorKind::TypeMismatch)
            },
            FieldType::Bytes => if s.len() >= 2 && s[0] == LPAREN && s.last() == RPAREN {
                let inner = s.subrange(1, s.len() - 1);
                if inner.len() % 2 == 0 && spec_all_hex(inner) {
                    Ok(Some(ValueModel::Bytes(spec_unhex(inner))))
                } else {
                    Err(ErrorKind::InvalidHex)
                }
            } else {
                Err(ErrorKind::TypeMismatch)
            },
            FieldType::Str => if s.len() >= 2 && s[0] == LANGLE && s.last() == RANGLE {
                match spec_unescape(s.subrange(1, s.len() - 1)) {
                    Some(u) => Ok(Some(ValueModel::Str(u))),
                    None => Err(ErrorKind::InvalidEscape),
                }
            } else if s.len() >= 1 && s[0] != LANGLE && (forall|i: int|
                0 <= i < s.len() ==> !spec_needs_escape(#[trigger] s[i])) {
                // a bare token stands for its own bytes
                Ok(Some(ValueModel::Str(s)))
            } else {
                Err(ErrorKind::TypeMismatch)
            },
        }
    }
}

/// Reports whether every byte of `s[a..b]` is a decimal digit.
fn all_digits_range(s: &[u8], a: usize, b: usize) -> (r: bool)
    requires
        a <= b <= s@.len(),
    ensures
        r == spec_all_digits(s@.subrange(a as int, b as int)),
{
    let ghost sub = s@.subrange(a as int, b as int);
    let mut i: usize = a;
    while i < b
        invariant
            a <= i <= b <= s@.len(),
            sub == s@.subrange(a as int, b as int),
            forall|j: int| 0 <= j < i - a ==> spec_is_digit(#[trigger] sub[j]),
        decreases b - i,
    {
        if !(0x30 <= s[i] && s[i] <= 0x39) {
            assert(!spec_is_digit(sub[i - a]));
            return false;
        }
        assert(spec_is_digit(sub[i - a]));
        i += 1;
    }
    true
}

/// The value of the digit range `s[a..b]`, or `None` when it exceeds
/// `cap`.
fn digits_value(s: &[u8], a: usize, b: usize, cap: u64) -> (r: Option<u64>)
    requires
        a <= b <= s@.len(),
        spec_all_digits(s@.subrange(a as int, b as int)),
        cap <= 0x8000_0000_0000_0000,
    ensures
        match r {
            Some(v) => v as int == spec_digits_val(s@.subrange(a as int, b as int)) && v <= cap,
            None => spec_digits_val(s@.subrange(a as int, b as int)) > cap,
        },
{
    let ghost sub = s@.subrange(a as int, b as int);
    let mut acc: u64 = 0;
    let mut i: usize = a;
    while i < b
        invariant
            a <= i <= b <= s@.len(),
            sub == s@.subrange(a as int, b as int),
            spec_all_digits(sub),
            cap <= 0x8000_0000_0000_0000,
            acc as int == spec_digits_val(sub.take(i - a)),
            acc <= cap,
        decreases b - i,
    {
        proof {
            assert(sub[i - a] == s@[i as int]);
            assert(spec_is_digit(sub[i - a]));
            assert(sub.take(i - a + 1).drop_last() =~= sub.take(i - a));
        }
        let d: u8 = s[i] - 0x30;
        let next: u128 = (acc as u128) * 10 + (d as u128);
        assert(next as int == spec_digits_val(sub.take(i - a + 1)));
        if next > cap as u128 {
            proof {
                crate::util::lemma_digits_val_prefix_le(sub, i - a + 1);
            }
            return None;
        }
        acc = next as u64;
        i += 1;
    }
    proof {
        assert(sub.take(b - a) =~= sub);
    }
    Some(acc)
}


/// Parses an integer token.
fn tok_int(s: &[u8]) -> (r: Result<i64, ErrorKind>)
    ensures
        match r {
            Ok(v) => spec_parse_int(s@) == Some(v as int),
            Err(e) => e == (match spec_parse_int(s@) {
                Some(v) => ErrorKind::OutOfRangeNumber,
                None => ErrorKind::TypeMismatch,
            }) && (e == ErrorKind::OutOfRangeNumber ==> (spec_parse_int(s@) matches Some(v)
                && !(-0x8000_0000_0000_0000 <= v <= 0x7fff_ffff_ffff_ffff))),
        },
{
    let n = s.len();
    let neg = n > 0 && s[0] == DASH;
    let a: usize = if neg {
        1
    } else {
        0
    };
    proof {
        if neg {
            assert(s@.skip(1) =~= s@.subrange(1, n as int));
        } else {
            assert(s@ =~= s@.subrange(0, n as int));
        }
    }
    if a >= n {
        return Err(ErrorKind::TypeMismatch);
    }
    if !all_digits_range(s, a, n) {
        return Err(ErrorKind::TypeMismatch);
    }
    let cap: u64 = if neg {
        0x8000_0000_0000_0000
    } else {
        0x7fff_ffff_ffff_ffff
    };
    match digits_value(s, a, n, cap) {
        None => Err(ErrorKind::OutOfRangeNumber),
        Some(v) => if neg {
            Ok((-(v as i128)) as i64)
        } else {
            Ok(v as i64)
        },
    }
}

/// Parses a real token, returning its scaled mantissa.
#[verifier::rlimit(100)]
fn tok_real(s: &[u8]) -> (r: Result<i128, ErrorKind>)
    ensures
        match r {
            Ok(man) => spec_parse_real_man(s@) == Some(man as int) && -REAL_MAN_LIMIT < man
                < REAL_MAN_LIMIT,
            Err(e) => e == (match spec_parse_real_man(s@) {
                Some(man) => ErrorKind::OutOfRangeNumber,
                None => ErrorKind::TypeMismatch,
            }) && (e == ErrorKind::OutOfRangeNumber ==> (spec_parse_real_man(s@) matches Some(
                man,
            ) && !(-REAL_MAN_LIMIT < man < REAL_MAN_LIMIT))),
        },
{
    proof {
        reveal_with_fuel(spec_pow10, 20);
    }
    let n = s.len();
    let neg = n > 0 && s[0] == DASH;
    let a: usize = if neg {
        1
    } else {
        0
    };
    let ghost t = if neg {
        s@.skip(1)
    } else {
        s@
    };
    if a >= n {
        assert(t.len() == 0);
        return Err(ErrorKind::TypeMismatch);
    }
    // find the decimal point
    let mut i: usize = a;
    while i < n && s[i] != DOT
        invariant
            a <= i <= n == s@.len(),
            t == (if neg {
                s@.skip(1)
            } else {
                s@
            }),
            a == (if neg {
                1int
            } else {
                0int
            }),
            spec_find_dot(t, 0) == spec_find_dot(t, i - a),
            forall|j: int| 0 <= j < i - a ==> t[j] != DOT,
        decreases n - i,
    {
        assert(t[i - a] == s@[i as int]);
        i += 1;
    }
    let ghost d = spec_find_dot(t, 0);
    proof {
        if i == n {
            assert(d == t.len());
        } else {
            assert(t[i - a] == DOT);
            assert(d == i - a);
        }
    }
    if i == n {
        // no fraction part
        if !all_digits_range(s, a, n) {
            assert(t =~= s@.subrange(a as int, n as int));
            return Err(ErrorKind::TypeMismatch);
        }
        assert(t =~= s@.subrange(a as int, n as int));
        match digits_value(s, a, n, 99_999_999_999_999_999) {
            None => {
                assert(spec_uint(t) matches Some(u) && u > 99_999_999_999_999_999);
                return Err(ErrorKind::OutOfRangeNumber);
            },
            Some(u) => {
                let m: i128 = (u as i128) * 1_000_000_000;
                if neg {
                    return Ok(-m);
                } else {
                    return Ok(m);
                }
            },
        }
    }
    // s[i] is the dot; whole part is s[a..i], fraction is s[i+1..n]
    if i == a || i + 1 >= n {
        assert(spec_parse_real_man(s@) is None);
        return Err(ErrorKind::TypeMismatch);
    }
    let ghost ipart = t.subrange(0, d);
    let ghost fpart = t.subrange(d + 1, t.len() as int);
    proof {
        assert(ipart =~= s@.subrange(a as int, i as int));
        assert(fpart =~= s@.subrange(i as int + 1, n as int));
    }
    if !all_digits_range(s, a, i) {
        return Err(ErrorKind::TypeMismatch);
    }
    if !all_digits_range(s, i + 1, n) {
        return Err(ErrorKind::TypeMismatch);
    }
    let k: usize = if n - (i + 1) >= 9 {
        9
    } else {
        n - (i + 1)
    };
    proof {
        assert(fpart.take(k as int) =~= s@.subrange(i as int + 1, (i + 1 + k) as int));
        crate::util::lemma_digits_val_bound(fpart.take(k as int));
    }
    let f = match digits_value(s, i + 1, i + 1 + k, 1_000_000_000) {
        Some(f) => f,
        None => {
            proof {
                assert(false);
            }
            return Err(ErrorKind::TypeMismatch);
        },
    };
    let p = crate::realnum::pow10_u64((9 - k) as u8);
    let ghost kk = k as int;
    proof {
        crate::realnum::lemma_pow10_adds(kk as nat, (9 - kk) as nat);
        crate::util::lemma_pow10_pos(kk as nat);
        crate::util::lemma_pow10_pos((9 - kk) as nat);
    }
    assert((f as int) * (p as int) < 1_000_000_000) by (nonlinear_arith)
        requires
            0 <= f as int,
            (f as int) < spec_pow10(kk as nat),
            (p as int) == spec_pow10((9 - kk) as nat),
            spec_pow10(9) == spec_pow10(kk as nat) * spec_pow10((9 - kk) as nat),
            spec_pow10(9) == 1_000_000_000,
            (p as int) >= 1,
            spec_pow10(kk as nat) >= 1,
    ;
    let fscaled128: u128 = (f as u128) * (p as u128);
    let fscaled: u64 = fscaled128 as u64;
    match digits_value(s, a, i, 99_999_999_999_999_999) {
        None => {
            assert(spec_digits_val(ipart) > 99_999_999_999_999_999);
            return Err(ErrorKind::OutOfRangeNumber);
        },
        Some(u) => {
            let mag: i128 = (u as i128) * 1_000_000_000 + (fscaled as i128);
            if neg {
                Ok(-mag)
            } else {
                Ok(mag)
            }
        },
    }
}

/// Parses a date token into its components.
fn tok_date_parts(s: &[u8]) -> (r: Option<(u16, u8, u8)>)
    ensures
        match r {
            Some(p) => spec_date_shape(s@) && p.0 as int == spec_date_y(s@) && p.1 as int
                == spec_date_m(s@) && p.2 as int == spec_date_d(s@),
            None => !spec_date_shape(s@),
        },
{
    proof {
        reveal_with_fuel(spec_pow10, 20);
    }
    if s.len() != 10 {
        return None;
    }
    if s[4] != DASH || s[7] != DASH {
        return None;
    }
    if !all_digits_range(s, 0, 4) || !all_digits_range(s, 5, 7) || !all_digits_range(s, 8, 10) {
        return None;
    }
    proof {
        crate::util::lemma_digits_val_bound(s@.subrange(0, 4));
        crate::util::lemma_digits_val_bound(s@.subrange(5, 7));
        crate::util::lemma_digits_val_bound(s@.subrange(8, 10));
    }
    let y = match digits_value(s, 0, 4, 10_000) {
        Some(y) => y,
        None => {
            proof {
                assert(false);
            }
            return None;
        },
    };
    let m = match digits_value(s, 5, 7, 100) {
        Some(m) => m,
        None => {
            proof {
                assert(false);
            }
            return None;
        },
    };
    let d = match digits_value(s, 8, 10, 100) {
        Some(d) => d,
        None => {
            proof {
                assert(false);
            }
            return None;
        },
    };
    Some((y as u16, m as u8, d as u8))
}

/// Parses a bytes token body.
fn tok_bytes(s: &[u8]) -> (r: Result<Vec<u8>, ErrorKind>)
    requires
        s@.len() >= 2,
        s@[0] == LPAREN,
        s@.last() == RPAREN,
    ensures
        ({
            let inner = s@.subrange(1, s@.len() - 1);
            match r {
                Ok(v) => inner.len() % 2 == 0 && spec_all_hex(inner) && v@ == spec_unhex(inner),
                Err(e) => e == ErrorKind::InvalidHex && !(inner.len() % 2 == 0 && spec_all_hex(
                    inner,
                )),
            }
        }),
{
    let n = s.len();
    let ghost inner = s@.subrange(1, n as int - 1);
    if (n - 2) % 2 != 0 {
        return Err(ErrorKind::InvalidHex);
    }
    let mut out: Vec<u8> = Vec::new();
    let mut i: usize = 1;
    while i + 1 < n
        invariant
            1 <= i <= n - 1,
            (i - 1) % 2 == 0,
            (n - 2) % 2 == 0,
            n == s@.len(),
            n >= 2,
            inner == s@.subrange(1, n as int - 1),
            out@ == spec_unhex(inner.take(i - 1)),
            forall|j: int| 0 <= j < i - 1 ==> spec_is_hex(#[trigger] inner[j]),
        decreases n - i,
    {
        let hi = s[i];
        let lo = s[i + 1];
        proof {
            assert(inner[i - 1] == s@[i as int]);
            assert(inner[i as int] == s@[i as int + 1]);
        }
        if !crate::util::is_hex(hi) {
            return Err(ErrorKind::InvalidHex);
        }
        if !crate::util::is_hex(lo) {
            return Err(ErrorKind::InvalidHex);
        }
        let h = crate::util::hex_val(hi);
        let l = crate::util::hex_val(lo);
        out.push(h * 16 + l);
        i += 2;
        proof {
            assert(inner.take(i - 1).drop_last().drop_last() =~= inner.take(i - 3));
            assert(inner.take(i - 1).last() == lo);
            assert(inner.take(i - 1)[i - 2] == lo);
            assert(inner.take(i - 1)[i - 3] == hi);
        }
    }
    proof {
        assert(i == n - 1);
        assert(inner.take(n as int - 2) =~= inner);
        assert(spec_all_hex(inner));
    }
    Ok(out)
}

/// Parses a string token body, undoing the escapes.
fn tok_str(s: &[u8]) -> (r: Result<Vec<u8>, ErrorKind>)
    requires
        s@.len() >= 2,
        s@[0] == LANGLE,
        s@.last() == RANGLE,
    ensures
        ({
            let inner = s@.subrange(1, s@.len() - 1);
            match r {
                Ok(v) => spec_unescape(inner) == Some(v@),
                Err(e) => e == ErrorKind::InvalidEscape && spec_unescape(inner) is None,
            }
        }),
{
    let n = s.len();
    let ghost inner = s@.subrange(1, n as int - 1);
    let mut out: Vec<u8> = Vec::new();
    let mut i: usize = 1;
    proof {
        assert(inner.skip(0) =~= inner);
        let o = spec_unescape(inner);
        if o is Some {
            assert(Seq::<u8>::empty() + o->Some_0 =~= o->Some_0);
        }
    }
    while i < n - 1
        invariant
            1 <= i <= n - 1,
            n == s@.len(),
            n >= 2,
            inner == s@.subrange(1, n as int - 1),
            spec_unescape(inner) == (match spec_unescape(inner.skip(i - 1)) {
                Some(x) => Some(out@ + x),
                None => None::<Seq<u8>>,
            }),
        decreases n - i,
    {
        let b = s[i];
        let ghost rest = inner.skip(i - 1);
        proof {
            assert(rest[0] == inner[i - 1]);
            assert(inner[i - 1] == s@[i as int]);
        }
        if b == BACKSLASH {
            if i + 1 >= n - 1 {
                assert(rest.len() == 1);
                assert(spec_unescape(rest) is None);
                return Err(ErrorKind::InvalidEscape);
            }
            let c = s[i + 1];
            proof {
                assert(rest[1] == inner[i as int]);
                assert(inner[i as int] == s@[i as int + 1]);
            }
            if c == LANGLE || c == RANGLE || c == BACKSLASH {
                out.push(c);
                i += 2;
                proof {
                    assert(rest.skip(2) =~= inner.skip(i - 1));
                    let o = spec_unescape(inner.skip(i - 1));
                    if o is Some {
                        assert(out@ + o->Some_0 =~= out@.drop_last() + (seq![c] + o->Some_0));
                    }
                }
            } else {
                assert(spec_unescape(rest) is None);
                return Err(ErrorKind::InvalidEscape);
            }
        } else if b == RANGLE {
            assert(spec_unescape(rest) is None);
            return Err(ErrorKind::InvalidEscape);
        } else {
            out.push(b);
            i += 1;
            proof {
                assert(rest.skip(1) =~= inner.skip(i - 1));
                let o = spec_unescape(inner.skip(i - 1));
                if o is Some {
                    assert(out@ + o->Some_0 =~= out@.drop_last() + (seq![b] + o->Some_0));
                }
            }
        }
    }
    proof {
        assert(inner.skip(n as int - 2) =~= Seq::<u8>::empty());
        assert(spec_unescape(inner) == Some(out@ + Seq::<u8>::empty()));
        assert(out@ + Seq::<u8>::empty() =~= out@);
    }
    Ok(out)
}

/// Parses one whitespace-free token against the declared kind of its
/// column, yielding the slot it denotes or the error it raises,
/// exactly as `spec_token_result` says.
pub fn parse_token(tok: &[u8], kind: FieldType) -> (r: Result<Option<Value>, ErrorKind>)
    requires
        forall|i: int| 0 <= i < tok@.len() ==> tok@[i] != crate::util::NL,
    ensures
        match r {
            Ok(slot) => spec_token_result(tok@, kind) == Ok::<Option<ValueModel>, ErrorKind>(
                crate::value::spec_slot_view(slot),
            ) && crate::value::spec_slot_ok(slot, kind) && (slot matches Some(v)
                ==> crate::value::spec_wf_value(v)),
            Err(e) => spec_token_result(tok@, kind) == Err::<Option<ValueModel>, ErrorKind>(e),
        },
{
    let n = tok.len();
    if n == 1 && tok[0] == QUERY {
        assert(tok@ =~= seq![QUERY]);
        return Ok(None);
    }
    assert(tok@ != seq![QUERY]);
    if n == 1 && tok[0] == BANG {
        assert(tok@ =~= seq![BANG]);
        match kind {
            FieldType::Date => {
                let d = Date { year: 1808, month: 8, day: 8 };
                assert(d == crate::value::spec_date_sentinel());
                assert(d.wf());
                return Ok(Some(Value::Date(d)));
            },
            FieldType::DateTime => {
                let d = Date { year: 1808, month: 8, day: 8 };
                let dt = DateTime { date: d, hour: 8, minute: 8, second: 8 };
                assert(dt == crate::value::spec_datetime_sentinel());
                assert(dt.wf());
                return Ok(Some(Value::DateTime(dt)));
            },
            FieldType::Int => {
                return Ok(Some(Value::Int(INT_SENTINEL)));
            },
            FieldType::Real => {
                return Ok(Some(Value::Real(Real { man: REAL_SENTINEL_MAN })));
            },
            _ => {
                return Err(ErrorKind::NoSentinel);
            },
        }
    }
    assert(tok@ != seq![BANG]);
    match kind {
        FieldType::Bool => {
            if n == 1 && tok[0] == 84 {
                assert(tok@ =~= seq![84u8]);
                Ok(Some(Value::Bool(true)))
            } else if n == 1 && tok[0] == 70 {
                assert(tok@ =~= seq![70u8]);
                Ok(Some(Value::Bool(false)))
            } else {
                assert(tok@ != seq![84u8] && tok@ != seq![70u8]);
                Err(ErrorKind::TypeMismatch)
            }
        },
        FieldType::Int => match tok_int(tok) {
            Ok(v) => Ok(Some(Value::Int(v))),
            Err(e) => Err(e),
        },
        FieldType::Real => match tok_real(tok) {
            Ok(man) => Ok(Some(Value::Real(Real { man }))),
            Err(e) => Err(e),
        },
        FieldType::Date => match tok_date_parts(tok) {
            Some((y, m, d)) => match Date::new(y, m, d) {
                Some(date) => Ok(Some(Value::Date(date))),
                None => Err(ErrorKind::OutOfRangeDate),
            },
            None => Err(ErrorKind::TypeMismatch),
        },
        FieldType::DateTime => {
            if !(n == 13 || n == 16 || n == 19) {
                return Err(ErrorKind::TypeMismatch);
            }
            let ghost dpart = tok@.subrange(0, 10);
            let (y, m, d) = match tok_date_parts_at(tok) {
                Some(p) => p,
                None => {
                    return Err(ErrorKind::TypeMismatch);
                },
            };
            if tok[10] != TSEP {
                return Err(ErrorKind::TypeMismatch);
            }
            if !all_digits_range(tok, 11, 13) {
                return Err(ErrorKind::TypeMismatch);
            }
            if n >= 16 && (tok[13] != COLON || !all_digits_range(tok, 14, 16)) {
                return Err(ErrorKind::TypeMismatch);
            }
            if n == 19 && (tok[16] != COLON || !all_digits_range(tok, 17, 19)) {
                return Err(ErrorKind::TypeMismatch);
            }
            assert(spec_datetime_shape(tok@));
            proof {
                crate::util::lemma_digits_val_bound(tok@.subrange(11, 13));
                reveal_with_fuel(spec_pow10, 3);
            }
            let h = match digits_value(tok, 11, 13, 100) {
                Some(h) => h,
                None => {
                    proof {
                        assert(false);
                    }
                    return Err(ErrorKind::TypeMismatch);
                },
            };
            let mi: u64 = if n >= 16 {
                proof {
                    crate::util::lemma_digits_val_bound(tok@.subrange(14, 16));
                }
                match digits_value(tok, 14, 16, 100) {
                    Some(v) => v,
                    None => {
                        proof {
                            assert(false);
                        }
                        return Err(ErrorKind::TypeMismatch);
                    },
                }
            } else {
                0
            };
            let sec: u64 = if n == 19 {
                proof {
                    crate::util::lemma_digits_val_bound(tok@.subrange(17, 19));
                }
                match digits_value(tok, 17, 19, 100) {
                    Some(v) => v,
                    None => {
                        proof {
                            assert(false);
                        }
                        return Err(ErrorKind::TypeMismatch);
                    },
                }
            } else {
                0
            };
            match Date::new(y, m, d) {
                None => Err(ErrorKind::OutOfRangeDate),
                Some(date) => match DateTime::new(date, h as u8, mi as u8, sec as u8) {
                    None => Err(ErrorKind::OutOfRangeDate),
                    Some(dt) => Ok(Some(Value::DateTime(dt))),
                },
            }
        },
        FieldType::Bytes => {
            if n < 2 || tok[0] != LPAREN || tok[n - 1] != RPAREN {
                return Err(ErrorKind::TypeMismatch);
            }
            match tok_bytes(tok) {
                Ok(v) => Ok(Some(Value::Bytes(v))),
                Err(e) => Err(e),
            }
        },
        FieldType::Str => {
            if n < 2 || tok[0] != LANGLE || tok[n - 1] != RANGLE {
                if n >= 1 && tok[0] != LANGLE {
                    // a bare token: its own bytes, if none needs escaping
                    let mut i2: usize = 0;
                    while i2 < n
                        invariant
                            0 <= i2 <= n == tok@.len(),
                            n >= 1,
                            kind is Str,
                            tok@ != seq![QUERY],
                            tok@ != seq![BANG],
                            tok@[0] != LANGLE,
                            forall|j: int|
                                0 <= j < i2 ==> !spec_needs_escape(#[trigger] tok@[j]),
                        decreases n - i2,
                    {
                        let b2 = tok[i2];
                        if b2 == LANGLE || b2 == RANGLE || b2 == BACKSLASH {
                            return Err(ErrorKind::TypeMismatch);
                        }
                        i2 += 1;
                    }
                    let v = crate::util::copy_range(tok, 0, n);
                    proof {
                        assert(v@ =~= tok@);
                    }
                    return Ok(Some(Value::Str(v)));
                }
                return Err(ErrorKind::TypeMismatch);
            }
            match tok_str(tok) {
                Ok(v) => {
                    proof {
                        let inner = tok@.subrange(1, n as int - 1);
                        assert(forall|j: int|
                            0 <= j < inner.len() ==> inner[j] == #[trigger] tok@[j + 1]);
                        lemma_unescape_no_nl(inner);
                    }
                    Ok(Some(Value::Str(v)))
                },
                Err(e) => Err(e),
            }
        },
    }
}

/// The leading ten bytes of a datetime token parsed as a date.
fn tok_date_parts_at(s: &[u8]) -> (r: Option<(u16, u8, u8)>)
    requires
        s@.len() >= 10,
    ensures
        ({
            let dpart = s@.subrange(0, 10);
            match r {
                Some(p) => spec_date_shape(dpart) && p.0 as int == spec_date_y(dpart) && p.1 as int
                    == spec_date_m(dpart) && p.2 as int == spec_date_d(dpart),
                None => !spec_date_shape(dpart),
            }
        }),
{
    proof {
        reveal_with_fuel(spec_pow10, 20);
    }
    let ghost dpart = s@.subrange(0, 10);
    proof {
        assert(dpart.subrange(0, 4) =~= s@.subrange(0, 4));
        assert(dpart.subrange(5, 7) =~= s@.subrange(5, 7));
        assert(dpart.subrange(8, 10) =~= s@.subrange(8, 10));
    }
    if s[4] != DASH || s[7] != DASH {
        return None;
    }
    if !all_digits_range(s, 0, 4) || !all_digits_range(s, 5, 7) || !all_digits_range(s, 8, 10) {
        return None;
    }
    proof {
        crate::util::lemma_digits_val_bound(s@.subrange(0, 4));
        crate::util::lemma_digits_val_bound(s@.subrange(5, 7));
        crate::util::lemma_digits_val_bound(s@.subrange(8, 10));
    }
    let y = match digits_value(s, 0, 4, 10_000) {
        Some(y) => y,
        None => {
            proof {
                assert(false);
            }
            return None;
        },
    };
    let m = match digits_value(s, 5, 7, 100) {
        Some(m) => m,
        None => {
            proof {
                assert(false);
            }
            return None;
        },
    };
    let d = match digits_value(s, 8, 10, 100) {
        Some(d) => d,
        None => {
            proof {
                assert(false);
            }
            return None;
        },
    };
    Some((y as u16, m as u8, d as u8))
}

/// Unescaped text never holds a newline that its escaped form did not.
pub proof fn lemma_unescape_no_nl(s: Seq<u8>)
    requires
        forall|i: int| 0 <= i < s.len() ==> s[i] != crate::util::NL,
        spec_unescape(s) is Some,
    ensures
        forall|i: int|
            0 <= i < spec_unescape(s)->Some_0.len() ==> spec_unescape(s)->Some_0[i]
                != crate::util::NL,
    decreases s.len(),
{
    if s.len() == 0 {
    } else if s[0] == BACKSLASH {
        assert(forall|i: int| 0 <= i < s.skip(2).len() ==> s.skip(2)[i] != crate::util::NL);
        lemma_unescape_no_nl(s.skip(2));
    } else {
        assert(forall|i: int| 0 <= i < s.skip(1).len() ==> s.skip(1)[i] != crate::util::NL);
        lemma_unescape_no_nl(s.skip(1));
    }
}


/// True when no byte of the range `s[a..b]` is a newline.
pub open spec fn spec_no_nl(s: Seq<u8>, a: int, b: int) -> bool {
    forall|i: int| a <= i < b ==> s[i] != crate::util::NL
}


/// The index of the first blank at or after `i`, before `e`; `e` when
/// there is none.
pub open spec fn spec_ws_end(s: Seq<u8>, i: int, e: int) -> int
    decreases e - i,
{
    if i < 0 || i >= e || i >= s.len() {
        e
    } else if crate::util::spec_is_ws(s[i]) {
        i
    } else {
        spec_ws_end(s, i + 1, e)
    }
}

/// The index of the first colon at or after `i`, before `e`; `e` when
/// there is none.
pub open spec fn spec_colon_at(s: Seq<u8>, i: int, e: int) -> int
    decreases e - i,
{
    if i < 0 || i >= e || i >= s.len() {
        e
    } else if s[i] == COLON {
        i
    } else {
        spec_colon_at(s, i + 1, e)
    }
}

/// The name/kind pairs of a schema, in order.
pub open spec fn spec_fields_model(fields: Seq<crate::field::Field>) -> Seq<(Seq<u8>, FieldType)> {
    fields.map_values(|f: crate::field::Field| (f.spec_name(), f.spec_kind()))
}

/// The meaning of a header's field list from `i` on: the name/kind
/// pairs appended to `acc` in left-to-right order, or the first error.
pub open spec fn spec_header_fields(
    s: Seq<u8>,
    i: int,
    hi: int,
    acc: Seq<(Seq<u8>, FieldType)>,
) -> Result<Seq<(Seq<u8>, FieldType)>, ErrorKind>
    decreases hi - i,
{
    if i >= hi {
        Ok(acc)
    } else if crate::util::spec_is_ws(s[i]) {
        spec_header_fields(s, i + 1, hi, acc)
    } else {
        let e0 = spec_ws_end(s, i, hi);
        let e1 = if e0 > hi {
            hi
        } else {
            e0
        };
        let e = if e1 < i + 1 {
            i + 1
        } else {
            e1
        };
        let c = spec_colon_at(s, i, e);
        if c >= e || c == i || c + 1 >= e {
            Err(ErrorKind::MalformedHeader)
        } else {
            let fname = s.subrange(i, c);
            let tname = s.subrange(c + 1, e);
            match crate::field::spec_kind_of_name(tname) {
                None => Err(ErrorKind::UnknownType),
                Some(k) => if !crate::util::spec_is_ident(fname) {
                    Err(ErrorKind::MalformedHeader)
                } else if exists|x: int| 0 <= x < acc.len() && (#[trigger] acc[x]).0 == fname {
                    Err(ErrorKind::DuplicateField)
                } else {
                    spec_header_fields(s, e, hi, acc.push((fname, k)))
                },
            }
        }
    }
}

/// The meaning of a whole header line `s[a..b]` (first byte `[`): the
/// table name and its columns in order, or the error the line raises.
pub open spec fn spec_header_result(s: Seq<u8>, a: int, b: int) -> Result<
    (Seq<u8>, Seq<(Seq<u8>, FieldType)>),
    ErrorKind,
>
    recommends
        0 <= a < b <= s.len(),
{
    if s[b - 1] != crate::util::RBRACKET {
        Err(ErrorKind::MalformedHeader)
    } else {
        let lo = a + 1;
        let hi = b - 1;
        let ne = spec_ws_end(s, lo, hi);
        let name = s.subrange(lo, ne);
        if !crate::util::spec_is_ident(name) {
            Err(ErrorKind::MalformedHeader)
        } else {
            match spec_header_fields(s, ne, hi, Seq::empty()) {
                Err(e) => Err(e),
                Ok(fs) => if fs.len() == 0 {
                    Err(ErrorKind::MalformedHeader)
                } else {
                    Ok((name, fs))
                },
            }
        }
    }
}

/// Parses a header line `[Name field:type ...]` lying at `raw[a..b]`
/// into a fresh table, exactly as `spec_header_result` reads the line:
/// on success the table carries the header's name and its columns in
/// left-to-right order; on failure, the error the line raises.
pub fn read_meta(raw: &[u8], a: usize, b: usize) -> (r: Result<Table, ErrorKind>)
    requires
        a < b <= raw@.len(),
        raw@[a as int] == crate::util::LBRACKET,
    ensures
        ({
            let hr = spec_header_result(raw@, a as int, b as int);
            match r {
                Ok(t) => (hr matches Ok(h) && t.name@ == h.0 && spec_fields_model(t.fields@)
                    == h.1) && t.wf() && t.spec_is_valid() && t.records@.len() == 0,
                Err(e) => hr == Err::<(Seq<u8>, Seq<(Seq<u8>, FieldType)>), ErrorKind>(e),
            }
        }),
{
    let mut t = Table::new();
    if raw[b - 1] != crate::util::RBRACKET {
        return Err(ErrorKind::MalformedHeader);
    }
    // the header body lies between the brackets
    let lo = a + 1;
    let hi = b - 1;
    // table name: up to the first separator
    let mut i: usize = lo;
    while i < hi && !crate::util::is_ws(raw[i])
        invariant
            lo <= i <= hi <= raw@.len(),
            spec_ws_end(raw@, lo as int, hi as int) == spec_ws_end(raw@, i as int, hi as int),
        decreases hi - i,
    {
        i += 1;
    }
    assert(spec_ws_end(raw@, lo as int, hi as int) == i as int);
    let ghost ne = i as int;
    let name = crate::util::copy_range(raw, lo, i);
    match t.set_name(name) {
        Ok(()) => {},
        Err(e) => {
            return Err(e);
        },
    }
    proof {
        assert(spec_fields_model(t.fields@) =~= Seq::<(Seq<u8>, FieldType)>::empty());
    }
    // field specifications: name ':' typename, separated by blanks
    while i < hi
        invariant
            lo <= i <= hi <= raw@.len(),
            a < b <= raw@.len(),
            lo == a + 1,
            hi == b - 1,
            raw@[b as int - 1] == crate::util::RBRACKET,
            ne == spec_ws_end(raw@, lo as int, hi as int),
            t.name@ == raw@.subrange(lo as int, ne),
            crate::util::spec_is_ident(t.name@),
            t.wf(),
            t.records@.len() == 0,
            spec_header_fields(raw@, ne, hi as int, Seq::empty()) == spec_header_fields(
                raw@,
                i as int,
                hi as int,
                spec_fields_model(t.fields@),
            ),
        decreases hi - i,
    {
        if crate::util::is_ws(raw[i]) {
            i += 1;
            continue ;
        }
        // one field token
        let start = i;
        while i < hi && !crate::util::is_ws(raw[i])
            invariant
                start <= i <= hi <= raw@.len(),
                spec_ws_end(raw@, start as int, hi as int) == spec_ws_end(
                    raw@,
                    i as int,
                    hi as int,
                ),
            decreases hi - i,
        {
            i += 1;
        }
        assert(spec_ws_end(raw@, start as int, hi as int) == i as int);
        // split at the first colon
        let mut c: usize = start;
        while c < i && raw[c] != crate::util::COLON
            invariant
                start <= c <= i <= raw@.len(),
                spec_colon_at(raw@, start as int, i as int) == spec_colon_at(
                    raw@,
                    c as int,
                    i as int,
                ),
            decreases i - c,
        {
            c += 1;
        }
        assert(spec_colon_at(raw@, start as int, i as int) == c as int);
        if c >= i || c == start || c + 1 >= i {
            return Err(ErrorKind::MalformedHeader);
        }
        let fname = crate::util::copy_range(raw, start, c);
        let tname = crate::util::copy_range(raw, c + 1, i);
        let kind = match FieldType::from_name(tname.as_slice()) {
            Some(k) => k,
            None => {
                return Err(ErrorKind::UnknownType);
            },
        };
        let ghost pre = t.fields@;
        let ghost fname_seq = fname@;
        match t.add_field(fname, kind) {
            Ok(()) => {
                proof {
                    assert(spec_fields_model(t.fields@) =~= spec_fields_model(pre).push(
                        (fname_seq, kind),
                    ));
                    assert(forall|x: int|
                        0 <= x < spec_fields_model(pre).len() ==> (#[trigger] spec_fields_model(
                            pre,
                        )[x]).0 != fname_seq) by {
                        assert(forall|x: int|
                            0 <= x < pre.len() ==> (#[trigger] spec_fields_model(pre)[x]).0 == pre[
                            x].spec_name());
                    }
                }
            },
            Err(e) => {
                proof {
                    if crate::util::spec_is_ident(fname_seq) {
                        let w = choose|x: int|
                            0 <= x < pre.len() && (#[trigger] pre[x].spec_name()) == fname_seq;
                        assert(spec_fields_model(pre)[w].0 == fname_seq);
                    }
                }
                return Err(e);
            },
        }
    }
    if t.columns() == 0 {
        return Err(ErrorKind::MalformedHeader);
    }
    Ok(t)
}


/// The index just past the closing `>` of a string literal scanned
/// from `e`, honouring escapes; `None` when the line ends first.
pub open spec fn spec_str_close(s: Seq<u8>, e: int, b: int) -> Option<int>
    decreases b - e,
{
    if e < 0 || e >= b {
        None
    } else if s[e] == BACKSLASH {
        if e + 1 < b {
            spec_str_close(s, e + 2, b)
        } else {
            None
        }
    } else if s[e] == RANGLE {
        Some(e + 1)
    } else {
        spec_str_close(s, e + 1, b)
    }
}

/// The index just past the closing `)` of a bytes literal scanned from
/// `e`; `None` when the line ends first.
pub open spec fn spec_paren_close(s: Seq<u8>, e: int, b: int) -> Option<int>
    decreases b - e,
{
    if e < 0 || e >= b {
        None
    } else if s[e] == RPAREN {
        Some(e + 1)
    } else {
        spec_paren_close(s, e + 1, b)
    }
}

/// The value tokens of the row line `s[i..b]`, appended to `acc`, or
/// the lexing error.
pub open spec fn spec_lex_from(s: Seq<u8>, i: int, b: int, acc: Seq<Seq<u8>>) -> Result<
    Seq<Seq<u8>>,
    ErrorKind,
>
    decreases b - i,
{
    if i >= b {
        Ok(acc)
    } else if crate::util::spec_is_ws(s[i]) {
        spec_lex_from(s, i + 1, b, acc)
    } else if s[i] == LANGLE {
        match spec_str_close(s, i + 1, b) {
            None => Err(ErrorKind::UnterminatedString),
            Some(e0) => {
                let e = if e0 < i + 1 {
                    i + 1
                } else if e0 > b {
                    b
                } else {
                    e0
                };
                spec_lex_from(s, e, b, acc.push(s.subrange(i, e)))
            },
        }
    } else if s[i] == LPAREN {
        match spec_paren_close(s, i + 1, b) {
            None => Err(ErrorKind::InvalidHex),
            Some(e0) => {
                let e = if e0 < i + 1 {
                    i + 1
                } else if e0 > b {
                    b
                } else {
                    e0
                };
                spec_lex_from(s, e, b, acc.push(s.subrange(i, e)))
            },
        }
    } else {
        let e0 = spec_ws_end(s, i, b);
        let e = if e0 < i + 1 {
            i + 1
        } else if e0 > b {
            b
        } else {
            e0
        };
        spec_lex_from(s, e, b, acc.push(s.subrange(i, e)))
    }
}

/// The byte sequences of a list of tokens.
pub open spec fn spec_toks_view(toks: Seq<Vec<u8>>) -> Seq<Seq<u8>> {
    toks.map_values(|t: Vec<u8>| t@)
}

/// The models of a row's slots.
pub open spec fn spec_record_view(rec: Seq<Option<Value>>) -> Seq<Option<ValueModel>> {
    rec.map_values(|s: Option<Value>| crate::value::spec_slot_view(s))
}

/// The declared kinds of a schema, in column order.
pub open spec fn spec_kinds(fields: Seq<crate::field::Field>) -> Seq<FieldType> {
    fields.map_values(|f: crate::field::Field| f.spec_kind())
}

/// The slots the tokens from `j` on denote under the matching kinds,
/// appended to `acc`, or the first token's error.
pub open spec fn spec_row_slots(
    toks: Seq<Seq<u8>>,
    kinds: Seq<FieldType>,
    j: int,
    acc: Seq<Option<ValueModel>>,
) -> Result<Seq<Option<ValueModel>>, ErrorKind>
    recommends
        toks.len() == kinds.len(),
    decreases toks.len() - j,
{
    if j < 0 || j >= toks.len() {
        Ok(acc)
    } else {
        match spec_token_result(toks[j], kinds[j]) {
            Err(e) => Err(e),
            Ok(slot) => spec_row_slots(toks, kinds, j + 1, acc.push(slot)),
        }
    }
}

/// The meaning of the row line `s[a..b]` against a schema's kinds: the
/// slots of one record, or the error the line raises (an arity
/// mismatch counts the lexed tokens against the columns first).
pub open spec fn spec_row_result(s: Seq<u8>, a: int, b: int, kinds: Seq<FieldType>) -> Result<
    Seq<Option<ValueModel>>,
    ErrorKind,
> {
    match spec_lex_from(s, a, b, Seq::empty()) {
        Err(e) => Err(e),
        Ok(toks) => if toks.len() != kinds.len() {
            Err(
                ErrorKind::ArityMismatch {
                    expected: kinds.len() as usize,
                    actual: toks.len() as usize,
                },
            )
        } else {
            spec_row_slots(toks, kinds, 0, Seq::empty())
        },
    }
}

/// Splits the row line `raw[a..b]` into value tokens, exactly as
/// `spec_lex_from` reads it.  A token is a string literal (to its
/// unescaped closing `>`), a bytes literal (to its closing `)`), or a
/// run of non-blank bytes.
fn lex_row(raw: &[u8], a: usize, b: usize) -> (r: Result<Vec<Vec<u8>>, ErrorKind>)
    requires
        a <= b <= raw@.len(),
        spec_no_nl(raw@, a as int, b as int),
    ensures
        ({
            let lr = spec_lex_from(raw@, a as int, b as int, Seq::empty());
            match r {
                Ok(toks) => lr == Ok::<Seq<Seq<u8>>, ErrorKind>(spec_toks_view(toks@)) && (
                forall|i: int, j: int|
                    0 <= i < toks@.len() && 0 <= j < toks@[i]@.len() ==> #[trigger] toks@[i]@[j]
                        != crate::util::NL),
                Err(e) => lr == Err::<Seq<Seq<u8>>, ErrorKind>(e),
            }
        }),
{
    let mut toks: Vec<Vec<u8>> = Vec::new();
    let mut i: usize = a;
    proof {
        assert(spec_toks_view(toks@) =~= Seq::<Seq<u8>>::empty());
    }
    while i < b
        invariant
            a <= i <= b <= raw@.len(),
            spec_no_nl(raw@, a as int, b as int),
            spec_lex_from(raw@, a as int, b as int, Seq::empty()) == spec_lex_from(
                raw@,
                i as int,
                b as int,
                spec_toks_view(toks@),
            ),
            forall|x: int, y: int|
                0 <= x < toks@.len() && 0 <= y < toks@[x]@.len() ==> #[trigger] toks@[x]@[y]
                    != crate::util::NL,
        decreases b - i,
    {
        if crate::util::is_ws(raw[i]) {
            i += 1;
            continue ;
        }
        let start = i;
        if raw[i] == LANGLE {
            // a string literal runs to its first unescaped closer
            let mut e: usize = i + 1;
            let mut closed = false;
            while e < b && !closed
                invariant
                    i < e <= b <= raw@.len(),
                    spec_str_close(raw@, i as int + 1, b as int) == (if closed {
                        Some(e as int)
                    } else {
                        spec_str_close(raw@, e as int, b as int)
                    }),
                decreases b - e,
            {
                if raw[e] == BACKSLASH {
                    if e + 1 < b {
                        e += 2;
                    } else {
                        e = b;
                    }
                } else if raw[e] == RANGLE {
                    closed = true;
                    e += 1;
                } else {
                    e += 1;
                }
            }
            if !closed {
                assert(spec_str_close(raw@, i as int + 1, b as int) is None);
                return Err(ErrorKind::UnterminatedString);
            }
            let tok = crate::util::copy_range(raw, start, e);
            proof {
                assert(forall|y: int|
                    0 <= y < tok@.len() ==> tok@[y] == raw@[start + y] && tok@[y]
                        != crate::util::NL);
            }
            let ghost pre = toks@;
            toks.push(tok);
            i = e;
            proof {
                assert(toks@.drop_last() =~= pre);
                assert(spec_toks_view(toks@) =~= spec_toks_view(pre).push(
                    raw@.subrange(start as int, e as int),
                ));
            }
        } else if raw[i] == LPAREN {
            let mut e: usize = i + 1;
            while e < b && raw[e] != RPAREN
                invariant
                    i < e <= b <= raw@.len(),
                    spec_paren_close(raw@, i as int + 1, b as int) == spec_paren_close(
                        raw@,
                        e as int,
                        b as int,
                    ),
                decreases b - e,
            {
                e += 1;
            }
            if e >= b {
                assert(spec_paren_close(raw@, i as int + 1, b as int) is None);
                return Err(ErrorKind::InvalidHex);
            }
            assert(spec_paren_close(raw@, i as int + 1, b as int) == Some(e as int + 1));
            let tok = crate::util::copy_range(raw, start, e + 1);
            proof {
                assert(forall|y: int|
                    0 <= y < tok@.len() ==> tok@[y] == raw@[start + y] && tok@[y]
                        != crate::util::NL);
            }
            let ghost pre = toks@;
            toks.push(tok);
            i = e + 1;
            proof {
                assert(toks@.drop_last() =~= pre);
                assert(spec_toks_view(toks@) =~= spec_toks_view(pre).push(
                    raw@.subrange(start as int, i as int),
                ));
            }
        } else {
            let mut e: usize = i + 1;
            proof {
                assert(spec_ws_end(raw@, i as int, b as int) == spec_ws_end(
                    raw@,
                    i as int + 1,
                    b as int,
                ));
            }
            while e < b && !crate::util::is_ws(raw[e])
                invariant
                    i < e <= b <= raw@.len(),
                    spec_ws_end(raw@, i as int, b as int) == spec_ws_end(
                        raw@,
                        e as int,
                        b as int,
                    ),
                decreases b - e,
            {
                e += 1;
            }
            assert(spec_ws_end(raw@, i as int, b as int) == e as int);
            let tok = crate::util::copy_range(raw, start, e);
            proof {
                assert(forall|y: int|
                    0 <= y < tok@.len() ==> tok@[y] == raw@[start + y] && tok@[y]
                        != crate::util::NL);
            }
            let ghost pre = toks@;
            toks.push(tok);
            i = e;
            proof {
                assert(toks@.drop_last() =~= pre);
                assert(spec_toks_view(toks@) =~= spec_toks_view(pre).push(
                    raw@.subrange(start as int, e as int),
                ));
            }
        }
    }
    Ok(toks)
}

/// Parses the row line `raw[a..b]` and appends it to the open table,
/// exactly as `spec_row_result` reads the line against the schema: on
/// success the one appended record holds the tokens' slots in column
/// order; on failure the table is unchanged and the error is the
/// line's own, an arity mismatch counting tokens against columns
/// first.
pub fn read_records(raw: &[u8], a: usize, b: usize, table: &mut Table) -> (r: Result<
    (),
    ErrorKind,
>)
    requires
        a <= b <= raw@.len(),
        spec_no_nl(raw@, a as int, b as int),
        old(table).wf(),
    ensures
        final(table).wf(),
        final(table).name@ == old(table).name@,
        final(table).fields@ == old(table).fields@,
        ({
            let rr = spec_row_result(raw@, a as int, b as int, spec_kinds(old(table).fields@));
            match r {
                Ok(()) => (rr matches Ok(slots) && final(table).records@.len() == old(table).records@.len() + 1
                    && final(table).records@.drop_last() == old(table).records@
                    && spec_record_view(final(table).records@.last()@) == slots)
                    && crate::table::spec_record_ok(
                    final(table).records@.last()@,
                    old(table).fields@,
                ),
                Err(e) => rr == Err::<Seq<Option<ValueModel>>, ErrorKind>(e)
                    && final(table).records@ == old(table).records@,
            }
        }),
{
    let ghost kinds = spec_kinds(table.fields@);
    let toks = match lex_row(raw, a, b) {
        Ok(toks) => toks,
        Err(e) => {
            return Err(e);
        },
    };
    let ghost toksv = spec_toks_view(toks@);
    let cols = table.columns();
    proof {
        assert(kinds.len() == table.fields@.len());
        assert(toksv.len() == toks@.len());
    }
    if toks.len() != cols {
        return Err(ErrorKind::ArityMismatch { expected: cols, actual: toks.len() });
    }
    let mut rec: Record = Vec::new();
    proof {
        assert(spec_record_view(rec@) =~= Seq::<Option<ValueModel>>::empty());
    }
    let mut i: usize = 0;
    while i < cols
        invariant
            0 <= i <= cols == table.fields@.len() == toks@.len(),
            table.wf(),
            *table == *old(table),
            rec@.len() == i,
            toksv == spec_toks_view(toks@),
            kinds == spec_kinds(table.fields@),
            toksv.len() == kinds.len(),
            spec_lex_from(raw@, a as int, b as int, Seq::empty()) == Ok::<
                Seq<Seq<u8>>,
                ErrorKind,
            >(toksv),
            a <= b <= raw@.len(),
            spec_row_slots(toksv, kinds, 0, Seq::empty()) == spec_row_slots(
                toksv,
                kinds,
                i as int,
                spec_record_view(rec@),
            ),
            forall|x: int, y: int|
                0 <= x < toks@.len() && 0 <= y < toks@[x]@.len() ==> #[trigger] toks@[x]@[y]
                    != crate::util::NL,
            forall|j: int|
                0 <= j < i ==> crate::value::spec_slot_ok(
                    #[trigger] rec@[j],
                    table.fields@[j].spec_kind(),
                ),
        decreases cols - i,
    {
        let kind = table.field_at(i).kind();
        proof {
            assert(toksv[i as int] == toks@[i as int]@);
            assert(kinds[i as int] == table.fields@[i as int].spec_kind());
        }
        match parse_token(toks[i].as_slice(), kind) {
            Ok(slot) => {
                let ghost pre = rec@;
                rec.push(slot);
                proof {
                    assert(spec_record_view(rec@) =~= spec_record_view(pre).push(
                        crate::value::spec_slot_view(slot),
                    ));
                }
            },
            Err(e) => {
                return Err(e);
            },
        }
        i += 1;
    }
    proof {
        assert(spec_row_slots(toksv, kinds, cols as int, spec_record_view(rec@)) == Ok::<
            Seq<Option<ValueModel>>,
            ErrorKind,
        >(spec_record_view(rec@)));
    }
    match table.append(rec) {
        Ok(()) => Ok(()),
        Err(e) => {
            proof {
                assert(false);
            }
            Err(e)
        },
    }
}


/// The index of the first newline at or after `i`, or the length.
pub open spec fn spec_nl_at(s: Seq<u8>, i: int) -> int
    decreases s.len() - i,
{
    if i < 0 || i >= s.len() {
        s.len() as int
    } else if s[i] == crate::util::NL {
        i
    } else {
        spec_nl_at(s, i + 1)
    }
}

/// True when every byte of `s[a..b]` is a blank.
pub open spec fn spec_all_ws(s: Seq<u8>, a: int, b: int) -> bool {
    forall|j: int| a <= j < b ==> crate::util::spec_is_ws(#[trigger] s[j])
}

/// The mathematical content of one parsed table: its name, its columns
/// in order, and its rows' slots in order.
pub struct TableModel {
    pub name: Seq<u8>,
    pub fields: Seq<(Seq<u8>, FieldType)>,
    pub rows: Seq<Seq<Option<ValueModel>>>,
}

/// The model of a table.
pub open spec fn spec_table_model(t: Table) -> TableModel {
    TableModel {
        name: t.name@,
        fields: spec_fields_model(t.fields@),
        rows: t.records@.map_values(|r: Record| spec_record_view(r@)),
    }
}

/// The models of a database's tables, in iteration order.
pub open spec fn spec_db_model(tables: Seq<Table>) -> Seq<TableModel> {
    tables.map_values(|t: Table| spec_table_model(t))
}

/// The declared kinds of a table model's columns.
pub open spec fn spec_model_kinds(fields: Seq<(Seq<u8>, FieldType)>) -> Seq<FieldType> {
    fields.map_values(|p: (Seq<u8>, FieldType)| p.1)
}

/// True when some table of the model already bears the name.
pub open spec fn spec_has_table(db: Seq<TableModel>, name: Seq<u8>) -> bool {
    exists|x: int| 0 <= x < db.len() && (#[trigger] db[x]).name == name
}

/// The meaning of the buffer from `pos` on, given the line number, the
/// tables already sealed, and the open table block: a blank line seals
/// the open block, a `[` line seals it and opens a new one, a line of
/// blanks only is passed over, any other line is a row of the open
/// block, and the end of input seals what is open; the first offending
/// line stops everything with its error.
pub open spec fn spec_parse_from(
    s: Seq<u8>,
    pos: int,
    lino: int,
    db: Seq<TableModel>,
    open_t: Option<TableModel>,
) -> Result<Seq<TableModel>, (int, ErrorKind)>
    decreases s.len() - pos,
{
    if pos < 0 || pos >= s.len() {
        match open_t {
            None => Ok(db),
            Some(t) => Ok(db.push(t)),
        }
    } else {
        let end0 = spec_nl_at(s, pos);
        let end = if end0 < pos {
            pos
        } else if end0 > s.len() {
            s.len() as int
        } else {
            end0
        };
        let nxt = if end < s.len() {
            end + 1
        } else {
            end
        };
        let lino2 = if end < s.len() {
            if lino < usize::MAX {
                lino + 1
            } else {
                lino
            }
        } else {
            lino
        };
        if end == pos {
            let db2 = match open_t {
                None => db,
                Some(t) => db.push(t),
            };
            spec_parse_from(s, nxt, lino2, db2, None)
        } else if s[pos] == crate::util::LBRACKET {
            let db2 = match open_t {
                None => db,
                Some(t) => db.push(t),
            };
            match spec_header_result(s, pos, end) {
                Err(k) => Err((lino, k)),
                Ok(h) => {
                    let dup = spec_has_table(db2, h.0);
                    if dup {
                        Err((lino, ErrorKind::DuplicateTable))
                    } else {
                        spec_parse_from(
                            s,
                            nxt,
                            lino2,
                            db2,
                            Some(TableModel { name: h.0, fields: h.1, rows: Seq::empty() }),
                        )
                    }
                },
            }
        } else if spec_all_ws(s, pos, end) {
            spec_parse_from(s, nxt, lino2, db, open_t)
        } else {
            match open_t {
                None => Err((lino, ErrorKind::ExpectedHeader)),
                Some(t) => match spec_row_result(s, pos, end, spec_model_kinds(t.fields)) {
                    Err(k) => Err((lino, k)),
                    Ok(slots) => spec_parse_from(
                        s,
                        nxt,
                        lino2,
                        db,
                        Some(
                            TableModel { name: t.name, fields: t.fields, rows: t.rows.push(slots) },
                        ),
                    ),
                },
            }
        }
    }
}

/// The meaning of a whole buffer: its database, tables in source
/// order, or the first error with its one-based line.
pub open spec fn spec_parse(s: Seq<u8>) -> Result<Seq<TableModel>, (int, ErrorKind)> {
    spec_parse_from(s, 0, 1, Seq::empty(), None)
}

/// Blank runs extend one byte at a time.
proof fn lemma_all_ws_step(s: Seq<u8>, a: int, k: int)
    requires
        a <= k < s.len(),
    ensures
        spec_all_ws(s, a, k + 1) == (spec_all_ws(s, a, k) && crate::util::spec_is_ws(s[k])),
{
    if spec_all_ws(s, a, k) && crate::util::spec_is_ws(s[k]) {
        assert forall|j: int| a <= j < k + 1 implies crate::util::spec_is_ws(#[trigger] s[j]) by {
            if j < k {
                assert(crate::util::spec_is_ws(s[j]));
            }
        }
    }
    if spec_all_ws(s, a, k + 1) {
        assert forall|j: int| a <= j < k implies crate::util::spec_is_ws(#[trigger] s[j]) by {
            assert(crate::util::spec_is_ws(s[j]));
        }
    }
}

/// Parses a whole buffer into a database, exactly as `spec_parse`
/// reads it: on success the database's tables, in iteration order, are
/// the buffer's table blocks in source order, each with its header's
/// name and columns and its row lines' slots; on failure, the first
/// error and the one-based line it arose on.
#[verifier::rlimit(100)]
pub fn parse(raw: &[u8]) -> (r: Result<Tdb, ParseError>)
    ensures
        ({
            let pr = spec_parse(raw@);
            match r {
                Ok(db) => pr == Ok::<Seq<TableModel>, (int, ErrorKind)>(spec_db_model(db.tables@))
                    && db.wf(),
                Err(e) => pr == Err::<Seq<TableModel>, (int, ErrorKind)>((e.lino as int, e.kind)),
            }
        }),
        raw@.len() == 0 ==> (r matches Ok(db) && db.tables@.len() == 0),
        r matches Err(e) ==> e.lino >= 1,
{
    let n = raw.len();
    let mut db = Tdb::new();
    let mut table = Table::new();
    let mut have_table = false;
    let mut lino: usize = 1;
    let mut pos: usize = 0;
    proof {
        assert(spec_db_model(db.tables@) =~= Seq::<TableModel>::empty());
    }
    while pos < n
        invariant
            0 <= pos <= n,
            n == raw@.len(),
            n == 0 ==> db.tables@.len() == 0 && !have_table,
            db.wf(),
            table.wf(),
            have_table ==> table.spec_is_valid(),
            have_table ==> forall|x: int|
                0 <= x < db.tables@.len() ==> (#[trigger] db.tables@[x]).name@ != table.name@,
            lino >= 1,
            spec_parse(raw@) == spec_parse_from(
                raw@,
                pos as int,
                lino as int,
                spec_db_model(db.tables@),
                (if have_table {
                    Some(spec_table_model(table))
                } else {
                    None
                }),
            ),
        decreases n - pos,
    {
        let ghost pos0 = pos as int;
        let ghost lino0 = lino as int;
        let ghost dbm0 = spec_db_model(db.tables@);
        let ghost open0: Option<TableModel> = if have_table {
            Some(spec_table_model(table))
        } else {
            None
        };
        // find the end of this line
        let mut end: usize = pos;
        while end < n && raw[end] != crate::util::NL
            invariant
                pos <= end <= n == raw@.len(),
                spec_no_nl(raw@, pos as int, end as int),
                spec_nl_at(raw@, pos as int) == spec_nl_at(raw@, end as int),
            decreases n - end,
        {
            end += 1;
        }
        assert(spec_nl_at(raw@, pos0) == end as int);
        let ghost nxt: int = if end < n {
            end as int + 1
        } else {
            end as int
        };
        let ghost lino2: int = if (end as int) < n as int {
            if lino0 < usize::MAX as int {
                lino0 + 1
            } else {
                lino0
            }
        } else {
            lino0
        };
        if end == pos {
            // a blank line seals the open block
            if have_table {
                let ghost tm = spec_table_model(table);
                match db.insert(table) {
                    Ok(()) => {
                        proof {
                            assert(spec_db_model(db.tables@) =~= dbm0.push(tm));
                        }
                    },
                    Err(e) => {
                        proof {
                            assert(false);
                        }
                        return Err(ParseError { lino, kind: e });
                    },
                }
                table = Table::new();
                have_table = false;
            }
            assert(spec_parse_from(raw@, pos0, lino0, dbm0, open0) == spec_parse_from(
                raw@,
                nxt,
                lino2,
                spec_db_model(db.tables@),
                None,
            ));
        } else if raw[pos] == crate::util::LBRACKET {
            // a header line: seal the open block, open a new one
            if have_table {
                let ghost tm = spec_table_model(table);
                match db.insert(table) {
                    Ok(()) => {
                        proof {
                            assert(spec_db_model(db.tables@) =~= dbm0.push(tm));
                        }
                    },
                    Err(e) => {
                        proof {
                            assert(false);
                        }
                        return Err(ParseError { lino, kind: e });
                    },
                }
                table = Table::new();
                have_table = false;
            }
            let ghost db2 = spec_db_model(db.tables@);
            let t = match read_meta(raw, pos, end) {
                Ok(t) => t,
                Err(e) => {
                    return Err(ParseError { lino, kind: e });
                },
            };
            // a duplicate name is reported on this header's line
            let found = db.get(t.name().as_slice());
            if found.is_some() {
                proof {
                    let tb = found->Some_0;
                    let w = choose|x: int| 0 <= x < db.tables@.len() && db.tables@[x] == *tb;
                    assert(db2[w] == spec_table_model(db.tables@[w]));
                    assert(db2[w].name == t.name@);
                    let h = spec_header_result(raw@, pos0, end as int)->Ok_0;
                    assert(h.0 == t.name@);
                    assert(spec_has_table(db2, h.0));
                    assert(spec_parse_from(raw@, pos0, lino0, dbm0, open0) == Err::<
                        Seq<TableModel>,
                        (int, ErrorKind),
                    >((lino0, ErrorKind::DuplicateTable)));
                }
                return Err(ParseError { lino, kind: ErrorKind::DuplicateTable });
            }
            proof {
                assert forall|x: int| 0 <= x < db2.len() implies (#[trigger] db2[x]).name
                    != t.name@ by {
                    assert(db2[x] == spec_table_model(db.tables@[x]));
                    assert(db.tables@[x].name@ != t.name@);
                }
                assert(!spec_has_table(db2, t.name@));
            }
            let ghost hm = spec_header_result(raw@, pos0, end as int)->Ok_0;
            table = t;
            have_table = true;
            proof {
                assert(spec_table_model(table).rows =~= Seq::<Seq<Option<ValueModel>>>::empty());
                assert(spec_table_model(table) == (TableModel {
                    name: hm.0,
                    fields: hm.1,
                    rows: Seq::empty(),
                }));
            }
            assert(spec_parse_from(raw@, pos0, lino0, dbm0, open0) == spec_parse_from(
                raw@,
                nxt,
                lino2,
                db2,
                Some(spec_table_model(table)),
            ));
        } else {
            // a line of blanks only is passed over
            let mut only_ws = true;
            let mut k: usize = pos;
            while k < end
                invariant
                    pos <= k <= end <= raw@.len(),
                    only_ws == spec_all_ws(raw@, pos as int, k as int),
                decreases end - k,
            {
                proof {
                    lemma_all_ws_step(raw@, pos as int, k as int);
                }
                if !crate::util::is_ws(raw[k]) {
                    only_ws = false;
                }
                k += 1;
            }
            if !only_ws {
                if !have_table {
                    return Err(ParseError { lino, kind: ErrorKind::ExpectedHeader });
                }
                let ghost tm = spec_table_model(table);
                proof {
                    assert(spec_kinds(table.fields@) =~= spec_model_kinds(tm.fields));
                }
                match read_records(raw, pos, end, &mut table) {
                    Ok(()) => {
                        proof {
                            let slots = spec_row_result(
                                raw@,
                                pos0,
                                end as int,
                                spec_model_kinds(tm.fields),
                            )->Ok_0;
                            assert(spec_table_model(table).rows =~= tm.rows.push(slots));
                            assert(spec_table_model(table) == (TableModel {
                                name: tm.name,
                                fields: tm.fields,
                                rows: tm.rows.push(slots),
                            }));
                        }
                    },
                    Err(e) => {
                        return Err(ParseError { lino, kind: e });
                    },
                }
                assert(spec_parse_from(raw@, pos0, lino0, dbm0, open0) == spec_parse_from(
                    raw@,
                    nxt,
                    lino2,
                    dbm0,
                    Some(spec_table_model(table)),
                ));
            } else {
                assert(spec_parse_from(raw@, pos0, lino0, dbm0, open0) == spec_parse_from(
                    raw@,
                    nxt,
                    lino2,
                    dbm0,
                    open0,
                ));
            }
        }
        if end < n {
            pos = end + 1;
            if lino < usize::MAX {
                lino += 1;
            }
        } else {
            pos = end;
        }
    }
    // end of input seals the open block
    if have_table {
        let ghost dbm = spec_db_model(db.tables@);
        let ghost tm = spec_table_model(table);
        match db.insert(table) {
            Ok(()) => {
                proof {
                    assert(spec_db_model(db.tables@) =~= dbm.push(tm));
                }
            },
            Err(e) => {
                proof {
                    assert(false);
                }
                return Err(ParseError { lino, kind: e });
            },
        }
    }
    Ok(db)
}

} // verus!
