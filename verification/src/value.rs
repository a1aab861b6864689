//! The tagged value model: one variant per kind of the format, a
//! three-state slot (present, missing, sentinel), and the canonical
//! encoding of each value as literal text.

use crate::date::{Date, DateTime};
use crate::field::FieldType;
use crate::realnum::{
    push_real, spec_encode_real, spec_real_close, Real, REAL_SENTINEL_MAN,
};
use crate::util::{
    push_digits_fixed_u64, push_digits_u64, push_hex_pair, spec_digits, spec_digits_fixed,
    spec_hex_of, spec_hex_pair, BACKSLASH, BANG, DASH, LANGLE, LPAREN, NL, QUERY, RANGLE, RPAREN,
    TSEP,
};
use vstd::prelude::*;

verus! {

/// The reserved `int` sentinel.
pub const INT_SENTINEL: i64 = -1808080808;

/// The year of the reserved date and datetime sentinels.
pub const SENTINEL_YEAR: u16 = 1808;

/// The month, day, hour, minute and second of the reserved date and
/// datetime sentinels.
pub const SENTINEL_UNIT: u8 = 8;

/// The reserved `date` sentinel, the eighth of August 1808.
pub open spec fn spec_date_sentinel() -> Date {
    Date { year: SENTINEL_YEAR, month: SENTINEL_UNIT, day: SENTINEL_UNIT }
}

/// The reserved `datetime` sentinel.
pub open spec fn spec_datetime_sentinel() -> DateTime {
    DateTime {
        date: spec_date_sentinel(),
        hour: SENTINEL_UNIT,
        minute: SENTINEL_UNIT,
        second: SENTINEL_UNIT,
    }
}

/// One field's runtime content.
#[derive(Clone, Debug)]
pub enum Value {
    Bool(bool),
    Bytes(Vec<u8>),
    Date(Date),
    DateTime(DateTime),
    Int(i64),
    Real(Real),
    Str(Vec<u8>),
}

/// One row: one slot per column, in column order.  `None` is the
/// missing state; a sentinel is a present value holding its kind's
/// reserved constant.
pub type Record = Vec<Option<Value>>;

/// The mathematical content of a value: byte payloads as sequences,
/// the integer and the real mantissa as unbounded integers.
pub enum ValueModel {
    Bool(bool),
    Bytes(Seq<u8>),
    Date(Date),
    DateTime(DateTime),
    Int(int),
    Real(int),
    Str(Seq<u8>),
}

impl View for Value {
    type V = ValueModel;

    open spec fn view(&self) -> ValueModel {
        match self {
            Value::Bool(b) => ValueModel::Bool(*b),
            Value::Bytes(v) => ValueModel::Bytes(v@),
            Value::Date(d) => ValueModel::Date(*d),
            Value::DateTime(dt) => ValueModel::DateTime(*dt),
            Value::Int(i) => ValueModel::Int(*i as int),
            Value::Real(r) => ValueModel::Real(r.spec_man()),
            Value::Str(s) => ValueModel::Str(s@),
        }
    }
}

/// The model of a slot: missing stays missing, a present value goes to
/// its model.
pub open spec fn spec_slot_view(slot: Option<Value>) -> Option<ValueModel> {
    match slot {
        Option::None => None,
        Option::Some(v) => Some(v@),
    }
}

/// The kind a value belongs to.
pub open spec fn spec_kind_of(v: Value) -> FieldType {
    match v {
        Value::Bool(_) => FieldType::Bool,
        Value::Bytes(_) => FieldType::Bytes,
        Value::Date(_) => FieldType::Date,
        Value::DateTime(_) => FieldType::DateTime,
        Value::Int(_) => FieldType::Int,
        Value::Real(_) => FieldType::Real,
        Value::Str(_) => FieldType::Str,
    }
}

/// True when a byte string holds no newline.
pub open spec fn spec_nl_free(s: Seq<u8>) -> bool {
    forall|i: int| 0 <= i < s.len() ==> s[i] != NL
}

/// True when a value can be carried by the format: dates are real
/// calendar dates, reals are in range, and text holds no newline.
pub open spec fn spec_wf_value(v: Value) -> bool {
    match v {
        Value::Bool(_) => true,
        Value::Bytes(_) => true,
        Value::Date(d) => d.wf(),
        Value::DateTime(dt) => dt.wf(),
        Value::Int(_) => true,
        Value::Real(r) => r.wf(),
        Value::Str(s) => spec_nl_free(s@),
    }
}

/// True when a slot may stand in a column of kind `k`.
pub open spec fn spec_slot_ok(slot: Option<Value>, k: FieldType) -> bool {
    match slot {
        Option::None => true,
        Option::Some(v) => spec_kind_of(v) == k && spec_wf_value(v),
    }
}

/// True when a present value is its kind's reserved sentinel (within
/// tolerance for reals); `bool`, `bytes` and `str` have no sentinel.
pub open spec fn spec_is_sentinel(v: Value) -> bool {
    match v {
        Value::Date(d) => d == spec_date_sentinel(),
        Value::DateTime(dt) => dt == spec_datetime_sentinel(),
        Value::Int(i) => i == INT_SENTINEL,
        Value::Real(r) => spec_real_close(r.spec_man(), REAL_SENTINEL_MAN as int),
        _ => false,
    }
}

/// Value equality: same variant and equal payload, except that reals
/// compare within tolerance.  Values of different kinds never compare
/// equal.
pub open spec fn spec_value_eq(a: Value, b: Value) -> bool {
    match (a, b) {
        (Value::Bool(x), Value::Bool(y)) => x == y,
        (Value::Bytes(x), Value::Bytes(y)) => x@ == y@,
        (Value::Date(x), Value::Date(y)) => x == y,
        (Value::DateTime(x), Value::DateTime(y)) => x == y,
        (Value::Int(x), Value::Int(y)) => x == y,
        (Value::Real(x), Value::Real(y)) => spec_real_close(x.spec_man(), y.spec_man()),
        (Value::Str(x), Value::Str(y)) => x@ == y@,
        _ => false,
    }
}

/// True for the bytes that take a backslash before them in a string
/// literal: the angle brackets and the backslash itself.
pub open spec fn spec_needs_escape(b: u8) -> bool {
    b == LANGLE || b == RANGLE || b == BACKSLASH
}

/// The escaped form of one byte of string text.
pub open spec fn spec_escape_byte(b: u8) -> Seq<u8> {
    if spec_needs_escape(b) {
        seq![BACKSLASH, b]
    } else {
        seq![b]
    }
}

/// The escaped form of string text: `<`, `>` and the backslash itself
/// get a backslash before them; every other byte stands as it is.
pub open spec fn spec_escape(s: Seq<u8>) -> Seq<u8>
    decreases s.len(),
{
    if s.len() == 0 {
        Seq::empty()
    } else {
        spec_escape_byte(s[0]) + spec_escape(s.skip(1))
    }
}

/// Escaping one byte more extends the escaped text at its end.
pub proof fn lemma_escape_push(s: Seq<u8>, b: u8)
    ensures
        spec_escape(s.push(b)) == spec_escape(s) + spec_escape_byte(b),
    decreases s.len(),
{
    if s.len() == 0 {
        assert(s.push(b).skip(1) =~= Seq::<u8>::empty());
        assert(s.push(b)[0] == b);
        assert(spec_escape(s.push(b)) == spec_escape_byte(b) + spec_escape(Seq::<u8>::empty()));
        assert(spec_escape_byte(b) + Seq::<u8>::empty() =~= spec_escape_byte(b));
        assert(spec_escape(s) + spec_escape_byte(b) =~= spec_escape_byte(b));
    } else {
        lemma_escape_push(s.skip(1), b);
        assert(s.push(b).skip(1) =~= s.skip(1).push(b));
        assert(s.push(b)[0] == s[0]);
        assert(spec_escape(s.push(b)) =~= spec_escape(s) + spec_escape_byte(b));
    }
}

/// The canonical literal of a date: `YYYY-MM-DD`.
pub open spec fn spec_encode_date(d: Date) -> Seq<u8> {
    spec_digits_fixed(d.spec_year(), 4) + seq![DASH] + spec_digits_fixed(d.spec_month(), 2)
        + seq![DASH] + spec_digits_fixed(d.spec_day(), 2)
}

/// The canonical literal of a datetime: `YYYY-MM-DDTHH:MM:SS`.
pub open spec fn spec_encode_datetime(dt: DateTime) -> Seq<u8> {
    spec_encode_date(dt.spec_date()) + seq![TSEP] + spec_digits_fixed(dt.spec_hour(), 2)
        + seq![58u8] + spec_digits_fixed(dt.spec_minute(), 2) + seq![58u8] + spec_digits_fixed(
        dt.spec_second(),
        2,
    )
}

/// The canonical literal of an integer: decimal digits with a leading
/// `-` when negative.
pub open spec fn spec_encode_int(i: int) -> Seq<u8> {
    if i < 0 {
        seq![DASH] + spec_digits(-i)
    } else {
        spec_digits(i)
    }
}

/// The canonical literal of a present value at `dp` decimal places:
/// sentinels write `!`, everything else its kind's literal form.
pub open spec fn spec_encode_value(v: Value, dp: int) -> Seq<u8> {
    if spec_is_sentinel(v) {
        seq![BANG]
    } else {
        match v {
            Value::Bool(b) => if b {
                seq![84u8]
            } else {
                seq![70u8]
            },
            Value::Bytes(b) => seq![LPAREN] + spec_hex_of(b@) + seq![RPAREN],
            Value::Date(d) => spec_encode_date(d),
            Value::DateTime(dt) => spec_encode_datetime(dt),
            Value::Int(i) => spec_encode_int(i as int),
            Value::Real(r) => spec_encode_real(r.spec_man(), dp),
            Value::Str(s) => seq![LANGLE] + spec_escape(s@) + seq![RANGLE],
        }
    }
}

/// The canonical literal of a slot: a missing slot writes `?`.
pub open spec fn spec_encode_slot(slot: Option<Value>, dp: int) -> Seq<u8> {
    match slot {
        Option::None => seq![QUERY],
        Option::Some(v) => spec_encode_value(v, dp),
    }
}

/// The number of decimal places actually used: clamped to at most
/// fifteen.
pub open spec fn spec_clamp_decimals(d: int) -> int {
    if d > 15 {
        15
    } else {
        d
    }
}

/// The hexadecimal bytes literal of a byte string: `(` + two uppercase
/// digits per byte + `)`.
pub fn bytes_to_tdb(b: &[u8]) -> (r: Vec<u8>)
    ensures
        r@ == seq![LPAREN] + spec_hex_of(b@) + seq![RPAREN],
{
    let mut out: Vec<u8> = Vec::new();
    out.push(LPAREN);
    let n = b.len();
    let mut i: usize = 0;
    while i < n
        invariant
            n == b@.len(),
            0 <= i <= n,
            out@ == seq![LPAREN] + spec_hex_of(b@.take(i as int)),
        decreases n - i,
    {
        push_hex_pair(b[i], &mut out);
        i += 1;
        proof {
            assert(b@.take(i as int).drop_last() =~= b@.take(i as int - 1));
            assert(out@ =~= seq![LPAREN] + spec_hex_of(b@.take(i as int)));
        }
    }
    out.push(RPAREN);
    proof {
        assert(b@.take(n as int) =~= b@);
        assert(out@ =~= seq![LPAREN] + spec_hex_of(b@) + seq![RPAREN]);
    }
    out
}

/// Appends the escaped form of string text to `out`.
fn push_escaped(s: &[u8], out: &mut Vec<u8>)
    ensures
        final(out)@ == old(out)@ + spec_escape(s@),
{
    let n = s.len();
    let mut i: usize = 0;
    while i < n
        invariant
            n == s@.len(),
            0 <= i <= n,
            out@ == old(out)@ + spec_escape(s@.take(i as int)),
        decreases n - i,
    {
        let b = s[i];
        if b == LANGLE || b == RANGLE || b == BACKSLASH {
            out.push(BACKSLASH);
        }
        out.push(b);
        i += 1;
        proof {
            lemma_escape_push(s@.take(i as int - 1), b);
            assert(s@.take(i as int) =~= s@.take(i as int - 1).push(b));
            assert(out@ =~= old(out)@ + spec_escape(s@.take(i as int)));
        }
    }
    proof {
        assert(s@.take(n as int) =~= s@);
    }
}

/// Appends the canonical literal of a date to `out`.
fn push_date(d: &Date, out: &mut Vec<u8>)
    requires
        d.wf(),
    ensures
        final(out)@ == old(out)@ + spec_encode_date(*d),
{
    proof {
        reveal_with_fuel(crate::util::spec_pow10, 6);
    }
    push_digits_fixed_u64(d.year() as u64, 4, out);
    out.push(DASH);
    push_digits_fixed_u64(d.month() as u64, 2, out);
    out.push(DASH);
    push_digits_fixed_u64(d.day() as u64, 2, out);
    proof {
        assert(out@ =~= old(out)@ + spec_encode_date(*d));
    }
}

/// Appends the canonical literal of a datetime to `out`.
fn push_datetime(dt: &DateTime, out: &mut Vec<u8>)
    requires
        dt.wf(),
    ensures
        final(out)@ == old(out)@ + spec_encode_datetime(*dt),
{
    proof {
        reveal_with_fuel(crate::util::spec_pow10, 6);
    }
    let d = dt.date();
    push_date(&d, out);
    out.push(TSEP);
    push_digits_fixed_u64(dt.hour() as u64, 2, out);
    out.push(58);
    push_digits_fixed_u64(dt.minute() as u64, 2, out);
    out.push(58);
    push_digits_fixed_u64(dt.second() as u64, 2, out);
    proof {
        assert(out@ =~= old(out)@ + spec_encode_datetime(*dt));
    }
}

/// Appends the canonical literal of an integer to `out`.
fn push_int(i: i64, out: &mut Vec<u8>)
    ensures
        final(out)@ == old(out)@ + spec_encode_int(i as int),
{
    if i < 0 {
        out.push(DASH);
        let mag: u64 = (-(i as i128)) as u64;
        push_digits_u64(mag, out);
        proof {
            assert(out@ =~= old(out)@ + spec_encode_int(i as int));
        }
    } else {
        push_digits_u64(i as u64, out);
    }
}

impl Value {
    /// The kind this value belongs to.
    pub open spec fn spec_kind(&self) -> FieldType {
        spec_kind_of(*self)
    }

    /// The kind this value belongs to.
    pub fn kind(&self) -> (r: FieldType)
        ensures
            r == self.spec_kind(),
    {
        match self {
            Value::Bool(_) => FieldType::Bool,
            Value::Bytes(_) => FieldType::Bytes,
            Value::Date(_) => FieldType::Date,
            Value::DateTime(_) => FieldType::DateTime,
            Value::Int(_) => FieldType::Int,
            Value::Real(_) => FieldType::Real,
            Value::Str(_) => FieldType::Str,
        }
    }

    /// True if this is a `Bool` value.
    pub fn is_bool(&self) -> (r: bool)
        ensures
            r == (self.spec_kind() == FieldType::Bool),
    {
        matches!(self, Value::Bool(_))
    }

    /// True if this is a `Bytes` value.
    pub fn is_bytes(&self) -> (r: bool)
        ensures
            r == (self.spec_kind() == FieldType::Bytes),
    {
        matches!(self, Value::Bytes(_))
    }

    /// True if this is a `Date` value.
    pub fn is_date(&self) -> (r: bool)
        ensures
            r == (self.spec_kind() == FieldType::Date),
    {
        matches!(self, Value::Date(_))
    }

    /// True if this is a `DateTime` value.
    pub fn is_datetime(&self) -> (r: bool)
        ensures
            r == (self.spec_kind() == FieldType::DateTime),
    {
        matches!(self, Value::DateTime(_))
    }

    /// True if this is an `Int` value.
    pub fn is_int(&self) -> (r: bool)
        ensures
            r == (self.spec_kind() == FieldType::Int),
    {
        matches!(self, Value::Int(_))
    }

    /// True if this is a `Real` value.
    pub fn is_real(&self) -> (r: bool)
        ensures
            r == (self.spec_kind() == FieldType::Real),
    {
        matches!(self, Value::Real(_))
    }

    /// True if this is a `Str` value.
    pub fn is_str(&self) -> (r: bool)
        ensures
            r == (self.spec_kind() == FieldType::Str),
    {
        matches!(self, Value::Str(_))
    }

    /// The boolean payload, if this is a `Bool`.
    pub fn as_bool(&self) -> (r: Option<bool>)
        ensures
            r == match *self {
                Value::Bool(b) => Some(b),
                _ => None::<bool>,
            },
    {
        if let Value::Bool(b) = self {
            Some(*b)
        } else {
            None
        }
    }

    /// The byte payload, if this is a `Bytes`.
    pub fn as_bytes(&self) -> (r: Option<&Vec<u8>>)
        ensures
            match *self {
                Value::Bytes(_) => r matches Some(b) && *self == Value::Bytes(*b),
                _ => r is None,
            },
    {
        if let Value::Bytes(b) = self {
            Some(b)
        } else {
            None
        }
    }

    /// The date payload, if this is a `Date`.
    pub fn as_date(&self) -> (r: Option<Date>)
        ensures
            r == match *self {
                Value::Date(d) => Some(d),
                _ => None::<Date>,
            },
    {
        if let Value::Date(d) = self {
            Some(*d)
        } else {
            None
        }
    }

    /// The datetime payload, if this is a `DateTime`.
    pub fn as_datetime(&self) -> (r: Option<DateTime>)
        ensures
            r == match *self {
                Value::DateTime(dt) => Some(dt),
                _ => None::<DateTime>,
            },
    {
        if let Value::DateTime(dt) = self {
            Some(*dt)
        } else {
            None
        }
    }

    /// The integer payload, if this is an `Int`.
    pub fn as_int(&self) -> (r: Option<i64>)
        ensures
            r == match *self {
                Value::Int(i) => Some(i),
                _ => None::<i64>,
            },
    {
        if let Value::Int(i) = self {
            Some(*i)
        } else {
            None
        }
    }

    /// The real payload, if this is a `Real`.
    pub fn as_real(&self) -> (r: Option<Real>)
        ensures
            r == match *self {
                Value::Real(x) => Some(x),
                _ => None::<Real>,
            },
    {
        if let Value::Real(x) = self {
            Some(*x)
        } else {
            None
        }
    }

    /// The text payload, if this is a `Str`.
    pub fn as_str(&self) -> (r: Option<&Vec<u8>>)
        ensures
            match *self {
                Value::Str(_) => r matches Some(s) && *self == Value::Str(*s),
                _ => r is None,
            },
    {
        if let Value::Str(s) = self {
            Some(s)
        } else {
            None
        }
    }

    /// The canonical type name of this value's kind.
    pub fn typename(&self) -> (r: Vec<u8>)
        ensures
            r@ == crate::field::spec_typename_bytes(self.spec_kind()),
    {
        self.kind().name_bytes()
    }

    /// Reports whether this value can be carried by the format: a real
    /// calendar date, an in-range real, text free of newlines.
    pub fn is_wf(&self) -> (r: bool)
        ensures
            r == spec_wf_value(*self),
    {
        match self {
            Value::Bool(_) => true,
            Value::Bytes(_) => true,
            Value::Date(d) => d.is_wf(),
            Value::DateTime(dt) => dt.is_wf(),
            Value::Int(_) => true,
            Value::Real(r) => r.is_wf(),
            Value::Str(s) => {
                let n = s.len();
                let mut i: usize = 0;
                while i < n
                    invariant
                        0 <= i <= n == s@.len(),
                        *self == Value::Str(*s),
                        forall|j: int| 0 <= j < i ==> s@[j] != NL,
                    decreases n - i,
                {
                    if s[i] == NL {
                        assert(!spec_nl_free(s@));
                        return false;
                    }
                    i += 1;
                }
                true
            },
        }
    }

    /// True when this value is its kind's reserved sentinel.
    pub fn is_sentinel(&self) -> (r: bool)
        requires
            spec_wf_value(*self),
        ensures
            r == spec_is_sentinel(*self),
    {
        match self {
            Value::Date(d) => d.year() == SENTINEL_YEAR && d.month() == SENTINEL_UNIT && d.day()
                == SENTINEL_UNIT,
            Value::DateTime(dt) => {
                let d = dt.date();
                d.year() == SENTINEL_YEAR && d.month() == SENTINEL_UNIT && d.day() == SENTINEL_UNIT
                    && dt.hour() == SENTINEL_UNIT && dt.minute() == SENTINEL_UNIT && dt.second()
                    == SENTINEL_UNIT
            },
            Value::Int(i) => *i == INT_SENTINEL,
            Value::Real(r) => r.is_sentinel(),
            _ => false,
        }
    }

    /// Appends this value's canonical literal at `dp` decimal places
    /// (already clamped) to `out`.
    pub fn push_text(&self, dp: u8, out: &mut Vec<u8>)
        requires
            spec_wf_value(*self),
            dp <= 15,
        ensures
            final(out)@ == old(out)@ + spec_encode_value(*self, dp as int),
    {
        if self.is_sentinel() {
            out.push(BANG);
            proof {
                assert(out@ =~= old(out)@ + spec_encode_value(*self, dp as int));
            }
            return ;
        }
        match self {
            Value::Bool(b) => {
                if *b {
                    out.push(84);
                } else {
                    out.push(70);
                }
                proof {
                    assert(out@ =~= old(out)@ + spec_encode_value(*self, dp as int));
                }
            },
            Value::Bytes(b) => {
                let mut piece = bytes_to_tdb(b.as_slice());
                out.append(&mut piece);
                proof {
                    assert(out@ =~= old(out)@ + spec_encode_value(*self, dp as int));
                }
            },
            Value::Date(d) => {
                push_date(d, out);
            },
            Value::DateTime(dt) => {
                push_datetime(dt, out);
            },
            Value::Int(i) => {
                push_int(*i, out);
            },
            Value::Real(r) => {
                push_real(r.man(), dp, out);
            },
            Value::Str(s) => {
                out.push(LANGLE);
                push_escaped(s.as_slice(), out);
                out.push(RANGLE);
                proof {
                    assert(out@ =~= old(out)@ + spec_encode_value(*self, dp as int));
                }
            },
        }
    }

    /// The canonical literal of this value, with the decimal-places
    /// setting clamped before use.
    pub fn text(&self, decimals: usize) -> (r: Vec<u8>)
        requires
            spec_wf_value(*self),
        ensures
            r@ == spec_encode_value(*self, spec_clamp_decimals(decimals as int)),
    {
        let dp: u8 = if decimals > 15 {
            15
        } else {
            decimals as u8
        };
        let mut out: Vec<u8> = Vec::new();
        self.push_text(dp, &mut out);
        out
    }
}

impl PartialEq for Value {
    /// Tolerance-aware equality: equal variant and payload, with reals
    /// compared within tolerance.
    fn eq(&self, other: &Self) -> (r: bool) {
        match (self, other) {
            (Value::Bool(x), Value::Bool(y)) => *x == *y,
            (Value::Bytes(x), Value::Bytes(y)) => crate::util::bytes_eq(
                x.as_slice(),
                y.as_slice(),
            ),
            (Value::Date(x), Value::Date(y)) => *x == *y,
            (Value::DateTime(x), Value::DateTime(y)) => *x == *y,
            (Value::Int(x), Value::Int(y)) => *x == *y,
            (Value::Real(x), Value::Real(y)) => {
                let a = x.man();
                let b = y.man();
                let hi = if a >= b {
                    a
                } else {
                    b
                };
                let lo = if a >= b {
                    b
                } else {
                    a
                };
                if hi == lo {
                    true
                } else {
                    lo >= hi - 1
                }
            },
            (Value::Str(x), Value::Str(y)) => crate::util::bytes_eq(x.as_slice(), y.as_slice()),
            _ => false,
        }
    }
}

impl vstd::std_specs::cmp::PartialEqSpecImpl for Value {
    open spec fn obeys_eq_spec() -> bool {
        true
    }

    open spec fn eq_spec(&self, other: &Value) -> bool {
        spec_value_eq(*self, *other)
    }
}


impl From<bool> for Value {
    /// Wraps a boolean as a `Bool` value.
    fn from(b: bool) -> (r: Value) {
        Value::Bool(b)
    }
}

impl vstd::std_specs::convert::FromSpecImpl<bool> for Value {
    open spec fn obeys_from_spec() -> bool {
        true
    }

    open spec fn from_spec(b: bool) -> Value {
        Value::Bool(b)
    }
}

impl From<i64> for Value {
    /// Wraps a machine integer as an `Int` value.
    fn from(i: i64) -> (r: Value) {
        Value::Int(i)
    }
}

impl vstd::std_specs::convert::FromSpecImpl<i64> for Value {
    open spec fn obeys_from_spec() -> bool {
        true
    }

    open spec fn from_spec(i: i64) -> Value {
        Value::Int(i)
    }
}

impl From<i32> for Value {
    /// Widens and wraps a machine integer as an `Int` value.
    fn from(i: i32) -> (r: Value) {
        Value::Int(i as i64)
    }
}

impl vstd::std_specs::convert::FromSpecImpl<i32> for Value {
    open spec fn obeys_from_spec() -> bool {
        true
    }

    open spec fn from_spec(i: i32) -> Value {
        Value::Int(i as i64)
    }
}

impl From<Vec<u8>> for Value {
    /// Wraps a byte vector as a `Bytes` value.
    fn from(b: Vec<u8>) -> (r: Value) {
        Value::Bytes(b)
    }
}

impl vstd::std_specs::convert::FromSpecImpl<Vec<u8>> for Value {
    open spec fn obeys_from_spec() -> bool {
        true
    }

    open spec fn from_spec(b: Vec<u8>) -> Value {
        Value::Bytes(b)
    }
}

impl From<Real> for Value {
    /// Wraps a fixed-point decimal as a `Real` value.
    fn from(r: Real) -> (v: Value) {
        Value::Real(r)
    }
}

impl vstd::std_specs::convert::FromSpecImpl<Real> for Value {
    open spec fn obeys_from_spec() -> bool {
        true
    }

    open spec fn from_spec(r: Real) -> Value {
        Value::Real(r)
    }
}

impl From<Date> for Value {
    /// Wraps a calendar date as a `Date` value.
    fn from(d: Date) -> (v: Value) {
        Value::Date(d)
    }
}

impl vstd::std_specs::convert::FromSpecImpl<Date> for Value {
    open spec fn obeys_from_spec() -> bool {
        true
    }

    open spec fn from_spec(d: Date) -> Value {
        Value::Date(d)
    }
}

impl From<DateTime> for Value {
    /// Wraps a datetime as a `DateTime` value.
    fn from(dt: DateTime) -> (v: Value) {
        Value::DateTime(dt)
    }
}

impl vstd::std_specs::convert::FromSpecImpl<DateTime> for Value {
    open spec fn obeys_from_spec() -> bool {
        true
    }

    open spec fn from_spec(dt: DateTime) -> Value {
        Value::DateTime(dt)
    }
}

} // verus!
