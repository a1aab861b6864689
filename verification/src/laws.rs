//! The round-trip laws of the format: every canonical literal the
//! writer emits parses back, under its column's kind, to the value it
//! came from — exactly for every kind but `real`, whose literal parses
//! back to the value truncated at the chosen precision — and writing
//! the parsed-back value reproduces the literal byte for byte.

use crate::date::{Date, DateTime};
use crate::field::FieldType;
use crate::parse::{
    spec_find_dot, spec_parse_int, spec_token_result, spec_uint, spec_unescape, spec_unhex,
    ErrorKind,
};
use crate::realnum::{spec_trunc_man, Real, REAL_SENTINEL_MAN};
use crate::util::{
    lemma_digits_fixed_val, lemma_digits_val, spec_all_digits, spec_digits, spec_digits_val,
    spec_hex_of, spec_is_digit, BANG, DASH, DOT, QUERY,
};
use crate::value::{
    spec_encode_slot, spec_encode_value, spec_escape, spec_escape_byte, spec_is_sentinel,
    spec_needs_escape, spec_slot_ok, spec_slot_view, Value, ValueModel, INT_SENTINEL,
};
use vstd::prelude::*;

verus! {

/// The value a slot's canonical literal reads back as: missing stays
/// missing, a sentinel snaps to its kind's reserved constant, a real
/// is truncated at the precision it was written with, and every other
/// value comes back as itself.
pub open spec fn spec_round_value(v: Value, dp: int) -> Value {
    if spec_is_sentinel(v) {
        match v {
            Value::Date(_) => Value::Date(crate::value::spec_date_sentinel()),
            Value::DateTime(_) => Value::DateTime(crate::value::spec_datetime_sentinel()),
            Value::Int(_) => Value::Int(INT_SENTINEL),
            Value::Real(_) => Value::Real(Real { man: REAL_SENTINEL_MAN }),
            _ => v,
        }
    } else {
        match v {
            Value::Real(r) => Value::Real(Real { man: spec_trunc_man(r.spec_man(), dp) as i128 }),
            _ => v,
        }
    }
}

/// The slot a slot's canonical literal reads back as.
pub open spec fn spec_round_slot(slot: Option<Value>, dp: int) -> Option<Value> {
    match slot {
        Option::None => None,
        Option::Some(v) => Some(spec_round_value(v, dp)),
    }
}

/// Every byte of a hexadecimal rendering is a hex digit, the length is
/// two digits per byte, and reading the digits back yields the bytes.
pub proof fn lemma_unhex_hex(s: Seq<u8>)
    ensures
        spec_hex_of(s).len() == 2 * s.len(),
        crate::parse::spec_all_hex(spec_hex_of(s)),
        spec_unhex(spec_hex_of(s)) == s,
    decreases s.len(),
{
    if s.len() == 0 {
        assert(spec_unhex(spec_hex_of(s)) =~= s);
    } else {
        lemma_unhex_hex(s.drop_last());
        let h = spec_hex_of(s);
        let hp = spec_hex_of(s.drop_last());
        crate::util::lemma_hex_digit_val(s.last() as int / 16);
        crate::util::lemma_hex_digit_val(s.last() as int % 16);
        assert(h =~= hp + crate::util::spec_hex_pair(s.last()));
        assert(h.drop_last().drop_last() =~= hp);
        assert(h[h.len() - 2] == crate::util::spec_hex_digit(s.last() as int / 16));
        assert(h.last() == crate::util::spec_hex_digit(s.last() as int % 16));
        assert(spec_unhex(h) =~= s);
    }
}

/// Unescaping the escaped form of any text gives the text back.
pub proof fn lemma_unescape_escape(s: Seq<u8>)
    ensures
        spec_unescape(spec_escape(s)) == Some(s),
    decreases s.len(),
{
    if s.len() == 0 {
        assert(spec_escape(s) =~= Seq::<u8>::empty());
        assert(spec_unescape(spec_escape(s)) == Some(Seq::<u8>::empty()));
        assert(Seq::<u8>::empty() =~= s);
    } else {
        lemma_unescape_escape(s.skip(1));
        let t = spec_escape(s);
        let piece = spec_escape_byte(s[0]);
        assert(t == piece + spec_escape(s.skip(1)));
        if spec_needs_escape(s[0]) {
            assert(t[0] == crate::util::BACKSLASH);
            assert(t[1] == s[0]);
            assert(t.skip(2) =~= spec_escape(s.skip(1)));
            assert(spec_unescape(t) == Some(seq![s[0]] + s.skip(1)));
            assert(seq![s[0]] + s.skip(1) =~= s);
        } else {
            assert(t[0] == s[0]);
            assert(t[0] != crate::util::BACKSLASH && t[0] != crate::util::RANGLE);
            assert(t.skip(1) =~= spec_escape(s.skip(1)));
            assert(spec_unescape(t) == Some(seq![s[0]] + s.skip(1)));
            assert(seq![s[0]] + s.skip(1) =~= s);
        }
    }
}

/// A one-byte marker differs from any digit string and from any signed
/// digit string.
proof fn lemma_int_text_not_marker(i: int)
    ensures
        crate::value::spec_encode_int(i) != seq![QUERY],
        crate::value::spec_encode_int(i) != seq![BANG],
        spec_parse_int(crate::value::spec_encode_int(i)) == Some(i),
{
    if i < 0 {
        lemma_digits_val(-i);
        let s = seq![DASH] + spec_digits(-i);
        assert(s == crate::value::spec_encode_int(i));
        assert(s[0] == DASH);
        assert(s != seq![QUERY] && s != seq![BANG]);
        assert(s.skip(1) =~= spec_digits(-i));
        assert(spec_uint(s.skip(1)) == Some(-i));
    } else {
        lemma_digits_val(i);
        let s = spec_digits(i);
        assert(spec_is_digit(s[0]));
        assert(s[0] != DASH && s[0] != QUERY && s[0] != BANG);
        assert(s != seq![QUERY] && s != seq![BANG]);
    }
}

/// A missing slot writes `?` and reads back as missing (one half of
/// the sentinel-versus-missing distinction).
pub proof fn lemma_missing_round_trip(k: FieldType, dp: int)
    ensures
        spec_encode_slot(None, dp) == seq![QUERY],
        spec_token_result(seq![QUERY], k) == Ok::<Option<ValueModel>, ErrorKind>(None),
{
}

/// A sentinel value writes `!` and reads back as its kind's reserved
/// sentinel, never as missing (the other half of the distinction).
pub proof fn lemma_sentinel_round_trip(v: Value, k: FieldType, dp: int)
    requires
        spec_slot_ok(Some(v), k),
        spec_is_sentinel(v),
    ensures
        spec_encode_value(v, dp) == seq![BANG],
        spec_token_result(seq![BANG], k) == Ok::<Option<ValueModel>, ErrorKind>(
            Some(spec_round_value(v, dp)@),
        ),
{
    assert(seq![BANG] != seq![QUERY]);
}

/// Every canonical slot literal parses back, under its column's kind,
/// to exactly the slot it was written from, with sentinels snapping to
/// their reserved constants and reals truncated at the precision they
/// were written with.
pub proof fn lemma_slot_round_trip(slot: Option<Value>, k: FieldType, dp: int)
    requires
        spec_slot_ok(slot, k),
        0 <= dp <= 15,
    ensures
        spec_token_result(spec_encode_slot(slot, dp), k) == Ok::<Option<ValueModel>, ErrorKind>(
            spec_slot_view(spec_round_slot(slot, dp)),
        ),
{
    match slot {
        Option::None => {},
        Option::Some(v) => {
            if spec_is_sentinel(v) {
                lemma_sentinel_round_trip(v, k, dp);
            } else {
                match v {
                    Value::Bool(b) => {
                        let s = spec_encode_value(v, dp);
                        assert(s == if b {
                            seq![84u8]
                        } else {
                            seq![70u8]
                        });
                        assert(s != seq![QUERY] && s != seq![BANG]);
                    },
                    Value::Int(i) => {
                        lemma_int_text_not_marker(i as int);
                    },
                    Value::Date(d) => {
                        lemma_date_text(d);
                    },
                    Value::DateTime(dt) => {
                        lemma_datetime_text(dt);
                    },
                    Value::Bytes(b) => {
                        let s = spec_encode_value(v, dp);
                        lemma_unhex_hex(b@);
                        assert(s[0] == crate::util::LPAREN);
                        assert(s.last() == crate::util::RPAREN);
                        assert(s != seq![QUERY] && s != seq![BANG]);
                        assert(s.subrange(1, s.len() - 1) =~= spec_hex_of(b@));
                    },
                    Value::Str(st) => {
                        let s = spec_encode_value(v, dp);
                        lemma_unescape_escape(st@);
                        assert(s[0] == crate::util::LANGLE);
                        assert(s.last() == crate::util::RANGLE);
                        assert(s != seq![QUERY] && s != seq![BANG]);
                        assert(s.subrange(1, s.len() - 1) =~= spec_escape(st@));
                    },
                    Value::Real(r) => {
                        lemma_real_text(r.spec_man(), dp);
                    },
                }
            }
        },
    }
}

/// A non-sentinel date literal has the date shape and reads back as
/// its own components.
proof fn lemma_date_text(d: Date)
    requires
        d.wf(),
        !spec_is_sentinel(Value::Date(d)),
    ensures
        ({
            let s = crate::value::spec_encode_date(d);
            crate::parse::spec_date_shape(s) && crate::parse::spec_date_y(s) == d.spec_year()
                && crate::parse::spec_date_m(s) == d.spec_month() && crate::parse::spec_date_d(s)
                == d.spec_day() && s != seq![QUERY] && s != seq![BANG]
        }),
{
    reveal_with_fuel(crate::util::spec_pow10, 6);
    let s = crate::value::spec_encode_date(d);
    lemma_digits_fixed_val(d.spec_year(), 4);
    lemma_digits_fixed_val(d.spec_month(), 2);
    lemma_digits_fixed_val(d.spec_day(), 2);
    assert(s.len() == 10);
    assert(s.subrange(0, 4) =~= crate::util::spec_digits_fixed(d.spec_year(), 4));
    assert(s.subrange(5, 7) =~= crate::util::spec_digits_fixed(d.spec_month(), 2));
    assert(s.subrange(8, 10) =~= crate::util::spec_digits_fixed(d.spec_day(), 2));
    assert(s[4] == DASH && s[7] == DASH);
}

/// A non-sentinel datetime literal has the full datetime shape and
/// reads back as its own components.
proof fn lemma_datetime_text(dt: DateTime)
    requires
        dt.wf(),
        !spec_is_sentinel(Value::DateTime(dt)),
    ensures
        ({
            let s = crate::value::spec_encode_datetime(dt);
            crate::parse::spec_datetime_shape(s) && crate::parse::spec_date_y(s.subrange(0, 10))
                == dt.spec_date().spec_year() && crate::parse::spec_date_m(s.subrange(0, 10))
                == dt.spec_date().spec_month() && crate::parse::spec_date_d(s.subrange(0, 10))
                == dt.spec_date().spec_day() && crate::parse::spec_dt_hour(s) == dt.spec_hour()
                && crate::parse::spec_dt_minute(s) == dt.spec_minute()
                && crate::parse::spec_dt_second(s) == dt.spec_second() && s != seq![QUERY] && s
                != seq![BANG]
        }),
{
    reveal_with_fuel(crate::util::spec_pow10, 6);
    let s = crate::value::spec_encode_datetime(dt);
    let d = dt.spec_date();
    lemma_digits_fixed_val(d.spec_year(), 4);
    lemma_digits_fixed_val(d.spec_month(), 2);
    lemma_digits_fixed_val(d.spec_day(), 2);
    lemma_digits_fixed_val(dt.spec_hour(), 2);
    lemma_digits_fixed_val(dt.spec_minute(), 2);
    lemma_digits_fixed_val(dt.spec_second(), 2);
    assert(s.len() == 19);
    assert(s.subrange(0, 10) =~= crate::value::spec_encode_date(d));
    assert(s.subrange(0, 10).subrange(0, 4) =~= crate::util::spec_digits_fixed(d.spec_year(), 4));
    assert(s.subrange(0, 10).subrange(5, 7) =~= crate::util::spec_digits_fixed(d.spec_month(), 2));
    assert(s.subrange(0, 10).subrange(8, 10) =~= crate::util::spec_digits_fixed(d.spec_day(), 2));
    assert(s.subrange(11, 13) =~= crate::util::spec_digits_fixed(dt.spec_hour(), 2));
    assert(s.subrange(14, 16) =~= crate::util::spec_digits_fixed(dt.spec_minute(), 2));
    assert(s.subrange(17, 19) =~= crate::util::spec_digits_fixed(dt.spec_second(), 2));
    assert(s[10] == crate::util::TSEP && s[13] == 58 && s[16] == 58);
    assert(s.subrange(0, 10)[4] == DASH && s.subrange(0, 10)[7] == DASH);
}


/// The first decimal point of a digit run followed by a point (or by
/// nothing) sits exactly past the run.
proof fn lemma_find_dot_from(t: Seq<u8>, i: int, m: int)
    requires
        0 <= i <= m <= t.len(),
        forall|j: int| i <= j < m ==> spec_is_digit(#[trigger] t[j]),
        m < t.len() ==> t[m] == DOT,
    ensures
        spec_find_dot(t, i) == if m < t.len() {
            m
        } else {
            t.len() as int
        },
    decreases m - i,
{
    if i == m {
    } else {
        assert(spec_is_digit(t[i]));
        assert(t[i] != DOT);
        lemma_find_dot_from(t, i + 1, m);
    }
}

/// Dropping the trailing zero digits keeps every digit a digit, keeps
/// a positive value positive, and scales the value by a power of ten.
proof fn lemma_strip_zeros(s: Seq<u8>)
    requires
        spec_all_digits(s),
    ensures
        ({
            let r = crate::realnum::spec_strip_zeros(s);
            r.len() <= s.len() && spec_all_digits(r) && spec_digits_val(s) == spec_digits_val(r)
                * crate::util::spec_pow10((s.len() - r.len()) as nat) && (spec_digits_val(s) > 0
                ==> r.len() > 0)
        }),
    decreases s.len(),
{
    let r = crate::realnum::spec_strip_zeros(s);
    if s.len() > 0 && s.last() == 0x30u8 {
        assert(spec_all_digits(s.drop_last())) by {
            assert(forall|i: int|
                0 <= i < s.drop_last().len() ==> s.drop_last()[i] == #[trigger] s[i]);
        }
        lemma_strip_zeros(s.drop_last());
        crate::util::lemma_digits_val_bound(s.drop_last());
        assert(spec_digits_val(s) == spec_digits_val(s.drop_last()) * 10);
        let w = (s.drop_last().len() - r.len()) as nat;
        assert(crate::util::spec_pow10(w + 1) == 10 * crate::util::spec_pow10(w));
        assert(spec_digits_val(r) * crate::util::spec_pow10(w + 1) == (spec_digits_val(r)
            * crate::util::spec_pow10(w)) * 10) by (nonlinear_arith);
    } else {
    }
}

/// The canonical real literal parses back, under the real kind, to the
/// mantissa truncated at the precision it was written with, and is
/// never one of the one-byte markers.
#[verifier::rlimit(100)]
#[verifier::spinoff_prover]
proof fn lemma_real_text(man: int, dp: int)
    requires
        -crate::realnum::REAL_MAN_LIMIT < man < crate::realnum::REAL_MAN_LIMIT,
        0 <= dp <= 15,
    ensures
        ({
            let s = crate::realnum::spec_encode_real(man, dp);
            crate::parse::spec_parse_real_man(s) == Some(spec_trunc_man(man, dp)) && s
                != seq![QUERY] && s != seq![BANG] && -crate::realnum::REAL_MAN_LIMIT
                < spec_trunc_man(man, dp) < crate::realnum::REAL_MAN_LIMIT
        }),
{
    reveal_with_fuel(crate::util::spec_pow10, 20);
    let scale: int = 1_000_000_000;
    let s = crate::realnum::spec_encode_real(man, dp);
    let tm = spec_trunc_man(man, dp);
    let mag = if man < 0 {
        -man
    } else {
        man
    };
    // the truncated magnitude, as the encoder computes it
    let magr = if tm < 0 {
        -tm
    } else {
        tm
    };
    if 1 <= dp < 9 {
        let p = crate::util::spec_pow10((9 - dp) as nat);
        crate::util::lemma_pow10_pos((9 - dp) as nat);
        assert(0 <= (mag / p) * p <= mag) by (nonlinear_arith)
            requires
                p > 0,
                mag >= 0,
        ;
        assert(magr == (mag / p) * p);
    } else {
        assert(magr == mag);
    }
    assert(0 <= magr <= mag);
    let units = magr / scale;
    let frac = magr % scale;
    assert(magr == units * scale + frac && 0 <= frac < scale && 0 <= units) by {
        vstd::arithmetic::div_mod::lemma_fundamental_div_mod(magr, scale);
    }
    lemma_digits_val(units);
    let ud = spec_digits(units);
    let sign: Seq<u8> = if man < 0 && magr > 0 {
        seq![DASH]
    } else {
        Seq::empty()
    };
    // the body after the optional sign
    let body = s.skip(sign.len() as int);
    // dispatch on the encoder's own case split to name the body
    if dp == 0 && frac == 0 {
        assert(s =~= sign + ud);
        assert(body =~= ud);
        lemma_find_dot_from(body, 0, body.len() as int);
        assert(spec_uint(body) == Some(units));
        assert(tm == man);
        assert(magr == units * scale);
    } else if dp == 0 {
        let stripped = crate::realnum::spec_strip_zeros(crate::util::spec_digits_fixed(frac, 9));
        lemma_digits_fixed_val(frac, 9);
        lemma_strip_zeros(crate::util::spec_digits_fixed(frac, 9));
        assert(s =~= sign + ud + seq![DOT] + stripped);
        assert(body =~= ud + seq![DOT] + stripped);
        assert(forall|j: int| 0 <= j < ud.len() ==> body[j] == #[trigger] ud[j]);
        lemma_find_dot_from(body, 0, ud.len() as int);
        let ipart = body.subrange(0, ud.len() as int);
        let fpart = body.subrange(ud.len() as int + 1, body.len() as int);
        assert(ipart =~= ud);
        assert(fpart =~= stripped);
        let k = fpart.len() as int;
        assert(k <= 9);
        assert(fpart.take(k) =~= fpart);
        assert(spec_digits_val(fpart) * crate::util::spec_pow10((9 - k) as nat) == frac);
        assert(tm == man);
        assert(magr == mag);
    } else if dp <= 9 {
        let p = crate::util::spec_pow10((9 - dp) as nat);
        crate::util::lemma_pow10_pos((9 - dp) as nat);
        crate::realnum::lemma_pow10_adds((9 - dp) as nat, dp as nat);
        assert(scale == p * crate::util::spec_pow10(dp as nat));
        assert(frac / p < crate::util::spec_pow10(dp as nat)) by (nonlinear_arith)
            requires
                0 <= frac < scale,
                scale == p * crate::util::spec_pow10(dp as nat),
                p > 0,
        ;
        let fd = crate::util::spec_digits_fixed(frac / p, dp as nat);
        assert(0 <= frac / p) by (nonlinear_arith)
            requires
                frac >= 0,
                p > 0,
        ;
        lemma_digits_fixed_val(frac / p, dp as nat);
        assert(s =~= sign + ud + seq![DOT] + fd);
        assert(body =~= ud + seq![DOT] + fd);
        assert(forall|j: int| 0 <= j < ud.len() ==> body[j] == #[trigger] ud[j]);
        lemma_find_dot_from(body, 0, ud.len() as int);
        let fpart = body.subrange(ud.len() as int + 1, body.len() as int);
        assert(body.subrange(0, ud.len() as int) =~= ud);
        assert(fpart =~= fd);
        let k = fpart.len() as int;
        assert(k == dp);
        assert(fpart.take(k) =~= fpart);
        // the fraction of the truncated magnitude is a multiple of p
        if dp < 9 {
            let m1 = mag / p;
            let q = magr / scale;
            let m2 = crate::util::spec_pow10(dp as nat);
            assert(frac == (m1 - q * m2) * p) by (nonlinear_arith)
                requires
                    magr == (mag / p) * p,
                    m1 == mag / p,
                    scale == p * m2,
                    frac == magr - q * scale,
            ;
            assert((frac / p) * p == frac) by (nonlinear_arith)
                requires
                    frac == (m1 - q * m2) * p,
                    frac >= 0,
                    p > 0,
            ;
        } else {
            assert(p == 1);
            assert((frac / p) * p == frac);
        }
        assert(spec_digits_val(fpart.take(k)) * crate::util::spec_pow10((9 - k) as nat) == (frac
            / p) * p);
    } else {
        let fd = crate::util::spec_digits_fixed(frac, 9) + crate::realnum::spec_zero_digits(
            (dp - 9) as nat,
        );
        lemma_digits_fixed_val(frac, 9);
        assert(s =~= sign + ud + seq![DOT] + fd);
        assert(body =~= ud + seq![DOT] + fd);
        assert(forall|j: int| 0 <= j < ud.len() ==> body[j] == #[trigger] ud[j]);
        lemma_find_dot_from(body, 0, ud.len() as int);
        let fpart = body.subrange(ud.len() as int + 1, body.len() as int);
        assert(body.subrange(0, ud.len() as int) =~= ud);
        assert(fpart =~= fd);
        assert(spec_all_digits(fpart)) by {
            assert(forall|j: int|
                0 <= j < 9 ==> fpart[j] == #[trigger] crate::util::spec_digits_fixed(frac, 9)[j]);
            assert(forall|j: int| 9 <= j < fpart.len() ==> #[trigger] fpart[j] == 0x30u8);
        }
        let k: int = 9;
        assert(fpart.len() >= 9);
        assert(fpart.take(9) =~= crate::util::spec_digits_fixed(frac, 9));
        assert(tm == man);
        assert(magr == mag);
    }
    // the sign byte is seen exactly when it was written
    assert(spec_all_digits(ud));
    assert(ud.len() > 0);
    if sign.len() == 1 {
        assert(s[0] == DASH);
        assert(s.skip(1) =~= body);
    } else {
        assert(s =~= body);
        assert(body[0] == ud[0]);
        assert(spec_is_digit(s[0]));
        assert(s[0] != DASH);
    }
    assert(s[0] != QUERY && s[0] != BANG);
    assert(s != seq![QUERY] && s != seq![BANG]);
    // conclude: the parsed mantissa is the truncated one
    assert(-crate::realnum::REAL_MAN_LIMIT < tm < crate::realnum::REAL_MAN_LIMIT);
    if man < 0 && magr > 0 {
        assert(tm == -magr);
        assert(magr == units * scale + frac);
        assert(s[0] == DASH);
        assert(s.skip(1) =~= body);
        assert(crate::parse::spec_parse_real_man(s) == Some(-(units * scale + frac)));
    } else {
        assert(tm == magr) by {
            if man < 0 {
                assert(magr == 0);
            }
        }
        assert(magr == units * scale + frac);
        assert(s =~= body);
        assert(crate::parse::spec_parse_real_man(s) == Some(units * scale + frac));
    }
}


/// Writing is idempotent at the slot level: re-encoding the value a
/// canonical literal reads back as reproduces the literal, at the same
/// precision.  The one family of inputs left out: a real that is not
/// itself within tolerance of the reserved sentinel but whose
/// truncation at this precision is, for its re-encoding is the
/// sentinel marker.
pub proof fn lemma_encode_idempotent(slot: Option<Value>, k: FieldType, dp: int)
    requires
        spec_slot_ok(slot, k),
        0 <= dp <= 15,
        slot matches Some(v) ==> (spec_is_sentinel(v) || !spec_is_sentinel(
            spec_round_value(v, dp),
        )),
    ensures
        spec_encode_slot(spec_round_slot(slot, dp), dp) == spec_encode_slot(slot, dp),
{
    match slot {
        Option::None => {},
        Option::Some(v) => {
            if spec_is_sentinel(v) {
                assert(spec_is_sentinel(spec_round_value(v, dp)));
            } else {
                match v {
                    Value::Real(r) => {
                        let man = r.spec_man();
                        let tm = spec_trunc_man(man, dp);
                        if 1 <= dp < 9 {
                            let p = crate::util::spec_pow10((9 - dp) as nat);
                            crate::util::lemma_pow10_pos((9 - dp) as nat);
                            let mag = if man < 0 {
                                -man
                            } else {
                                man
                            };
                            let magr = (mag / p) * p;
                            assert(0 <= magr <= mag) by (nonlinear_arith)
                                requires
                                    p > 0,
                                    mag >= 0,
                                    magr == (mag / p) * p,
                            ;
                            assert((magr / p) * p == magr) by (nonlinear_arith)
                                requires
                                    magr == (mag / p) * p,
                                    p > 0,
                            ;
                            assert(spec_trunc_man(tm, dp) == tm);
                            assert(crate::realnum::spec_encode_real(tm, dp)
                                == crate::realnum::spec_encode_real(man, dp));
                        } else {
                            assert(tm == man);
                        }
                    },
                    _ => {},
                }
            }
        },
    }
}


/// The writer keeps table order: the text of a two-table database is
/// the first table's text, a blank line, then the second table's text,
/// whatever the names' alphabetic order.
pub proof fn lemma_write_order(first: crate::table::Table, second: crate::table::Table, dp: int)
    ensures
        crate::tdb::spec_db_text(seq![first, second], dp) == crate::tdb::spec_table_text(
            first,
            dp,
        ) + seq![crate::util::NL] + crate::tdb::spec_table_text(second, dp),
{
    let ts = seq![first, second];
    assert(ts.drop_last() =~= seq![first]);
    assert(ts.last() == second);
    assert(crate::tdb::spec_db_text(seq![first], dp) == crate::tdb::spec_table_text(first, dp));
}

} // verus!
