use tdb::date::{Date, DateTime};
use tdb::field::FieldType;
use tdb::parse::{parse, ErrorKind};
use tdb::realnum::Real;
use tdb::table::Table;
use tdb::tdb::Tdb;
use tdb::value::Value;

fn str_val(s: &str) -> Value {
    Value::Str(s.as_bytes().to_vec())
}

fn real_val(man: i128) -> Value {
    Value::Real(Real::new(man).expect("mantissa in range"))
}

fn date_val(y: u16, m: u8, d: u8) -> Value {
    Value::Date(Date::new(y, m, d).expect("valid date"))
}

#[test]
fn scenario_people_table() {
    let db = parse(b"[People name:str age:int]\nAlice 30\nBob ?\n").expect("parses");
    assert_eq!(db.len(), 1);
    let t = db.get(b"People").expect("table present");
    assert_eq!(t.columns(), 2);
    assert_eq!(t.len(), 2);
    assert_eq!(t.value_at(0, 0).as_ref().unwrap(), &str_val("Alice"));
    assert_eq!(t.value_at(0, 1).as_ref().unwrap(), &Value::Int(30));
    assert!(t.value_at(1, 1).is_none());
}

#[test]
fn scenario_real_two_decimals() {
    // 3.14159 at two decimal places encodes to 3.14
    let v = real_val(3_141_590_000);
    assert_eq!(v.text(2), b"3.14".to_vec());
}

#[test]
fn scenario_unterminated_string() {
    let e = parse(b"[X s:str]\n<abc").unwrap_err();
    assert_eq!(e.kind, ErrorKind::UnterminatedString);
    assert_eq!(e.lino, 2);
}

#[test]
fn scenario_duplicate_table() {
    let e = parse(b"[T a:int]\n1\n\n[T b:int]\n2\n").unwrap_err();
    assert_eq!(e.kind, ErrorKind::DuplicateTable);
    assert_eq!(e.lino, 4);
}

#[test]
fn scenario_bytes_literal() {
    let v = Value::Bytes(vec![0xDE, 0xAD]);
    assert_eq!(v.text(0), b"(DEAD)".to_vec());
    let db = parse(b"[B x:bytes]\n(DEAD)\n").expect("parses");
    let t = db.get(b"B").unwrap();
    assert_eq!(t.value_at(0, 0).as_ref().unwrap(), &Value::Bytes(vec![0xDE, 0xAD]));
}

#[test]
fn order_preserved_not_alphabetic() {
    let db = parse(b"[B x:int]\n1\n\n[A y:int]\n2\n").expect("parses");
    assert_eq!(db.len(), 2);
    assert_eq!(db.table_at(0).name(), &b"B".to_vec());
    assert_eq!(db.table_at(1).name(), &b"A".to_vec());
}

fn sample_db() -> Tdb {
    let mut t = Table::new();
    t.set_name(b"Mix".to_vec()).unwrap();
    t.add_field(b"b".to_vec(), FieldType::Bool).unwrap();
    t.add_field(b"y".to_vec(), FieldType::Bytes).unwrap();
    t.add_field(b"d".to_vec(), FieldType::Date).unwrap();
    t.add_field(b"dt".to_vec(), FieldType::DateTime).unwrap();
    t.add_field(b"i".to_vec(), FieldType::Int).unwrap();
    t.add_field(b"r".to_vec(), FieldType::Real).unwrap();
    t.add_field(b"s".to_vec(), FieldType::Str).unwrap();
    let d = Date::new(2021, 12, 31).unwrap();
    let dt = DateTime::new(d, 23, 59, 58).unwrap();
    t.append(vec![
        Some(Value::Bool(true)),
        Some(Value::Bytes(vec![1, 2, 0xFF])),
        Some(Value::Date(d)),
        Some(Value::DateTime(dt)),
        Some(Value::Int(-42)),
        Some(real_val(1_250_000_000)),
        Some(str_val("he<ll>o \\world")),
    ])
    .unwrap();
    t.append(vec![
        None,
        None,
        Some(Value::Date(Date::new(1808, 8, 8).unwrap())),
        None,
        Some(Value::Int(tdb::value::INT_SENTINEL)),
        None,
        Some(str_val("")),
    ])
    .unwrap();
    let mut db = Tdb::new();
    db.insert(t).unwrap();
    db
}

#[test]
fn round_trip_all_kinds() {
    let db = sample_db();
    let text = db.write(4).unwrap();
    let back = parse(&text).expect("canonical text parses");
    assert_eq!(back.len(), db.len());
    let t0 = db.table_at(0);
    let t1 = back.table_at(0);
    assert_eq!(t1.name(), t0.name());
    assert_eq!(t1.columns(), t0.columns());
    assert_eq!(t1.len(), t0.len());
    for row in 0..t0.len() {
        for col in 0..t0.columns() {
            assert_eq!(t1.value_at(row, col), t0.value_at(row, col));
        }
    }
}

#[test]
fn idempotent_reformat() {
    let db = sample_db();
    let once = db.write(3).unwrap();
    let back = parse(&once).expect("parses");
    let twice = back.write(3).unwrap();
    assert_eq!(once, twice);
}

#[test]
fn arity_mismatch_on_append() {
    let mut t = Table::new();
    t.set_name(b"T".to_vec()).unwrap();
    t.add_field(b"a".to_vec(), FieldType::Int).unwrap();
    t.add_field(b"b".to_vec(), FieldType::Int).unwrap();
    let e = t.append(vec![Some(Value::Int(1))]).unwrap_err();
    assert_eq!(e, ErrorKind::ArityMismatch { expected: 2, actual: 1 });
    let e = t.append(vec![None, None, None]).unwrap_err();
    assert_eq!(e, ErrorKind::ArityMismatch { expected: 2, actual: 3 });
    assert_eq!(t.len(), 0);
}

#[test]
fn arity_mismatch_on_parse() {
    let e = parse(b"[T a:int b:int]\n1 2 3\n").unwrap_err();
    assert_eq!(e.kind, ErrorKind::ArityMismatch { expected: 2, actual: 3 });
    assert_eq!(e.lino, 2);
}

#[test]
fn sentinel_and_missing_stay_distinct() {
    let db = parse(b"[T a:int b:int]\n! ?\n").expect("parses");
    let t = db.get(b"T").unwrap();
    let sentinel = t.value_at(0, 0);
    let missing = t.value_at(0, 1);
    assert_eq!(sentinel.as_ref().unwrap().as_int(), Some(tdb::value::INT_SENTINEL));
    assert!(missing.is_none());
    let text = db.write(0).unwrap();
    assert_eq!(text, b"[T a:int b:int]\n! ?\n".to_vec());
}

#[test]
fn date_sentinel_encodes_as_bang() {
    assert_eq!(date_val(1808, 8, 8).text(0), b"!".to_vec());
    let d = Date::new(1808, 8, 8).unwrap();
    let dt = DateTime::new(d, 8, 8, 8).unwrap();
    assert_eq!(Value::DateTime(dt).text(0), b"!".to_vec());
    assert_eq!(Value::Int(-1808080808).text(0), b"!".to_vec());
    assert_eq!(real_val(-1_808_080_808_080_800_000).text(5), b"!".to_vec());
}

#[test]
fn datetime_reduced_precision_zero_fills() {
    let db = parse(b"[T t:datetime u:datetime]\n2021-01-02T03 2021-01-02T03:04\n").unwrap();
    let t = db.get(b"T").unwrap();
    let a = t.value_at(0, 0).as_ref().unwrap().as_datetime().unwrap();
    assert_eq!((a.hour(), a.minute(), a.second()), (3, 0, 0));
    let b = t.value_at(0, 1).as_ref().unwrap().as_datetime().unwrap();
    assert_eq!((b.hour(), b.minute(), b.second()), (3, 4, 0));
    // the writer always emits full second precision
    let text = db.write(0).unwrap();
    assert_eq!(text, b"[T t:datetime u:datetime]\n2021-01-02T03:00:00 2021-01-02T03:04:00\n".to_vec());
}

#[test]
fn lowercase_hex_reads_uppercase_writes() {
    let db = parse(b"[B x:bytes]\n(dead)\n").unwrap();
    let t = db.get(b"B").unwrap();
    assert_eq!(t.value_at(0, 0).as_ref().unwrap(), &Value::Bytes(vec![0xDE, 0xAD]));
    assert_eq!(db.write(0).unwrap(), b"[B x:bytes]\n(DEAD)\n".to_vec());
}

#[test]
fn string_escapes_round_trip() {
    let db = parse(b"[S s:str]\n<a\\<b\\>c\\\\d>\n").unwrap();
    let t = db.get(b"S").unwrap();
    assert_eq!(t.value_at(0, 0).as_ref().unwrap(), &str_val("a<b>c\\d"));
    assert_eq!(db.write(0).unwrap(), b"[S s:str]\n<a\\<b\\>c\\\\d>\n".to_vec());
}

#[test]
fn error_unknown_type() {
    let e = parse(b"[T a:float]\n").unwrap_err();
    assert_eq!(e.kind, ErrorKind::UnknownType);
    assert_eq!(e.lino, 1);
}

#[test]
fn error_duplicate_field() {
    let e = parse(b"[T a:int a:str]\n").unwrap_err();
    assert_eq!(e.kind, ErrorKind::DuplicateField);
}

#[test]
fn error_malformed_header() {
    assert_eq!(parse(b"[]\n").unwrap_err().kind, ErrorKind::MalformedHeader);
    assert_eq!(parse(b"[T]\n").unwrap_err().kind, ErrorKind::MalformedHeader);
    assert_eq!(parse(b"[T a:int\n").unwrap_err().kind, ErrorKind::MalformedHeader);
}

#[test]
fn error_type_mismatch() {
    let e = parse(b"[T a:int]\nx\n").unwrap_err();
    assert_eq!(e.kind, ErrorKind::TypeMismatch);
    assert_eq!(e.lino, 2);
    let e = parse(b"[T a:bool]\n7\n").unwrap_err();
    assert_eq!(e.kind, ErrorKind::TypeMismatch);
}

#[test]
fn error_out_of_range_number() {
    let e = parse(b"[T a:int]\n99999999999999999999\n").unwrap_err();
    assert_eq!(e.kind, ErrorKind::OutOfRangeNumber);
    let e = parse(b"[T a:real]\n999999999999999999.5\n").unwrap_err();
    assert_eq!(e.kind, ErrorKind::OutOfRangeNumber);
}

#[test]
fn error_out_of_range_date() {
    let e = parse(b"[T a:date]\n2021-02-30\n").unwrap_err();
    assert_eq!(e.kind, ErrorKind::OutOfRangeDate);
    let e = parse(b"[T a:datetime]\n2021-02-28T25:00:00\n").unwrap_err();
    assert_eq!(e.kind, ErrorKind::OutOfRangeDate);
}

#[test]
fn error_invalid_hex() {
    let e = parse(b"[T a:bytes]\n(ABC)\n").unwrap_err();
    assert_eq!(e.kind, ErrorKind::InvalidHex);
    let e = parse(b"[T a:bytes]\n(AG)\n").unwrap_err();
    assert_eq!(e.kind, ErrorKind::InvalidHex);
    let e = parse(b"[T a:bytes]\n(AB\n").unwrap_err();
    assert_eq!(e.kind, ErrorKind::InvalidHex);
}

#[test]
fn error_invalid_escape() {
    let e = parse(b"[T a:str]\n<a\\qb>\n").unwrap_err();
    assert_eq!(e.kind, ErrorKind::InvalidEscape);
}

#[test]
fn error_row_before_header() {
    let e = parse(b"1 2\n").unwrap_err();
    assert_eq!(e.kind, ErrorKind::ExpectedHeader);
    assert_eq!(e.lino, 1);
}

#[test]
fn error_no_sentinel_for_bool() {
    let e = parse(b"[T a:bool]\n!\n").unwrap_err();
    assert_eq!(e.kind, ErrorKind::NoSentinel);
}

#[test]
fn leap_year_dates() {
    assert!(Date::new(2020, 2, 29).is_some());
    assert!(Date::new(2021, 2, 29).is_none());
    assert!(Date::new(2000, 2, 29).is_some());
    assert!(Date::new(1900, 2, 29).is_none());
    let db = parse(b"[T d:date]\n2020-02-29\n").unwrap();
    assert_eq!(
        db.get(b"T").unwrap().value_at(0, 0).as_ref().unwrap(),
        &date_val(2020, 2, 29)
    );
}

#[test]
fn real_tolerance_equality() {
    // one scale unit apart: equal within tolerance
    assert_eq!(real_val(1_000_000_000), real_val(1_000_000_001));
    // two units apart: not equal
    assert_ne!(real_val(1_000_000_000), real_val(1_000_000_002));
    // never equal across kinds
    assert_ne!(real_val(1_000_000_000), Value::Int(1));
}

#[test]
fn real_natural_and_padded_forms() {
    assert_eq!(real_val(3_000_000_000).text(0), b"3".to_vec());
    assert_eq!(real_val(3_500_000_000).text(0), b"3.5".to_vec());
    assert_eq!(real_val(-500_000_000).text(0), b"-0.5".to_vec());
    assert_eq!(real_val(3_500_000_000).text(12), b"3.500000000000".to_vec());
    assert_eq!(real_val(0).text(0), b"0".to_vec());
    assert_eq!(real_val(-4_000_000).text(1), b"0.0".to_vec());
}

#[test]
fn int_extremes_round_trip() {
    let db = parse(b"[T a:int b:int]\n-9223372036854775808 9223372036854775807\n").unwrap();
    let t = db.get(b"T").unwrap();
    assert_eq!(t.value_at(0, 0).as_ref().unwrap().as_int(), Some(i64::MIN));
    assert_eq!(t.value_at(0, 1).as_ref().unwrap().as_int(), Some(i64::MAX));
    let text = db.write(0).unwrap();
    assert_eq!(text, b"[T a:int b:int]\n-9223372036854775808 9223372036854775807\n".to_vec());
}

#[test]
fn empty_table_at_eof_is_legal() {
    let db = parse(b"[T a:int]").unwrap();
    let t = db.get(b"T").unwrap();
    assert_eq!(t.columns(), 1);
    assert_eq!(t.len(), 0);
    assert!(t.is_valid());
}

#[test]
fn empty_input_gives_empty_database() {
    let db = parse(b"").unwrap();
    assert_eq!(db.len(), 0);
    assert_eq!(db.write(0).unwrap(), b"".to_vec());
}

#[test]
fn accessors_and_typename() {
    let v = Value::Bool(true);
    assert!(v.is_bool() && !v.is_int());
    assert_eq!(v.as_bool(), Some(true));
    assert_eq!(v.as_int(), None);
    assert_eq!(v.typename(), b"bool".to_vec());
    assert_eq!(Value::Int(3).typename(), b"int".to_vec());
    assert_eq!(str_val("x").typename(), b"str".to_vec());
    assert_eq!(real_val(0).typename(), b"real".to_vec());
    assert_eq!(date_val(2021, 1, 1).typename(), b"date".to_vec());
    assert_eq!(Value::Bytes(vec![]).typename(), b"bytes".to_vec());
    assert!(str_val("x").as_str().is_some());
    assert!(Value::Bytes(vec![1]).as_bytes().is_some());
}

#[test]
fn bytes_to_tdb_hex_pairs() {
    assert_eq!(tdb::value::bytes_to_tdb(&[0xDE, 0xAD]), b"(DEAD)".to_vec());
    assert_eq!(tdb::value::bytes_to_tdb(&[]), b"()".to_vec());
    assert_eq!(tdb::value::bytes_to_tdb(&[0x00, 0x0F]), b"(000F)".to_vec());
}

#[test]
fn duplicate_field_on_build() {
    let mut t = Table::new();
    t.set_name(b"T".to_vec()).unwrap();
    t.add_field(b"a".to_vec(), FieldType::Int).unwrap();
    let e = t.add_field(b"a".to_vec(), FieldType::Str).unwrap_err();
    assert_eq!(e, ErrorKind::DuplicateField);
}

#[test]
fn duplicate_table_on_build() {
    let mut db = Tdb::new();
    let mut t = Table::new();
    t.set_name(b"T".to_vec()).unwrap();
    t.add_field(b"a".to_vec(), FieldType::Int).unwrap();
    let mut t2 = Table::new();
    t2.set_name(b"T".to_vec()).unwrap();
    t2.add_field(b"b".to_vec(), FieldType::Int).unwrap();
    db.insert(t).unwrap();
    let e = db.insert(t2).unwrap_err();
    assert_eq!(e, ErrorKind::DuplicateTable);
    assert_eq!(db.len(), 1);
}

#[test]
fn type_check_on_append() {
    let mut t = Table::new();
    t.set_name(b"T".to_vec()).unwrap();
    t.add_field(b"a".to_vec(), FieldType::Int).unwrap();
    let e = t.append(vec![Some(str_val("x"))]).unwrap_err();
    assert_eq!(e, ErrorKind::TypeMismatch);
    assert!(t.append(vec![Some(Value::Int(1))]).is_ok());
    assert!(t.append(vec![None]).is_ok());
    assert_eq!(t.len(), 2);
}

#[test]
fn chrono_agrees_on_month_lengths() {
    // the calendar behind Date::new is chrono's
    for (y, m, d, ok) in [
        (2021u16, 4u8, 31u8, false),
        (2021, 4, 30, true),
        (2021, 12, 31, true),
        (2021, 13, 1, false),
        (2021, 0, 1, false),
        (2021, 1, 0, false),
    ] {
        assert_eq!(Date::new(y, m, d).is_some(), ok);
        assert_eq!(
            chrono::NaiveDate::from_ymd_opt(y as i32, m as u32, d as u32).is_some(),
            ok
        );
    }
}

#[test]
fn blank_lines_between_tables() {
    let db = parse(b"\n\n[A x:int]\n1\n\n\n[B y:int]\n2\n\n").unwrap();
    assert_eq!(db.len(), 2);
    assert_eq!(db.write(0).unwrap(), b"[A x:int]\n1\n\n[B y:int]\n2\n".to_vec());
}

#[test]
fn real_precision_clamped_to_fifteen() {
    // a precision beyond the supported maximum is clamped before use
    let v = real_val(1_500_000_000);
    assert_eq!(v.text(50), v.text(15));
    assert_eq!(v.text(15), b"1.500000000000000".to_vec());
}

#[test]
fn real_seventeen_whole_digits_fit() {
    let db = parse(b"[T a:real]\n99999999999999999.25\n").unwrap();
    let t = db.get(b"T").unwrap();
    let r = t.value_at(0, 0).as_ref().unwrap().as_real().unwrap();
    assert_eq!(r.man(), 99_999_999_999_999_999_250_000_000);
}

#[test]
fn real_fraction_beyond_nine_digits_truncates() {
    let db = parse(b"[T a:real]\n0.12345678987\n").unwrap();
    let t = db.get(b"T").unwrap();
    let r = t.value_at(0, 0).as_ref().unwrap().as_real().unwrap();
    assert_eq!(r.man(), 123_456_789);
}

#[test]
fn from_conversions() {
    assert_eq!(Value::from(true), Value::Bool(true));
    assert_eq!(Value::from(7i64), Value::Int(7));
    assert_eq!(Value::from(-3i32), Value::Int(-3));
    assert_eq!(Value::from(vec![1u8, 2]), Value::Bytes(vec![1, 2]));
    let d = Date::new(2021, 5, 6).unwrap();
    assert_eq!(Value::from(d), Value::Date(d));
}

#[test]
fn write_refuses_broken_database() {
    // built around the checked builders: a row too short for its schema
    let broken = Tdb {
        tables: vec![Table {
            name: b"T".to_vec(),
            fields: vec![
                tdb::field::Field { name: b"a".to_vec(), kind: FieldType::Int },
                tdb::field::Field { name: b"b".to_vec(), kind: FieldType::Int },
            ],
            records: vec![vec![Some(Value::Int(1))]],
        }],
    };
    assert_eq!(broken.write(0), Err(tdb::tdb::WriteError::Invalid));
    // a duplicate table name is refused too
    let dup = Tdb {
        tables: vec![
            Table {
                name: b"T".to_vec(),
                fields: vec![tdb::field::Field { name: b"a".to_vec(), kind: FieldType::Int }],
                records: vec![],
            },
            Table {
                name: b"T".to_vec(),
                fields: vec![tdb::field::Field { name: b"a".to_vec(), kind: FieldType::Int }],
                records: vec![],
            },
        ],
    };
    assert_eq!(dup.write(0), Err(tdb::tdb::WriteError::Invalid));
}
