//! Stored tuples.
use nusadb_sql::array_text::parse_array_text;
use nusadb_sql::error::Error;
use nusadb_sql::row::{array_elem_checked, decode, decode_projected, encode, Conversion, Encoding, Outcome};
use nusadb_sql::types::{ArrayElem, ColumnType};
use nusadb_sql::value::{Decimal, Interval, Value};

const MAX_SCALE: u8 = 38;

fn float(x: f64) -> Value {
    Value::Float(x.to_bits())
}

fn text(s: &str) -> Value {
    Value::Text(s.to_owned())
}

/// A decimal as it is written, such as `19.90`.
fn decimal(s: &str) -> Option<Decimal> {
    let (whole, fraction) = match s.split_once('.') {
        Some((w, f)) => (w, f),
        None => (s, ""),
    };
    let digits = format!("{whole}{fraction}");
    let mantissa: i128 = digits.parse().ok()?;
    Some(Decimal { mantissa, scale: fraction.len() as u8 })
}

/// The days from 1970-01-01 to a date written as `YYYY-MM-DD`.
fn date(s: &str) -> Option<i32> {
    let parts: Vec<&str> = s.split('-').collect();
    if parts.len() != 3 {
        return None;
    }
    let y: i64 = parts[0].parse().ok()?;
    let m: i64 = parts[1].parse().ok()?;
    let d: i64 = parts[2].parse().ok()?;
    let (y, m) = if m <= 2 { (y - 1, m + 9) } else { (y, m - 3) };
    let days = 365 * y + y / 4 - y / 100 + y / 400 + (153 * m + 2) / 5 + d - 1 - 719_468;
    i32::try_from(days).ok()
}

/// An interval such as `1 day 02:00:00`.
fn interval(s: &str) -> Option<Interval> {
    let words: Vec<&str> = s.split(' ').collect();
    if words.len() != 3 || words[1] != "day" {
        return None;
    }
    let days: i32 = words[0].parse().ok()?;
    let clock: Vec<i64> = words[2].split(':').filter_map(|p| p.parse().ok()).collect();
    if clock.len() != 3 {
        return None;
    }
    let micros = ((clock[0] * 60 + clock[1]) * 60 + clock[2]) * 1_000_000;
    Some(Interval { months: 0, days, micros })
}

/// A flat JSON object of integers, with its keys in order and no blanks.
fn json(s: &str) -> Option<String> {
    let inner = s.trim().strip_prefix('{')?.strip_suffix('}')?;
    let mut fields: Vec<(String, String)> = Vec::new();
    for field in inner.split(',') {
        let (k, v) = field.split_once(':')?;
        fields.push((k.trim().to_owned(), v.trim().to_owned()));
    }
    fields.sort();
    let body: Vec<String> = fields.iter().map(|(k, v)| format!("{k}:{v}")).collect();
    Some(format!("{{{}}}", body.join(",")))
}

fn or_refused(v: Option<Value>) -> Outcome {
    match v {
        Some(v) => Outcome::Value(v),
        None => Outcome::Refused,
    }
}

/// Make a conversion.
fn convert(c: &Conversion) -> Outcome {
    match (&c.value, c.ty) {
        (Value::Int(i), ColumnType::Float) => Outcome::Value(float(*i as f64)),
        (Value::Text(s), ColumnType::Date) => or_refused(date(s).map(Value::Date)),
        (Value::Text(s), ColumnType::Json) => or_refused(json(s).map(Value::Json)),
        (Value::Text(s), ColumnType::Interval) => or_refused(interval(s).map(Value::Interval)),
        (Value::Text(s), ColumnType::Numeric { .. }) => or_refused(decimal(s).map(Value::Numeric)),
        (Value::Text(s), ColumnType::Array(ArrayElem::Int)) => {
            let items = parse_array_text(s).map(|items| {
                items
                    .into_iter()
                    .map(|v| match v {
                        Value::Text(t) => Value::Int(t.parse().unwrap()),
                        other => other,
                    })
                    .collect()
            });
            or_refused(items.map(Value::Array))
        }
        (Value::Numeric(d), ColumnType::Numeric { scale, .. }) => {
            let mut d = *d;
            while d.scale < scale {
                d.mantissa *= 10;
                d.scale += 1;
            }
            Outcome::Rescaled { value: d, digits: d.mantissa.unsigned_abs().to_string().len() as u32 }
        }
        _ => Outcome::Refused,
    }
}

/// Encode, making the conversions as they are asked for.
fn store(row: &[Value], schema: &[ColumnType]) -> Result<Vec<u8>, Error> {
    let mut outcomes: Vec<Outcome> = Vec::new();
    loop {
        match encode(row, schema, &outcomes)? {
            Encoding::Complete(bytes) => return Ok(bytes),
            Encoding::Needs(c) => outcomes.push(convert(&c)),
        }
    }
}

fn schema() -> Vec<ColumnType> {
    vec![ColumnType::Int, ColumnType::Text, ColumnType::Bool, ColumnType::Float]
}

#[test]
fn a_decimal_at_the_scale_of_its_column_is_read_back() {
    let price = Value::Numeric(Decimal { mantissa: 1250, scale: 2 });
    let schema = vec![ColumnType::Numeric { precision: 6, scale: 2 }, ColumnType::Int];
    let row = vec![price, Value::Int(3)];
    let bytes = store(&row, &schema).unwrap();
    assert_eq!(decode(&bytes, &schema), Ok(row));
    // One with more digits than the precision is refused.
    let long = vec![Value::Numeric(Decimal { mantissa: 1_234_567, scale: 2 }), Value::Int(3)];
    assert!(matches!(store(&long, &schema), Err(Error::InvalidValue { .. })));
}

#[test]
fn array_elem_checked_requires_homogeneous_elements() {
    assert_eq!(
        array_elem_checked(&[Value::Int(1), Value::Null, Value::Int(2)]).unwrap(),
        ArrayElem::Int
    );
    assert_eq!(array_elem_checked(&[text("a")]).unwrap(), ArrayElem::Text);
    assert_eq!(array_elem_checked(&[]).unwrap(), ArrayElem::Int);
    assert_eq!(array_elem_checked(&[Value::Null]).unwrap(), ArrayElem::Int);
    assert!(matches!(
        array_elem_checked(&[Value::Int(1), text("a")]),
        Err(Error::TypeMismatch { .. })
    ));
}

#[test]
fn roundtrip_full_row() {
    let row = vec![Value::Int(42), text("hello"), Value::Bool(true), float(3.5)];
    let bytes = store(&row, &schema()).unwrap();
    let back = decode(&bytes, &schema()).unwrap();
    assert_eq!(back, row);
}

#[test]
fn roundtrip_with_nulls() {
    let row = vec![Value::Int(1), Value::Null, Value::Null, float(0.0)];
    let bytes = store(&row, &schema()).unwrap();
    let back = decode(&bytes, &schema()).unwrap();
    assert_eq!(back, row);
}

#[test]
fn decode_rejects_numeric_scale_past_max() {
    let ty = ColumnType::Numeric { precision: 0, scale: 0 };
    let mut bad = vec![1u8];
    bad.extend_from_slice(&0i128.to_le_bytes());
    bad.push(MAX_SCALE + 1);
    assert!(matches!(decode(&bad, &[ty]), Err(Error::MalformedTuple { .. })));
    let mut ok = vec![1u8];
    ok.extend_from_slice(&123i128.to_le_bytes());
    ok.push(MAX_SCALE);
    assert!(decode(&ok, &[ty]).is_ok());
}

#[test]
fn int_widens_into_float_column() {
    let row = vec![Value::Int(7)];
    let bytes = store(&row, &[ColumnType::Float]).unwrap();
    let back = decode(&bytes, &[ColumnType::Float]).unwrap();
    assert_eq!(back, vec![float(7.0)]);
}

#[test]
fn arity_mismatch_is_rejected() {
    assert!(matches!(store(&[Value::Int(1)], &schema()), Err(Error::ArityMismatch { .. })));
}

#[test]
fn arity_mismatch_names_both_lengths() {
    assert_eq!(
        encode(&[Value::Int(1)], &schema(), &[]),
        Err(Error::ArityMismatch { context: "tuple encode", expected: 4, found: 1 })
    );
}

#[test]
fn type_mismatch_is_rejected() {
    let result = store(&[text("x")], &[ColumnType::Bool]);
    assert!(matches!(result, Err(Error::TypeMismatch { .. })));
}

#[test]
fn truncated_tuple_is_malformed() {
    let bytes = store(&[Value::Int(99)], &[ColumnType::Int]).unwrap();
    let result = decode(&bytes[..bytes.len() - 1], &[ColumnType::Int]);
    assert!(matches!(result, Err(Error::MalformedTuple { .. })));
}

#[test]
fn roundtrip_temporal_and_uuid() {
    let schema = vec![
        ColumnType::Date,
        ColumnType::Time,
        ColumnType::Timestamp,
        ColumnType::TimestampTz,
        ColumnType::Uuid,
    ];
    let row = vec![
        Value::Date(19737),
        Value::Time(34_200_000_000),
        Value::Timestamp(1_705_311_000_000_000),
        Value::TimestampTz(-1),
        Value::Uuid([
            0x55, 0x0e, 0x84, 0x00, 0xe2, 0x9b, 0x41, 0xd4, 0xa7, 0x16, 0x44, 0x66, 0x55, 0x44, 0x00,
            0x00,
        ]),
    ];
    let bytes = store(&row, &schema).unwrap();
    assert_eq!(decode(&bytes, &schema).unwrap(), row);
}

#[test]
fn text_coerces_into_a_temporal_column_on_encode() {
    let bytes = store(&[text("2024-01-15")], &[ColumnType::Date]).unwrap();
    assert_eq!(decode(&bytes, &[ColumnType::Date]).unwrap(), vec![Value::Date(19737)]);
}

#[test]
fn invalid_temporal_string_is_rejected() {
    let result = store(&[text("nope")], &[ColumnType::Date]);
    assert!(matches!(result, Err(Error::InvalidValue { .. })));
}

#[test]
fn roundtrip_numeric_rescales_to_declared_scale() {
    let schema = vec![ColumnType::Numeric { precision: 10, scale: 2 }];
    let bytes = store(&[text("19.9")], &schema).unwrap();
    assert_eq!(
        decode(&bytes, &schema).unwrap(),
        vec![Value::Numeric(decimal("19.90").unwrap())]
    );
    let bytes = store(&[Value::Numeric(decimal("123.45").unwrap())], &schema).unwrap();
    assert_eq!(
        decode(&bytes, &schema).unwrap(),
        vec![Value::Numeric(decimal("123.45").unwrap())]
    );
}

#[test]
fn roundtrip_json_canonicalizes() {
    let schema = vec![ColumnType::Json];
    let bytes = store(&[text(r#"{ "b":2, "a":1 }"#)], &schema).unwrap();
    assert_eq!(
        decode(&bytes, &schema).unwrap(),
        vec![Value::Json(r#"{"a":1,"b":2}"#.to_owned())]
    );
}

#[test]
fn invalid_json_is_rejected() {
    let result = store(&[text("not json")], &[ColumnType::Json]);
    assert!(matches!(result, Err(Error::InvalidValue { .. })));
}

#[test]
fn roundtrip_interval_from_text_literal() {
    let schema = vec![ColumnType::Interval];
    let bytes = store(&[text("1 day 02:00:00")], &schema).unwrap();
    assert_eq!(
        decode(&bytes, &schema).unwrap(),
        vec![Value::Interval(interval("1 day 02:00:00").unwrap())]
    );
}

#[test]
fn roundtrip_array_from_text_literal() {
    let schema = vec![ColumnType::Array(ArrayElem::Int)];
    let bytes = store(&[text("{1,2,3}")], &schema).unwrap();
    assert_eq!(
        decode(&bytes, &schema).unwrap(),
        vec![Value::Array(vec![Value::Int(1), Value::Int(2), Value::Int(3)])]
    );
    let bytes = store(&[text("{}")], &schema).unwrap();
    assert_eq!(decode(&bytes, &schema).unwrap(), vec![Value::Array(vec![])]);
}

#[test]
fn numeric_precision_overflow_is_rejected() {
    let schema = vec![ColumnType::Numeric { precision: 4, scale: 2 }];
    let result = store(&[text("123.45")], &schema);
    assert!(matches!(result, Err(Error::InvalidValue { .. })));
}

#[test]
fn bad_utf8_text_is_malformed() {
    let mut bytes = vec![1u8];
    bytes.extend_from_slice(&3u32.to_le_bytes());
    bytes.extend_from_slice(&[0xff, 0xfe, 0xfd]);
    let result = decode(&bytes, &[ColumnType::Text]);
    assert!(matches!(result, Err(Error::MalformedTuple { .. })));
}

#[test]
fn decode_projected_skips_dropped_blobs_without_offset_drift() {
    let schema = vec![
        ColumnType::Text,
        ColumnType::Int,
        ColumnType::Bytes,
        ColumnType::Text,
        ColumnType::Bool,
        ColumnType::Text,
        ColumnType::Float,
    ];
    let full = vec![
        text("héllo→"),
        Value::Int(42),
        Value::Bytes(vec![0x00, 0xff, 0x07, 0x41]),
        Value::Null,
        Value::Bool(true),
        Value::Text(String::new()),
        float(3.5),
    ];
    let bytes = store(&full, &schema).unwrap();
    assert_eq!(decode_projected(&bytes, &schema, &[0, 1, 2, 3, 4, 5, 6]).unwrap(), full);
    assert_eq!(decode(&bytes, &schema).unwrap(), full);
    assert_eq!(
        decode_projected(&bytes, &schema, &[1, 4, 6]).unwrap(),
        vec![Value::Int(42), Value::Bool(true), float(3.5)]
    );
    assert_eq!(
        decode_projected(&bytes, &schema, &[2, 6]).unwrap(),
        vec![Value::Bytes(vec![0x00, 0xff, 0x07, 0x41]), float(3.5)]
    );
    assert_eq!(decode_projected(&bytes, &schema, &[]).unwrap(), Vec::<Value>::new());
}

#[test]
fn decode_projected_skip_still_catches_a_malformed_dropped_blob() {
    let mut bytes = vec![1u8];
    bytes.extend_from_slice(&3u32.to_le_bytes());
    bytes.extend_from_slice(&[0xff, 0xfe, 0xfd]);
    bytes.push(1u8);
    bytes.extend_from_slice(&7i64.to_le_bytes());
    let schema = [ColumnType::Text, ColumnType::Int];
    assert!(matches!(
        decode_projected(&bytes, &schema, &[1]),
        Err(Error::MalformedTuple { .. })
    ));
}

#[test]
fn a_tuple_has_its_documented_bytes() {
    let bytes = store(&[Value::Int(258), Value::Null, text("ab")], &[
        ColumnType::Int,
        ColumnType::Bool,
        ColumnType::Text,
    ])
    .unwrap();
    assert_eq!(bytes, vec![1, 2, 1, 0, 0, 0, 0, 0, 0, 0, 1, 2, 0, 0, 0, b'a', b'b']);
}

#[test]
fn blanks_at_the_end_of_a_char_value_are_not_stored() {
    let schema = [ColumnType::Char(5)];
    let bytes = store(&[text("ab   ")], &schema).unwrap();
    assert_eq!(decode(&bytes, &schema).unwrap(), vec![text("ab")]);
}

#[test]
fn a_vector_of_another_length_is_refused() {
    let v = Value::Vector(vec![1.0f32.to_bits(), 2.0f32.to_bits()]);
    assert!(matches!(
        store(&[v], &[ColumnType::Vector(3)]),
        Err(Error::InvalidValue { ty: ColumnType::Vector(3), .. })
    ));
}

#[test]
fn an_outcome_of_the_wrong_kind_is_refused() {
    assert_eq!(
        encode(&[text("2024-01-15")], &[ColumnType::Date], &[Outcome::Value(Value::Bool(true))]),
        Err(Error::UnexpectedOutcome)
    );
}
