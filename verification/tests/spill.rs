//! Rows that leave memory.
use nusadb_sql::error::Error;
use nusadb_sql::memory::row_bytes;
use nusadb_sql::spill::budget::MemBudget;
use nusadb_sql::spill::codec::{decode_row, encode_row, read_value, write_value, Cursor};
use nusadb_sql::spill::context::{set_spill_config, spill_config, SpillConfig, SpillSettings};
use nusadb_sql::spill::file::{read_row, write_row};
use nusadb_sql::value::{Decimal, Interval, Row, Value};

fn row(int_cols: usize) -> Vec<Value> {
    (0..int_cols).map(|i| Value::Int(i64::try_from(i).unwrap_or_default())).collect()
}

#[test]
fn no_written_row_begins_another() {
    let rows: Vec<Row> = vec![
        vec![Value::Null],
        vec![Value::Int(0)],
        vec![Value::Text(String::new())],
        vec![Value::Text("a".to_owned())],
        vec![Value::Array(vec![])],
        vec![Value::Array(vec![Value::Null])],
    ];
    for (i, a) in rows.iter().enumerate() {
        for (j, b) in rows.iter().enumerate() {
            let (a, b) = (encode_row(a).unwrap(), encode_row(b).unwrap());
            assert_eq!(b.starts_with(&a), i == j);
        }
    }
}

#[test]
fn admits_until_the_limit_then_refuses() {
    let one = row_bytes(&row(1));
    let mut budget = MemBudget::new(one * 2);
    assert!(budget.try_admit(&row(1)), "first row fits");
    assert!(budget.try_admit(&row(1)), "second row fits exactly");
    assert!(!budget.try_admit(&row(1)), "third row overflows");
    assert_eq!(budget.used(), one * 2, "the refused row is not accounted");
}

#[test]
fn a_single_oversized_row_is_admitted_into_an_empty_budget() {
    let mut budget = MemBudget::new(1);
    assert!(
        budget.try_admit(&row(4)),
        "an empty budget must admit one row even if it alone exceeds the limit"
    );
    assert!(!budget.try_admit(&row(1)), "but then the next row overflows");
}

#[test]
fn reset_clears_the_accounting() {
    let mut budget = MemBudget::new(row_bytes(&row(1)) * 2);
    assert!(budget.try_admit(&row(1)));
    budget.reset();
    assert_eq!(budget.used(), 0);
    assert!(budget.try_admit(&row(1)));
    assert!(budget.try_admit(&row(1)));
}

#[test]
fn zero_limit_admits_everything() {
    let mut budget = MemBudget::new(0);
    for _ in 0..1000 {
        assert!(budget.try_admit(&row(8)), "limit 0 never refuses");
    }
}

fn all_variants_row() -> Vec<Value> {
    vec![
        Value::Null,
        Value::Bool(true),
        Value::Bool(false),
        Value::Int(-9_223_372_036_854_775_808),
        Value::Float((-0.5f64).to_bits()),
        Value::Text("héllo 🦀".to_owned()),
        Value::Text(String::new()),
        Value::Date(-19_000),
        Value::Time(86_399_999_999),
        Value::Timestamp(1_700_000_000_000_000),
        Value::TimestampTz(-42),
        Value::TimeTz(0),
        Value::Uuid([0, 1, 2, 3, 4, 5, 6, 7, 8, 9, 10, 11, 12, 13, 14, 255]),
        Value::Numeric(Decimal { mantissa: -123_456_789_012_345_678_901_234, scale: 12 }),
        Value::Json("{\"a\":1}".to_owned()),
        Value::Interval(Interval { months: -13, days: 40, micros: -1 }),
        Value::Array(vec![
            Value::Int(1),
            Value::Null,
            Value::Array(vec![Value::Text("nested".to_owned())]),
        ]),
        Value::Vector(vec![]),
        Value::Vector(vec![
            1.5f32.to_bits(),
            (-0.0f32).to_bits(),
            f32::INFINITY.to_bits(),
            3.25f32.to_bits(),
        ]),
    ]
}

#[test]
fn every_value_variant_round_trips() {
    let row = all_variants_row();
    let decoded = decode_row(&encode_row(&row).expect("encode")).expect("round-trips");
    assert_eq!(decoded, row);
}

#[test]
fn empty_row_round_trips() {
    let decoded = decode_row(&encode_row(&[]).expect("encode")).expect("round-trips");
    assert!(decoded.is_empty());
}

#[test]
fn truncated_bytes_error_instead_of_panicking() {
    let bytes = encode_row(&all_variants_row()).expect("encode");
    for cut in 0..bytes.len() {
        let _ = decode_row(&bytes[..cut]);
    }
    assert!(matches!(decode_row(&[0xFF]), Err(Error::MalformedTuple { .. })));
}

#[test]
fn every_proper_prefix_of_a_row_is_refused() {
    let bytes = encode_row(&all_variants_row()).expect("encode");
    for cut in 0..bytes.len() {
        assert!(matches!(decode_row(&bytes[..cut]), Err(Error::MalformedTuple { .. })));
    }
}

#[test]
fn unknown_tag_is_rejected() {
    let mut bytes = 1u32.to_le_bytes().to_vec();
    bytes.push(200);
    assert!(matches!(decode_row(&bytes), Err(Error::MalformedTuple { .. })));
}

#[test]
fn a_spilled_row_has_its_documented_bytes() {
    let bytes = encode_row(&[Value::Null, Value::Bool(true), Value::Int(1)]).unwrap();
    assert_eq!(bytes, vec![3, 0, 0, 0, 0, 1, 1, 2, 1, 0, 0, 0, 0, 0, 0, 0]);
}

#[test]
fn set_and_clear_round_trips() {
    let mut settings = SpillSettings::new();
    assert!(spill_config(&settings).is_none(), "default is disabled");
    set_spill_config(
        &mut settings,
        Some(SpillConfig { dir: "scratch".to_owned(), threshold_bytes: 4096 }),
    );
    let got = spill_config(&settings).expect("just set");
    assert_eq!(got.dir, "scratch");
    assert_eq!(got.threshold_bytes, 4096);
    set_spill_config(&mut settings, None);
    assert!(spill_config(&settings).is_none(), "cleared");
}

fn sample_rows() -> Vec<Row> {
    vec![
        vec![Value::Int(1), Value::Text("a".to_owned())],
        vec![Value::Null, Value::Bool(true)],
        vec![Value::Array(vec![Value::Int(7)]), Value::Float(2.5f64.to_bits())],
    ]
}

fn read_all(run: &[u8]) -> Result<Vec<Row>, Error> {
    let mut rows: Vec<Row> = Vec::new();
    let mut pos = 0;
    while let Some((row, end)) = read_row(run, pos)? {
        rows.push(row);
        pos = end;
    }
    Ok(rows)
}

#[test]
fn write_then_read_round_trips_and_cleans_up() {
    let rows = sample_rows();
    let mut run: Vec<u8> = Vec::new();
    for row in &rows {
        write_row(&mut run, row).expect("write");
    }
    assert_eq!(read_all(&run).expect("read"), rows);
}

#[test]
fn empty_file_reads_as_no_rows() {
    assert!(read_row(&[], 0).expect("read").is_none());
}

#[test]
fn a_record_that_is_cut_short_is_refused() {
    let mut run: Vec<u8> = Vec::new();
    write_row(&mut run, &sample_rows()[0]).expect("write");
    assert_eq!(read_all(&run[..run.len() - 1]), Err(Error::TruncatedRecord));
}

#[test]
fn a_written_value_is_read_back_where_it_stands() {
    for value in all_variants_row() {
        let mut bytes: Vec<u8> = vec![7, 7, 7];
        write_value(&mut bytes, &value).expect("write");
        let end = bytes.len();
        bytes.push(7);
        let mut cursor = Cursor { bytes: &bytes, pos: 3 };
        assert_eq!(read_value(&mut cursor).expect("read"), value);
        assert_eq!(cursor.pos, end);
        let mut cursor = Cursor { bytes: &bytes[..end - 1], pos: 3 };
        assert!(matches!(read_value(&mut cursor), Err(Error::MalformedTuple { .. })));
    }
}
