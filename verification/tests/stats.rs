//! Column statistics.
use nusadb_sql::order::{value_compare, Order};
use nusadb_sql::row;
use nusadb_sql::row::Outcome;
use nusadb_sql::stats::column::{column_stats, ColumnStats, Gathering};
use nusadb_sql::stats::common::SpaceSaving;
use nusadb_sql::stats::Hll;
use nusadb_sql::types::ColumnType;
use nusadb_sql::value::Value;

fn ints(xs: &[i64]) -> Vec<Value> {
    xs.iter().map(|&x| Value::Int(x)).collect()
}

/// The number of different keys that a sketch stands for.
fn estimate(hll: &Hll) -> u64 {
    let m = hll.registers().len() as f64;
    let sum: f64 = hll.registers().iter().map(|&r| 2.0_f64.powi(-i32::from(r))).sum();
    let zeros = hll.zeros();
    let alpha = 0.7213 / (1.0 + 1.079 / m);
    let raw = alpha * m * m / sum;
    let estimate = if raw <= 2.5 * m && zeros > 0 {
        m * (m / f64::from(zeros)).ln()
    } else {
        raw
    };
    estimate.round().max(0.0) as u64
}

fn stats_of(values: &Vec<Value>, ty: ColumnType) -> ColumnStats {
    match column_stats("c".to_owned(), values, ty, &Vec::new()) {
        Ok(Gathering::Complete(s)) => s,
        other => panic!("{other:?}"),
    }
}

#[test]
fn hll_estimate_is_accurate_vs_exact() {
    let mut hll = Hll::new();
    let exact = 5000_u64;
    for i in 0..exact {
        hll.add(&i.to_le_bytes());
    }
    let est = estimate(&hll);
    let err = (est as f64 - exact as f64).abs() / exact as f64;
    assert!(err < 0.05, "HLL error {err} too high (est={est}, exact={exact})");
}

#[test]
fn hll_is_deterministic() {
    let build = || {
        let mut h = Hll::new();
        for i in 0..1000_u64 {
            h.add(&i.to_le_bytes());
        }
        estimate(&h)
    };
    assert_eq!(build(), build());
}

#[test]
fn hll_small_cardinality_is_near_exact() {
    let mut hll = Hll::new();
    for i in 0..10_u64 {
        hll.add(&i.to_le_bytes());
    }
    assert_eq!(estimate(&hll), 10);
}

#[test]
fn a_sketch_does_not_depend_on_order_or_repetition() {
    let mut a = Hll::new();
    for i in 0..100_u64 {
        a.add(&i.to_le_bytes());
    }
    let mut b = Hll::new();
    for i in (0..100_u64).rev() {
        b.add(&i.to_le_bytes());
        b.add(&i.to_le_bytes());
    }
    assert_eq!(a, b);
}

#[test]
fn space_saving_keeps_heavy_hitters_exact() {
    let mut ss = SpaceSaving::new(8);
    for _ in 0..100 {
        ss.offer(b"a".to_vec());
    }
    for i in 0..50_u32 {
        ss.offer(i.to_le_bytes().to_vec());
    }
    let top = ss.top_k(4);
    assert_eq!(top.first().map(|(k, c)| (k.clone(), *c)), Some((b"a".to_vec(), 100)));
}

#[test]
fn the_lightest_counter_is_taken_over() {
    let mut ss = SpaceSaving::new(2);
    for k in [b"x", b"x", b"x", b"y", b"z"] {
        ss.offer(k.to_vec());
    }
    // `z` takes over the counter of `y`, one higher.
    assert_eq!(ss.top_k(8), vec![(b"x".to_vec(), 3), (b"z".to_vec(), 2)]);
}

#[test]
fn counts_exceed_by_no_more_than_a_share() {
    // Twelve keys for three counters: no count is more than four too high.
    let keys = b"aaabcadaebfa";
    let mut ss = SpaceSaving::new(3);
    for k in keys {
        ss.offer(vec![*k]);
    }
    let top = ss.top_k(3);
    for (key, count) in &top {
        let offered = keys.iter().filter(|k| **k == key[0]).count() as u64;
        assert!(offered <= *count && *count <= offered + 4, "{key:?} {count}");
    }
    // `a` was offered more than four times.
    assert!(top.iter().any(|(k, _)| k == b"a"));
}

#[test]
fn keys_counted_once_are_not_common_and_ties_go_by_key() {
    let mut ss = SpaceSaving::new(8);
    for k in [b"b", b"b", b"a", b"a", b"c"] {
        ss.offer(k.to_vec());
    }
    assert_eq!(ss.top_k(8), vec![(b"a".to_vec(), 2), (b"b".to_vec(), 2)]);
    assert_eq!(ss.top_k(1), vec![(b"a".to_vec(), 2)]);
}

#[test]
fn column_stats_counts_nulls_and_ndv() {
    let mut values = ints(&[1, 2, 2, 3, 3, 3]);
    values.push(Value::Null);
    values.push(Value::Null);
    let stats = stats_of(&values, ColumnType::Int);
    assert_eq!(stats.null_count, 2);
    assert_eq!(estimate(&stats.distinct), 3);
}

#[test]
fn column_stats_min_max_roundtrip() {
    let values = ints(&[7, 3, 9, 1, 5]);
    let stats = stats_of(&values, ColumnType::Int);
    let min = row::decode(&stats.min.unwrap(), &[ColumnType::Int]).unwrap();
    let max = row::decode(&stats.max.unwrap(), &[ColumnType::Int]).unwrap();
    assert_eq!(min, vec![Value::Int(1)]);
    assert_eq!(max, vec![Value::Int(9)]);
}

#[test]
fn column_stats_histogram_is_ascending_and_decodable() {
    let values = ints(&(0..1000).collect::<Vec<_>>());
    let stats = stats_of(&values, ColumnType::Int);
    assert!(stats.histogram.len() >= 2);
    let decoded: Vec<i64> = stats
        .histogram
        .iter()
        .map(|b| match row::decode(b, &[ColumnType::Int]).unwrap().remove(0) {
            Value::Int(i) => i,
            other => panic!("expected Int, got {other:?}"),
        })
        .collect();
    assert!(decoded.windows(2).all(|w| w[0] <= w[1]), "not ascending: {decoded:?}");
    assert_eq!(decoded.first(), Some(&0));
    assert_eq!(decoded.last(), Some(&999));
    assert_eq!(decoded.len(), 65);
}

#[test]
fn column_stats_is_deterministic() {
    let values = ints(&[5, 1, 5, 9, 1, 5, 3]);
    let a = stats_of(&values, ColumnType::Int);
    let b = stats_of(&values, ColumnType::Int);
    assert_eq!(a, b);
}

#[test]
fn column_stats_lists_the_common_values() {
    let values = ints(&[5, 1, 5, 9, 1, 5, 3]);
    let stats = stats_of(&values, ColumnType::Int);
    let common: Vec<(Value, u64)> = stats
        .most_common
        .iter()
        .map(|(b, n)| (row::decode(b, &[ColumnType::Int]).unwrap().remove(0), *n))
        .collect();
    assert_eq!(common, vec![(Value::Int(5), 3), (Value::Int(1), 2)]);
}

#[test]
fn all_null_column_has_no_min_max() {
    let values = vec![Value::Null, Value::Null];
    let stats = stats_of(&values, ColumnType::Int);
    assert_eq!(stats.null_count, 2);
    assert_eq!(estimate(&stats.distinct), 0);
    assert!(stats.min.is_none() && stats.max.is_none());
    assert!(stats.histogram.is_empty());
}

#[test]
fn statistics_ask_for_the_conversions_they_need() {
    let values = vec![Value::Null, Value::Int(2)];
    let place = match column_stats("c".to_owned(), &values, ColumnType::Float, &Vec::new()) {
        Ok(Gathering::Needs { place, conversion }) => {
            assert_eq!(conversion.value, Value::Int(2));
            place
        }
        other => panic!("{other:?}"),
    };
    assert_eq!(place, 1);
    let answers = vec![vec![], vec![Outcome::Value(Value::Float(2.0f64.to_bits()))]];
    match column_stats("c".to_owned(), &values, ColumnType::Float, &answers) {
        Ok(Gathering::Complete(s)) => {
            let max = row::decode(&s.max.unwrap(), &[ColumnType::Float]).unwrap();
            assert_eq!(max, vec![Value::Float(2.0f64.to_bits())]);
        }
        other => panic!("{other:?}"),
    }
}

#[test]
fn value_cmp_orders_within_type() {
    assert_eq!(value_compare(&Value::Int(1), &Value::Int(2)), Order::Less);
    assert_eq!(
        value_compare(&Value::Text("a".into()), &Value::Text("b".into())),
        Order::Less
    );
}
