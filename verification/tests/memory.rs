//! Work memory and session settings.
use nusadb_sql::error::{Error, Stage};
use nusadb_sql::memory::{
    effective_work_mem, enforce_work_mem, maintenance_work_mem, parse_work_mem, row_bytes,
    set_maintenance_work_mem, set_work_mem, work_mem, MemorySettings,
};
use nusadb_sql::session::check_settable_parameter;
use nusadb_sql::value::Value;

#[test]
fn parse_work_mem_follows_pg_units() {
    for (input, expect) in [
        ("4MB", Some(4 * 1024 * 1024)),
        ("512kB", Some(512 * 1024)),
        ("512KB", Some(512 * 1024)),
        ("1GB", Some(1024 * 1024 * 1024)),
        ("1TB", Some(1024_usize * 1024 * 1024 * 1024)),
        ("4096", Some(4096 * 1024)),
        (" 4 MB ", Some(4 * 1024 * 1024)),
        ("0", Some(0)),
        ("abc", None),
        ("4XB", None),
        ("-1", None),
        ("1.5MB", None),
        ("", None),
        ("999999999999999999TB", None),
    ] {
        assert_eq!(parse_work_mem(input), expect, "parse_work_mem({input:?})");
    }
}

#[test]
fn set_work_mem_governs_the_statement_budget() {
    let wide = vec![vec![
        Value::Int(1),
        Value::Text("x".repeat(4096)),
        Value::Int(1),
        Value::Float(1.0f64.to_bits()),
        Value::Bool(true),
    ]];
    let settings = MemorySettings::new();
    let budget = effective_work_mem(Some("1kB"), &settings);
    assert_eq!(budget, 1024);
    match enforce_work_mem(budget, &wide) {
        Err(Error::OutOfMemory { budget: 1024, used, stage: Stage::Materialized }) => {
            assert!(used > 1024);
            assert_eq!(used, row_bytes(&wide[0]));
        }
        other => panic!("a 1kB session budget must trip on a 4kB row: {other:?}"),
    }
    // Without a session setting the process default rules, which is unlimited.
    let budget = effective_work_mem(None, &settings);
    assert_eq!(enforce_work_mem(budget, &wide), Ok(()));
}

#[test]
fn settings_are_read_back() {
    let mut settings = MemorySettings::new();
    assert_eq!(work_mem(&settings), 0);
    assert_eq!(maintenance_work_mem(&settings), 64 * 1024 * 1024);
    set_work_mem(&mut settings, 4096);
    set_maintenance_work_mem(&mut settings, 8192);
    assert_eq!(work_mem(&settings), 4096);
    assert_eq!(maintenance_work_mem(&settings), 8192);
    assert_eq!(effective_work_mem(None, &settings), 4096);
    assert_eq!(effective_work_mem(Some("nonsense"), &settings), 4096);
}

#[test]
fn parameters_are_known_fixed_or_unknown() {
    assert_eq!(check_settable_parameter("work_mem"), Ok(()));
    assert_eq!(
        check_settable_parameter("server_version"),
        Err(Error::UnchangeableParameter("server_version".to_owned()))
    );
    assert_eq!(
        check_settable_parameter("no_such_parameter"),
        Err(Error::UnknownParameter("no_such_parameter".to_owned()))
    );
    assert_eq!(check_settable_parameter("my_app.setting"), Ok(()));
}
