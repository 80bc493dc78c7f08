//! The `information_schema` views, and the session they are seen by.
use nusadb_sql::catalog::sequences::SequenceDef;
use nusadb_sql::info_schema::{
    char_max_length, info_schema_applicable_roles, info_schema_check_constraints, info_schema_columns,
    info_schema_data_type, info_schema_enabled_roles, info_schema_key_column_usage,
    info_schema_referential_constraints, info_schema_routines, info_schema_schemata, info_schema_sequences,
    info_schema_statistics, info_schema_table_constraints, info_schema_table_privileges, info_schema_tables,
    info_schema_views, numeric_precision, numeric_scale, ColumnDefault, ColumnInfo, ConstraintInfo,
    ConstraintKind, FkAction, ForeignKeyInfo, FunctionInfo, GrantInfo, IndexInfo, MembershipInfo,
    ProcedureInfo, TableInfo, TableName, VectorIndexInfo,
};
use nusadb_sql::names::NameMap;
use nusadb_sql::session::{
    builtin_guc_static_default, current_database, current_schema, current_temp_schema, current_user,
    set_session_context, set_session_user, set_session_user_with_settings, setting, SessionState,
};
use nusadb_sql::types::{CatalogType, ColumnType};
use nusadb_sql::value::{Row, Value};

fn text(s: &str) -> Value {
    Value::Text(s.to_owned())
}

fn texts(xs: &[&str]) -> Row {
    xs.iter().map(|s| text(s)).collect()
}

fn strings(xs: &[&str]) -> Vec<String> {
    xs.iter().map(|s| (*s).to_owned()).collect()
}

fn constraint(name: &str, kind: ConstraintKind, columns: &[&str]) -> ConstraintInfo {
    ConstraintInfo { name: name.to_owned(), kind, columns: strings(columns), clause: None }
}

fn table(name: &str) -> TableInfo {
    TableInfo {
        id: 1,
        schema: "dev".to_owned(),
        name: name.to_owned(),
        columns: vec![
            ColumnInfo { name: "id".to_owned(), ty: CatalogType::Column(ColumnType::Int), nullable: false },
            ColumnInfo {
                name: "label".to_owned(),
                ty: CatalogType::Column(ColumnType::VarChar(20)),
                nullable: true,
            },
            ColumnInfo {
                name: "price".to_owned(),
                ty: CatalogType::Column(ColumnType::Numeric { precision: 10, scale: 2 }),
                nullable: true,
            },
        ],
        defaults: vec![
            ("id".to_owned(), ColumnDefault::Sequence("t_id_seq".to_owned())),
            ("label".to_owned(), ColumnDefault::Sql("'x'".to_owned())),
        ],
        constraints: vec![
            constraint("t_pkey", ConstraintKind::PrimaryKey, &["id"]),
            ConstraintInfo {
                name: "t_check".to_owned(),
                kind: ConstraintKind::Check,
                columns: vec![],
                clause: Some("price > 0".to_owned()),
            },
            constraint("__type_label", ConstraintKind::Check, &[]),
        ],
        foreign_keys: vec![
            ForeignKeyInfo {
                name: "t_fk".to_owned(),
                child_table: 1,
                parent_columns: strings(&["k"]),
                parent_constraints: vec![
                    constraint("p_other", ConstraintKind::Unique, &["j"]),
                    constraint("p_pkey", ConstraintKind::PrimaryKey, &["k"]),
                ],
                on_update: FkAction::NoAction,
                on_delete: FkAction::SetNull,
            },
            ForeignKeyInfo {
                name: "from_elsewhere".to_owned(),
                child_table: 2,
                parent_columns: strings(&["id"]),
                parent_constraints: vec![],
                on_update: FkAction::Cascade,
                on_delete: FkAction::Restrict,
            },
        ],
        indexes: vec![IndexInfo { name: "t_idx".to_owned(), unique: false, columns: strings(&["label", "id"]) }],
    }
}

#[test]
fn system_tables_are_not_listed() {
    let names = vec![
        TableName { schema: "dev".to_owned(), name: "t".to_owned() },
        TableName { schema: "public".to_owned(), name: "nusadb_views".to_owned() },
    ];
    assert_eq!(
        info_schema_tables(&names, &vec![]),
        vec![texts(&["nusadb", "dev", "t", "BASE TABLE"])]
    );
    let views = vec![TableName { schema: "dev".to_owned(), name: "v".to_owned() }];
    assert_eq!(info_schema_tables(&names, &views), vec![
        texts(&["nusadb", "dev", "t", "BASE TABLE"]),
        texts(&["nusadb", "dev", "v", "VIEW"]),
    ]);
    let hidden = vec![table("nusadb_secret")];
    assert!(info_schema_columns(&hidden).is_empty());
    assert!(info_schema_table_constraints(&hidden, "__type_").is_empty());
    assert!(info_schema_statistics(&hidden, &vec![]).is_empty());
}

#[test]
fn columns_show_their_types_and_defaults() {
    let rows = info_schema_columns(&vec![table("t")]);
    assert_eq!(rows.len(), 3);
    assert_eq!(rows[0][5], text("integer"));
    assert_eq!(rows[0][6], text("NO"));
    assert_eq!(rows[0][10], text("nextval('t_id_seq')"));
    assert_eq!(rows[1][4], Value::Int(2));
    assert_eq!(rows[1][7], Value::Int(20));
    assert_eq!(rows[1][10], text("'x'"));
    assert_eq!(rows[2][8..].to_vec(), vec![Value::Int(10), Value::Int(2), Value::Null]);
}

#[test]
fn types_have_their_standard_names() {
    let named = |ty| info_schema_data_type(&ty).to_owned();
    assert_eq!(named(CatalogType::Column(ColumnType::Float)), "double precision");
    assert_eq!(named(CatalogType::Column(ColumnType::TimestampTz)), "timestamp with time zone");
    assert_eq!(named(CatalogType::Enum), "USER-DEFINED");
    assert_eq!(named(CatalogType::Range("int4range".to_owned())), "int4range");
    let open = CatalogType::Column(ColumnType::Numeric { precision: 0, scale: 0 });
    assert_eq!((numeric_precision(&open), numeric_scale(&open)), (None, None));
    assert_eq!(char_max_length(&CatalogType::Column(ColumnType::Char(3))), Some(3));
    assert_eq!(char_max_length(&CatalogType::Column(ColumnType::Text)), None);
}

#[test]
fn constraints_are_listed_without_those_of_types() {
    let tables = vec![table("t")];
    assert_eq!(info_schema_table_constraints(&tables, "__type_"), vec![
        texts(&["nusadb", "public", "t_pkey", "nusadb", "public", "t", "PRIMARY KEY"]),
        texts(&["nusadb", "public", "t_check", "nusadb", "public", "t", "CHECK"]),
    ]);
    assert_eq!(info_schema_check_constraints(&tables, "__type_"), vec![texts(&[
        "nusadb",
        "public",
        "t_check",
        "price > 0"
    ])]);
    let mut key = texts(&["nusadb", "public", "t_pkey", "nusadb", "public", "t", "id"]);
    key.push(Value::Int(1));
    assert_eq!(info_schema_key_column_usage(&tables), vec![key]);
    assert_eq!(info_schema_referential_constraints(&tables), vec![texts(&[
        "nusadb", "public", "t_fk", "nusadb", "public", "p_pkey", "NONE", "NO ACTION", "SET NULL"
    ])]);
}

#[test]
fn indexes_are_listed_by_column() {
    let vectors = vec![
        VectorIndexInfo {
            name: "v".to_owned(),
            table: "t".to_owned(),
            ordinal: 1,
            columns: Some(strings(&["id", "emb"])),
        },
        VectorIndexInfo { name: "gone".to_owned(), table: "u".to_owned(), ordinal: 0, columns: None },
    ];
    let rows = info_schema_statistics(&vec![table("t")], &vectors);
    let row = |schema: &str, index: &str, pos: i64, column: &str| {
        vec![
            text("nusadb"),
            text(schema),
            text("t"),
            Value::Int(1),
            text(index),
            Value::Int(pos),
            text(column),
        ]
    };
    assert_eq!(rows, vec![
        row("dev", "t_idx", 1, "label"),
        row("dev", "t_idx", 2, "id"),
        row("public", "v", 1, "emb"),
    ]);
}

fn grant(grantee: &str, to_public: bool, grantor: &str) -> GrantInfo {
    GrantInfo {
        on_table: true,
        object: "dev.t".to_owned(),
        grantor: grantor.to_owned(),
        to_public,
        grantee: grantee.to_owned(),
        privilege: "SELECT".to_owned(),
        grantable: false,
    }
}

#[test]
fn grants_are_seen_by_those_concerned() {
    let mut other = grant("bob", false, "root");
    other.object = "t".to_owned();
    let grants = vec![grant("PUBLIC", true, "root"), grant("alice", false, "root"), other];
    let roles = strings(&["alice"]);
    let rows = info_schema_table_privileges(&grants, false, &roles);
    assert_eq!(rows, vec![
        texts(&["root", "PUBLIC", "nusadb", "dev", "t", "SELECT", "NO"]),
        texts(&["root", "alice", "nusadb", "dev", "t", "SELECT", "NO"]),
    ]);
    let all = info_schema_table_privileges(&grants, true, &roles);
    assert_eq!(all.len(), 3);
    assert_eq!(all[2][3], text("public"));
    let edges = vec![
        MembershipInfo { member: "alice".to_owned(), role: "dev".to_owned(), admin: true },
        MembershipInfo { member: "bob".to_owned(), role: "dev".to_owned(), admin: false },
    ];
    assert_eq!(
        info_schema_applicable_roles(&edges, false, &roles),
        vec![texts(&["alice", "dev", "YES"])]
    );
    assert_eq!(info_schema_applicable_roles(&edges, true, &roles).len(), 2);
    assert_eq!(info_schema_enabled_roles(&roles), vec![texts(&["alice"])]);
}

#[test]
fn routines_sequences_views_and_schemas_are_listed() {
    let functions = vec![FunctionInfo {
        name: "f".to_owned(),
        return_type: CatalogType::Column(ColumnType::Int),
        script: true,
        body: "RETURN 1".to_owned(),
    }];
    let procedures = vec![ProcedureInfo { name: "p".to_owned(), body: "SELECT 1".to_owned() }];
    let rows = info_schema_routines(&functions, &procedures);
    assert_eq!(
        rows[0],
        texts(&["nusadb", "public", "f", "FUNCTION", "integer", "NUSASCRIPT", "RETURN 1"])
    );
    assert_eq!(rows[1][4], Value::Null);
    let def = SequenceDef {
        name: "s".to_owned(),
        start: 1,
        increment: 2,
        min_value: 1,
        max_value: 9,
        cycle: false,
    };
    let row = &info_schema_sequences(&vec![def])[0];
    assert_eq!(row[4], Value::Int(64));
    assert_eq!(row[7..].to_vec(), texts(&["1", "1", "9", "2", "NO"]));
    let stored = vec![texts(&["v", "SELECT 1"]), texts(&["odd"])];
    assert_eq!(info_schema_views(&stored), vec![texts(&["nusadb", "public", "v", "SELECT 1"])]);
    let schemas = info_schema_schemata(&strings(&["zoo", "dev"]), "root");
    let names: Vec<&Value> = schemas.iter().map(|r| &r[1]).collect();
    assert_eq!(names, vec![&text("dev"), &text("information_schema"), &text("public"), &text("zoo")]);
    assert_eq!(schemas[0][2], text("root"));
}

// ---------------------------------------------------------------- sessions

fn fresh() -> SessionState {
    SessionState { pinned: None, default_user: "nusa".to_owned(), server_version: "16.0".to_owned() }
}

#[test]
fn a_session_knows_its_context() {
    let mut state = fresh();
    assert_eq!(current_user(&state), "nusa");
    let mut settings: NameMap<String> = NameMap::new();
    settings.insert("work_mem".to_owned(), "1MB".to_owned());
    set_session_context(
        &mut state,
        "alice".to_owned(),
        settings,
        "shop".to_owned(),
        "dev".to_owned(),
        Some("tmp".to_owned()),
    );
    assert_eq!(current_user(&state), "alice");
    assert_eq!(current_database(&state), "shop");
    assert_eq!(current_schema(&state), "dev");
    assert_eq!(current_temp_schema(&state), Some("tmp".to_owned()));
    // The names of parameters do not depend on case.
    assert_eq!(setting(&state, "WORK_MEM"), Some("1MB".to_owned()));
    set_session_user(&mut state, "bob".to_owned());
    assert_eq!(current_user(&state), "bob");
}

#[test]
fn a_session_pinned_with_settings_reads_them() {
    let mut state = fresh();
    let mut settings: NameMap<String> = NameMap::new();
    settings.insert("nusadb.database".to_owned(), "shop".to_owned());
    set_session_user_with_settings(
        &mut state,
        "alice".to_owned(),
        settings,
        "dev".to_owned(),
        "nusadb.database",
        "nusadb.temp_schema",
    );
    assert_eq!(current_user(&state), "alice");
    assert_eq!(current_database(&state), "shop");
    assert_eq!(current_temp_schema(&state), None);
}

#[test]
fn built_in_parameters_have_defaults() {
    assert_eq!(builtin_guc_static_default("server_version", "16.0"), Some("16.0".to_owned()));
    assert_eq!(builtin_guc_static_default("no_such_parameter", "16.0"), None);
    assert_eq!(setting(&fresh(), "server_version"), Some("16.0".to_owned()));
}
