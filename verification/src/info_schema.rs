//! The rows of the `information_schema` views, from what the engine tells of its catalog.
use vstd::prelude::*;
use crate::catalog;
use crate::catalog::{cut_text, text_value};
use crate::catalog::sequences::SequenceDef;
use crate::numbers;
use crate::numbers::print_i64;
use crate::order::{ColumnOrder, NullOrdering, SortKey};
use crate::setops::Rows;
use crate::sort;
use crate::sort::sort_rows;
use crate::stats::column;
use crate::text::{same_text, to_chars};
use crate::types::{CatalogType, ColumnType};
use crate::value::{Row, Value, ValueView};

pub mod meaning;

verus! {

// ---------------------------------------------------------------- the catalog

/// A table's qualified name.
#[derive(Debug, PartialEq, Eq)]
pub struct TableName {
    pub schema: String,
    pub name: String,
}

/// A column's default: an SQL expression, or the next value of a sequence.
#[derive(Debug, PartialEq, Eq)]
pub enum ColumnDefault {
    Sql(String),
    Sequence(String),
}

/// A column of a table.
#[derive(Debug, PartialEq, Eq)]
pub struct ColumnInfo {
    pub name: String,
    pub ty: CatalogType,
    pub nullable: bool,
}

#[derive(Clone, Copy, Debug, PartialEq, Eq, Structural)]
pub enum ConstraintKind {
    PrimaryKey,
    Unique,
    ForeignKey,
    Check,
}

/// A constraint; a check has its condition as `clause`.
#[derive(Debug, PartialEq, Eq)]
pub struct ConstraintInfo {
    pub name: String,
    pub kind: ConstraintKind,
    pub columns: Vec<String>,
    pub clause: Option<String>,
}

#[derive(Clone, Copy, Debug, PartialEq, Eq, Structural)]
pub enum FkAction {
    NoAction,
    Restrict,
    Cascade,
    SetNull,
    SetDefault,
}

/// A foreign key, with the constraints of the table it refers to.
#[derive(Debug, PartialEq, Eq)]
pub struct ForeignKeyInfo {
    pub name: String,
    pub child_table: u64,
    pub parent_columns: Vec<String>,
    pub parent_constraints: Vec<ConstraintInfo>,
    pub on_update: FkAction,
    pub on_delete: FkAction,
}

/// An index.
#[derive(Debug, PartialEq, Eq)]
pub struct IndexInfo {
    pub name: String,
    pub unique: bool,
    pub columns: Vec<String>,
}

/// A table. `defaults` lists columns with their defaults.
#[derive(Debug, PartialEq, Eq)]
pub struct TableInfo {
    pub id: u64,
    pub schema: String,
    pub name: String,
    pub columns: Vec<ColumnInfo>,
    pub defaults: Vec<(String, ColumnDefault)>,
    pub constraints: Vec<ConstraintInfo>,
    pub foreign_keys: Vec<ForeignKeyInfo>,
    pub indexes: Vec<IndexInfo>,
}

/// A vector index, on the column at `ordinal` of a table, whose columns are given where it exists.
#[derive(Debug, PartialEq, Eq)]
pub struct VectorIndexInfo {
    pub name: String,
    pub table: String,
    pub ordinal: usize,
    pub columns: Option<Vec<String>>,
}

/// A privilege granted to a role, or to everybody.
#[derive(Debug, PartialEq, Eq)]
pub struct GrantInfo {
    pub on_table: bool,
    pub object: String,
    pub grantor: String,
    pub to_public: bool,
    pub grantee: String,
    pub privilege: String,
    pub grantable: bool,
}

/// A role's membership in another.
#[derive(Debug, PartialEq, Eq)]
pub struct MembershipInfo {
    pub member: String,
    pub role: String,
    pub admin: bool,
}

/// A function; a script or a query.
#[derive(Debug, PartialEq, Eq)]
pub struct FunctionInfo {
    pub name: String,
    pub return_type: CatalogType,
    pub script: bool,
    pub body: String,
}

/// A procedure.
#[derive(Debug, PartialEq, Eq)]
pub struct ProcedureInfo {
    pub name: String,
    pub body: String,
}

// ---------------------------------------------------------------- parts

/// `YES` or `NO`.
pub open spec fn yes_no(b: bool) -> Seq<char> {
    if b {
        "YES"@
    } else {
        "NO"@
    }
}

fn yes_or_no(b: bool) -> (r: &'static str)
    ensures
        r@ == yes_no(b),
{
    if b {
        "YES"
    } else {
        "NO"
    }
}

/// The number of the position after `pos`, counted from one.
pub open spec fn ordinal(pos: int) -> ValueView {
    ValueView::Int(
        if pos + 1 <= i64::MAX {
            (pos + 1) as i64
        } else {
            0
        },
    )
}

fn ordinal_value(pos: usize) -> (r: Value)
    ensures
        r@ == ordinal(pos as int),
{
    if (pos as u128) + 1 <= i64::MAX as u128 {
        Value::Int(((pos as u128) + 1) as i64)
    } else {
        Value::Int(0)
    }
}

/// `s` begins with `prefix`.
pub open spec fn begins(s: Seq<char>, prefix: Seq<char>) -> bool {
    prefix.len() <= s.len() && s.take(prefix.len() as int) == prefix
}

fn starts_with(s: &str, prefix: &str) -> (r: bool)
    ensures
        r == begins(s@, prefix@),
{
    let a = to_chars(s);
    let b = to_chars(prefix);
    let n: usize = b.len();
    if n > a.len() {
        return false;
    }
    let mut i: usize = 0;
    while i < n
        invariant
            a@ == s@,
            b@ == prefix@,
            n == b@.len(),
            n <= a@.len(),
            i <= n,
            forall|k: int| 0 <= k < i ==> #[trigger] a@[k] == b@[k],
        decreases n - i,
    {
        if a[i] != b[i] {
            assert(s@.take(n as int)[i as int] != prefix@[i as int]);
            return false;
        }
        i += 1;
    }
    assert(s@.take(n as int) =~= prefix@);
    true
}

/// The table is one of the engine's own.
pub open spec fn is_system(name: Seq<char>) -> bool {
    begins(name, "nusadb_"@)
}

fn system(name: &str) -> (r: bool)
    ensures
        r == is_system(name@),
{
    starts_with(name, "nusadb_")
}

/// `name` is among the names.
pub open spec fn lists(names: Seq<String>, name: Seq<char>) -> bool {
    exists|i: int| 0 <= i < names.len() && (#[trigger] names[i])@ == name
}

fn contains(names: &Vec<String>, name: &str) -> (r: bool)
    ensures
        r == lists(names@, name@),
{
    let mut i: usize = 0;
    while i < names.len()
        invariant
            i <= names@.len(),
            forall|k: int| 0 <= k < i ==> (#[trigger] names@[k])@ != name@,
        decreases names@.len() - i,
    {
        if same_text(names[i].as_str(), name) {
            return true;
        }
        i += 1;
    }
    false
}

/// Add rows to others.
fn append_rows(out: &mut Vec<Row>, more: Vec<Row>)
    ensures
        final(out).deep_view() == old(out).deep_view() + more.deep_view(),
{
    let ghost a = out.deep_view();
    let ghost b = more.deep_view();
    let mut more = more;
    out.append(&mut more);
    assert(out.deep_view() =~= a + b);
}

fn no_rows() -> (r: Vec<Row>)
    ensures
        r.deep_view() == Rows::empty(),
{
    let r: Vec<Row> = Vec::new();
    assert(r.deep_view() =~= Rows::empty());
    r
}

fn one_row(row: Row) -> (r: Vec<Row>)
    ensures
        r.deep_view() == seq![row.deep_view()],
{
    let mut r: Vec<Row> = Vec::new();
    r.push(row);
    assert(r.deep_view() =~= seq![row.deep_view()]);
    r
}

// ---------------------------------------------------------------- tables

/// A table.
pub open spec fn table_row(t: TableName) -> Seq<ValueView> {
    seq![
        ValueView::Text("nusadb"@),
        ValueView::Text(t.schema@),
        ValueView::Text(t.name@),
        ValueView::Text("BASE TABLE"@),
    ]
}

fn make_table_row(t: &TableName) -> (r: Row)
    ensures
        r.deep_view() == table_row(*t),
{
    let mut row: Vec<Value> = Vec::new();
    row.push(text_value("nusadb"));
    row.push(text_value(t.schema.as_str()));
    row.push(text_value(t.name.as_str()));
    row.push(text_value("BASE TABLE"));
    assert(row.deep_view() =~= table_row(*t));
    row
}

/// The row of a table that is not one of the engine's own.
pub open spec fn table_rows_of(t: TableName) -> Rows {
    if is_system(t.name@) {
        Seq::empty()
    } else {
        seq![table_row(t)]
    }
}

fn table_rows_for(t: &TableName) -> (r: Vec<Row>)
    ensures
        r.deep_view() == table_rows_of(*t),
{
    if system(t.name.as_str()) {
        no_rows()
    } else {
        one_row(make_table_row(t))
    }
}

/// The rows of the first `n` tables.
pub open spec fn table_rows(items: Seq<TableName>, n: nat) -> Rows
    decreases n,
{
    if n == 0 {
        Seq::empty()
    } else {
        table_rows(items, (n - 1) as nat) + table_rows_of(items[n - 1])
    }
}

/// A view that is not materialized.
pub open spec fn listed_view_row(t: TableName) -> Seq<ValueView> {
    seq![
        ValueView::Text("nusadb"@),
        ValueView::Text(t.schema@),
        ValueView::Text(t.name@),
        ValueView::Text("VIEW"@),
    ]
}

fn make_listed_view_row(t: &TableName) -> (r: Row)
    ensures
        r.deep_view() == listed_view_row(*t),
{
    let mut row: Vec<Value> = Vec::new();
    row.push(text_value("nusadb"));
    row.push(text_value(t.schema.as_str()));
    row.push(text_value(t.name.as_str()));
    row.push(text_value("VIEW"));
    assert(row.deep_view() =~= listed_view_row(*t));
    row
}

/// One row for each of the first `n` views.
pub open spec fn listed_view_rows(views: Seq<TableName>, n: nat) -> Rows
    decreases n,
{
    if n == 0 {
        Seq::empty()
    } else {
        listed_view_rows(views, (n - 1) as nat) + seq![listed_view_row(views[n - 1])]
    }
}

/// `information_schema.tables`: one row for each table that is not one of the engine's own, and one for
/// each view. A materialized view is among the tables, by the table behind it.
pub fn info_schema_tables(items: &Vec<TableName>, views: &Vec<TableName>) -> (r: Vec<Row>)
    ensures
        r.deep_view() == table_rows(items@, items@.len()) + listed_view_rows(views@, views@.len()),
{
    let n: usize = items.len();
    let mut out = no_rows();
    let mut i: usize = 0;
    while i < n
        invariant
            n == items@.len(),
            i <= n,
            out.deep_view() == table_rows(items@, i as nat),
        decreases n - i,
    {
        append_rows(&mut out, table_rows_for(&items[i]));
        i += 1;
    }
    let ghost tables = out.deep_view();
    let m: usize = views.len();
    let mut j: usize = 0;
    assert(tables + listed_view_rows(views@, 0) =~= tables);
    while j < m
        invariant
            m == views@.len(),
            j <= m,
            out.deep_view() == tables + listed_view_rows(views@, j as nat),
        decreases m - j,
    {
        append_rows(&mut out, one_row(make_listed_view_row(&views[j])));
        assert(out.deep_view() =~= tables + listed_view_rows(views@, (j + 1) as nat));
        j += 1;
    }
    out
}

// ---------------------------------------------------------------- columns

/// The standard name of a type.
pub open spec fn data_type_name(ty: CatalogType) -> Seq<char> {
    match ty {
        CatalogType::Column(c) => match c {
            ColumnType::Bool => "boolean"@,
            ColumnType::Int => "integer"@,
            ColumnType::SmallInt => "smallint"@,
            ColumnType::BigInt => "bigint"@,
            ColumnType::Float => "double precision"@,
            ColumnType::Real => "real"@,
            ColumnType::Text => "text"@,
            ColumnType::VarChar(_) => "character varying"@,
            ColumnType::Char(_) => "character"@,
            ColumnType::Bytes => "bytea"@,
            ColumnType::Timestamp => "timestamp without time zone"@,
            ColumnType::TimestampTz => "timestamp with time zone"@,
            ColumnType::Date => "date"@,
            ColumnType::Time => "time without time zone"@,
            ColumnType::TimeTz => "time with time zone"@,
            ColumnType::Uuid => "uuid"@,
            ColumnType::Numeric { .. } => "numeric"@,
            ColumnType::Json => "json"@,
            ColumnType::Jsonb => "jsonb"@,
            ColumnType::Interval => "interval"@,
            ColumnType::Array(_) => "ARRAY"@,
            ColumnType::Vector(_) => "vector"@,
        },
        CatalogType::Macaddr => "macaddr"@,
        CatalogType::Macaddr8 => "macaddr8"@,
        CatalogType::Inet => "inet"@,
        CatalogType::Cidr => "cidr"@,
        CatalogType::Bit(_) => "bit"@,
        CatalogType::VarBit(_) => "bit varying"@,
        CatalogType::Range(name) => name@,
        CatalogType::Geometry(name) => name@,
        CatalogType::Tsvector => "tsvector"@,
        CatalogType::Tsquery => "tsquery"@,
        CatalogType::Xml => "xml"@,
        CatalogType::Enum => "USER-DEFINED"@,
    }
}

/// The standard name of a type, as drivers expect it.
pub fn info_schema_data_type(ty: &CatalogType) -> (r: &str)
    ensures
        r@ == data_type_name(*ty),
{
    match ty {
        CatalogType::Column(c) => match c {
            ColumnType::Bool => "boolean",
            ColumnType::Int => "integer",
            ColumnType::SmallInt => "smallint",
            ColumnType::BigInt => "bigint",
            ColumnType::Float => "double precision",
            ColumnType::Real => "real",
            ColumnType::Text => "text",
            ColumnType::VarChar(_) => "character varying",
            ColumnType::Char(_) => "character",
            ColumnType::Bytes => "bytea",
            ColumnType::Timestamp => "timestamp without time zone",
            ColumnType::TimestampTz => "timestamp with time zone",
            ColumnType::Date => "date",
            ColumnType::Time => "time without time zone",
            ColumnType::TimeTz => "time with time zone",
            ColumnType::Uuid => "uuid",
            ColumnType::Numeric { .. } => "numeric",
            ColumnType::Json => "json",
            ColumnType::Jsonb => "jsonb",
            ColumnType::Interval => "interval",
            ColumnType::Array(_) => "ARRAY",
            ColumnType::Vector(_) => "vector",
        },
        CatalogType::Macaddr => "macaddr",
        CatalogType::Macaddr8 => "macaddr8",
        CatalogType::Inet => "inet",
        CatalogType::Cidr => "cidr",
        CatalogType::Bit(_) => "bit",
        CatalogType::VarBit(_) => "bit varying",
        CatalogType::Range(name) => name.as_str(),
        CatalogType::Geometry(name) => name.as_str(),
        CatalogType::Tsvector => "tsvector",
        CatalogType::Tsquery => "tsquery",
        CatalogType::Xml => "xml",
        CatalogType::Enum => "USER-DEFINED",
    }
}

/// The declared length of a character type.
pub open spec fn declared_length(ty: CatalogType) -> Option<u32> {
    match ty {
        CatalogType::Column(ColumnType::VarChar(n)) | CatalogType::Column(ColumnType::Char(n)) => Some(
            n,
        ),
        _ => None,
    }
}

/// The declared length of a character type.
pub fn char_max_length(ty: &CatalogType) -> (r: Option<u32>)
    ensures
        r == declared_length(*ty),
{
    match ty {
        CatalogType::Column(ColumnType::VarChar(n)) | CatalogType::Column(ColumnType::Char(n)) => Some(
            *n,
        ),
        _ => None,
    }
}

/// The declared precision and scale of a decimal type, where it is constrained.
pub open spec fn declared_numeric(ty: CatalogType) -> Option<(u32, u32)> {
    match ty {
        CatalogType::Column(ColumnType::Numeric { precision, scale }) => if precision > 0 {
            Some((precision as u32, scale as u32))
        } else {
            None
        },
        _ => None,
    }
}

/// The declared precision of a decimal type, where it is constrained.
pub fn numeric_precision(ty: &CatalogType) -> (r: Option<u32>)
    ensures
        r == match declared_numeric(*ty) {
            Some((p, _)) => Some(p),
            None => None,
        },
{
    match ty {
        CatalogType::Column(ColumnType::Numeric { precision, .. }) => if *precision > 0 {
            Some(*precision as u32)
        } else {
            None
        },
        _ => None,
    }
}

/// The declared scale of a decimal type, where it is constrained.
pub fn numeric_scale(ty: &CatalogType) -> (r: Option<u32>)
    ensures
        r == match declared_numeric(*ty) {
            Some((_, s)) => Some(s),
            None => None,
        },
{
    match ty {
        CatalogType::Column(ColumnType::Numeric { precision, scale }) => if *precision > 0 {
            Some(*scale as u32)
        } else {
            None
        },
        _ => None,
    }
}

/// A number, or NULL.
pub open spec fn number_or_null(n: Option<u32>) -> ValueView {
    match n {
        Some(n) => ValueView::Int(n as i64),
        None => ValueView::Null,
    }
}

fn nullable_int(n: Option<u32>) -> (r: Value)
    ensures
        r@ == number_or_null(n),
{
    match n {
        Some(n) => Value::Int(n as i64),
        None => Value::Null,
    }
}

/// How a default is shown.
pub open spec fn shown_default(d: ColumnDefault) -> Seq<char> {
    match d {
        ColumnDefault::Sql(sql) => sql@,
        ColumnDefault::Sequence(name) => "nextval('"@ + name@ + "')"@,
    }
}

/// The default of this column, from the `i`-th on; NULL where there is none.
pub open spec fn default_from(defaults: Seq<(String, ColumnDefault)>, name: Seq<char>, i: nat) -> ValueView
    decreases defaults.len() - i,
{
    if i >= defaults.len() {
        ValueView::Null
    } else if defaults[i as int].0@ == name {
        ValueView::Text(shown_default(defaults[i as int].1))
    } else {
        default_from(defaults, name, i + 1)
    }
}

fn find_default(defaults: &Vec<(String, ColumnDefault)>, name: &str) -> (r: Value)
    ensures
        r@ == default_from(defaults@, name@, 0),
{
    let mut i: usize = 0;
    while i < defaults.len()
        invariant
            i <= defaults@.len(),
            default_from(defaults@, name@, 0) == default_from(defaults@, name@, i as nat),
        decreases defaults@.len() - i,
    {
        if same_text(defaults[i].0.as_str(), name) {
            return match &defaults[i].1 {
                ColumnDefault::Sql(sql) => Value::Text(sql.clone()),
                ColumnDefault::Sequence(seq) => {
                    let mut cs: Vec<char> = Vec::new();
                    catalog::append_chars(&mut cs, "nextval('");
                    catalog::append_chars(&mut cs, seq.as_str());
                    catalog::append_chars(&mut cs, "')");
                    assert(cs@ =~= shown_default(defaults@[i as int].1));
                    Value::Text(catalog::whole_text(&cs))
                },
            };
        }
        i += 1;
    }
    Value::Null
}

/// The column at `pos` of a table.
pub open spec fn column_row(t: TableInfo, pos: int) -> Seq<ValueView> {
    seq![
        ValueView::Text("nusadb"@),
        ValueView::Text(t.schema@),
        ValueView::Text(t.name@),
        ValueView::Text(t.columns@[pos].name@),
        ordinal(pos),
        ValueView::Text(data_type_name(t.columns@[pos].ty)),
        ValueView::Text(yes_no(t.columns@[pos].nullable)),
        number_or_null(declared_length(t.columns@[pos].ty)),
        number_or_null(
            match declared_numeric(t.columns@[pos].ty) {
                Some((p, _)) => Some(p),
                None => None,
            },
        ),
        number_or_null(
            match declared_numeric(t.columns@[pos].ty) {
                Some((_, s)) => Some(s),
                None => None,
            },
        ),
        default_from(t.defaults@, t.columns@[pos].name@, 0),
    ]
}

fn make_column_row(t: &TableInfo, pos: usize) -> (r: Row)
    requires
        pos < t.columns@.len(),
    ensures
        r.deep_view() == column_row(*t, pos as int),
{
    let mut row: Vec<Value> = Vec::new();
    row.push(text_value("nusadb"));
    row.push(text_value(t.schema.as_str()));
    row.push(text_value(t.name.as_str()));
    row.push(text_value(t.columns[pos].name.as_str()));
    row.push(ordinal_value(pos));
    row.push(text_value(info_schema_data_type(&t.columns[pos].ty)));
    row.push(text_value(yes_or_no(t.columns[pos].nullable)));
    row.push(nullable_int(char_max_length(&t.columns[pos].ty)));
    row.push(nullable_int(numeric_precision(&t.columns[pos].ty)));
    row.push(nullable_int(numeric_scale(&t.columns[pos].ty)));
    row.push(find_default(&t.defaults, t.columns[pos].name.as_str()));
    assert(row.deep_view() =~= column_row(*t, pos as int));
    row
}

/// The first `n` columns of a table.
pub open spec fn column_rows_in(t: TableInfo, n: nat) -> Rows
    decreases n,
{
    if n == 0 {
        Seq::empty()
    } else {
        column_rows_in(t, (n - 1) as nat).push(column_row(t, n - 1))
    }
}

fn column_rows_for(t: &TableInfo) -> (r: Vec<Row>)
    ensures
        r.deep_view() == column_rows_in(*t, t.columns@.len()),
{
    let n: usize = t.columns.len();
    let mut out = no_rows();
    let mut i: usize = 0;
    while i < n
        invariant
            n == t.columns@.len(),
            i <= n,
            out.deep_view() == column_rows_in(*t, i as nat),
        decreases n - i,
    {
        let ghost was = out.deep_view();
        let row = make_column_row(t, i);
        out.push(row);
        assert(out.deep_view() =~= was.push(row.deep_view()));
        i += 1;
    }
    out
}

/// The columns of a table that is not one of the engine's own.
pub open spec fn column_rows_of(t: TableInfo) -> Rows {
    if is_system(t.name@) {
        Seq::empty()
    } else {
        column_rows_in(t, t.columns@.len())
    }
}

fn user_column_rows(t: &TableInfo) -> (r: Vec<Row>)
    ensures
        r.deep_view() == column_rows_of(*t),
{
    if system(t.name.as_str()) {
        no_rows()
    } else {
        column_rows_for(t)
    }
}

/// The columns of the first `n` tables.
pub open spec fn column_rows(items: Seq<TableInfo>, n: nat) -> Rows
    decreases n,
{
    if n == 0 {
        Seq::empty()
    } else {
        column_rows(items, (n - 1) as nat) + column_rows_of(items[n - 1])
    }
}

/// `information_schema.columns`: one row for each column of a table that is not one of the engine's own.
pub fn info_schema_columns(items: &Vec<TableInfo>) -> (r: Vec<Row>)
    ensures
        r.deep_view() == column_rows(items@, items@.len()),
{
    let n: usize = items.len();
    let mut out = no_rows();
    let mut i: usize = 0;
    while i < n
        invariant
            n == items@.len(),
            i <= n,
            out.deep_view() == column_rows(items@, i as nat),
        decreases n - i,
    {
        append_rows(&mut out, user_column_rows(&items[i]));
        i += 1;
    }
    out
}

// ---------------------------------------------------------------- constraints

/// The standard name of a kind of constraint.
pub open spec fn kind_name(kind: ConstraintKind) -> Seq<char> {
    match kind {
        ConstraintKind::PrimaryKey => "PRIMARY KEY"@,
        ConstraintKind::Unique => "UNIQUE"@,
        ConstraintKind::ForeignKey => "FOREIGN KEY"@,
        ConstraintKind::Check => "CHECK"@,
    }
}

/// The standard name of a kind of constraint.
pub fn constraint_type_name(kind: ConstraintKind) -> (r: &'static str)
    ensures
        r@ == kind_name(kind),
{
    match kind {
        ConstraintKind::PrimaryKey => "PRIMARY KEY",
        ConstraintKind::Unique => "UNIQUE",
        ConstraintKind::ForeignKey => "FOREIGN KEY",
        ConstraintKind::Check => "CHECK",
    }
}

/// The standard name of a referential action.
pub open spec fn rule_name(action: FkAction) -> Seq<char> {
    match action {
        FkAction::NoAction => "NO ACTION"@,
        FkAction::Restrict => "RESTRICT"@,
        FkAction::Cascade => "CASCADE"@,
        FkAction::SetNull => "SET NULL"@,
        FkAction::SetDefault => "SET DEFAULT"@,
    }
}

/// The standard name of a referential action.
pub fn fk_rule_text(action: FkAction) -> (r: &'static str)
    ensures
        r@ == rule_name(action),
{
    match action {
        FkAction::NoAction => "NO ACTION",
        FkAction::Restrict => "RESTRICT",
        FkAction::Cascade => "CASCADE",
        FkAction::SetNull => "SET NULL",
        FkAction::SetDefault => "SET DEFAULT",
    }
}

/// A constraint of a table.
pub open spec fn constraint_row(t: TableInfo, c: ConstraintInfo) -> Seq<ValueView> {
    seq![
        ValueView::Text("nusadb"@),
        ValueView::Text("public"@),
        ValueView::Text(c.name@),
        ValueView::Text("nusadb"@),
        ValueView::Text("public"@),
        ValueView::Text(t.name@),
        ValueView::Text(kind_name(c.kind)),
    ]
}

fn make_constraint_row(t: &TableInfo, c: &ConstraintInfo) -> (r: Row)
    ensures
        r.deep_view() == constraint_row(*t, *c),
{
    let mut row: Vec<Value> = Vec::new();
    row.push(text_value("nusadb"));
    row.push(text_value("public"));
    row.push(text_value(c.name.as_str()));
    row.push(text_value("nusadb"));
    row.push(text_value("public"));
    row.push(text_value(t.name.as_str()));
    row.push(text_value(constraint_type_name(c.kind)));
    assert(row.deep_view() =~= constraint_row(*t, *c));
    row
}

/// The first `n` constraints of a table, without those that only bound a declared type.
pub open spec fn constraint_rows_in(t: TableInfo, synthetic: Seq<char>, n: nat) -> Rows
    decreases n,
{
    if n == 0 {
        Seq::empty()
    } else {
        let head = constraint_rows_in(t, synthetic, (n - 1) as nat);
        let c = t.constraints@[n - 1];
        if !begins(c.name@, synthetic) {
            head.push(constraint_row(t, c))
        } else {
            head
        }
    }
}

fn constraint_rows_for(t: &TableInfo, synthetic: &str) -> (r: Vec<Row>)
    ensures
        r.deep_view() == constraint_rows_in(*t, synthetic@, t.constraints@.len()),
{
    let n: usize = t.constraints.len();
    let mut out = no_rows();
    let mut i: usize = 0;
    while i < n
        invariant
            n == t.constraints@.len(),
            i <= n,
            out.deep_view() == constraint_rows_in(*t, synthetic@, i as nat),
        decreases n - i,
    {
        let c = &t.constraints[i];
        if !starts_with(c.name.as_str(), synthetic) {
            let ghost was = out.deep_view();
            let row = make_constraint_row(t, c);
            out.push(row);
            assert(out.deep_view() =~= was.push(row.deep_view()));
        }
        i += 1;
    }
    out
}

/// The constraints of a table that is not one of the engine's own.
pub open spec fn constraint_rows_of(t: TableInfo, synthetic: Seq<char>) -> Rows {
    if is_system(t.name@) {
        Seq::empty()
    } else {
        constraint_rows_in(t, synthetic, t.constraints@.len())
    }
}

fn user_constraint_rows(t: &TableInfo, synthetic: &str) -> (r: Vec<Row>)
    ensures
        r.deep_view() == constraint_rows_of(*t, synthetic@),
{
    if system(t.name.as_str()) {
        no_rows()
    } else {
        constraint_rows_for(t, synthetic)
    }
}

/// The constraints of the first `n` tables.
pub open spec fn constraint_rows(items: Seq<TableInfo>, synthetic: Seq<char>, n: nat) -> Rows
    decreases n,
{
    if n == 0 {
        Seq::empty()
    } else {
        constraint_rows(items, synthetic, (n - 1) as nat) + constraint_rows_of(items[n - 1], synthetic)
    }
}

/// `information_schema.table_constraints`: one row for each constraint, without those that only bound a
/// declared type, whose names begin with `synthetic`.
pub fn info_schema_table_constraints(items: &Vec<TableInfo>, synthetic: &str) -> (r: Vec<Row>)
    ensures
        r.deep_view() == constraint_rows(items@, synthetic@, items@.len()),
{
    let n: usize = items.len();
    let mut out = no_rows();
    let mut i: usize = 0;
    while i < n
        invariant
            n == items@.len(),
            i <= n,
            out.deep_view() == constraint_rows(items@, synthetic@, i as nat),
        decreases n - i,
    {
        append_rows(&mut out, user_constraint_rows(&items[i], synthetic));
        i += 1;
    }
    out
}

/// A check and its condition.
pub open spec fn check_row(c: ConstraintInfo) -> Seq<ValueView> {
    seq![
        ValueView::Text("nusadb"@),
        ValueView::Text("public"@),
        ValueView::Text(c.name@),
        ValueView::Text(
            match c.clause {
                Some(s) => s@,
                None => Seq::empty(),
            },
        ),
    ]
}

fn make_check_row(c: &ConstraintInfo) -> (r: Row)
    ensures
        r.deep_view() == check_row(*c),
{
    let mut row: Vec<Value> = Vec::new();
    row.push(text_value("nusadb"));
    row.push(text_value("public"));
    row.push(text_value(c.name.as_str()));
    row.push(Value::Text(
        match &c.clause {
            Some(s) => s.clone(),
            None => String::new(),
        },
    ));
    assert(row.deep_view() =~= check_row(*c));
    row
}

/// The checks among the first `n` constraints of a table, without those that only bound a declared type.
pub open spec fn check_rows_in(t: TableInfo, synthetic: Seq<char>, n: nat) -> Rows
    decreases n,
{
    if n == 0 {
        Seq::empty()
    } else {
        let head = check_rows_in(t, synthetic, (n - 1) as nat);
        let c = t.constraints@[n - 1];
        if c.kind is Check && !begins(c.name@, synthetic) {
            head.push(check_row(c))
        } else {
            head
        }
    }
}

fn check_rows_for(t: &TableInfo, synthetic: &str) -> (r: Vec<Row>)
    ensures
        r.deep_view() == check_rows_in(*t, synthetic@, t.constraints@.len()),
{
    let n: usize = t.constraints.len();
    let mut out = no_rows();
    let mut i: usize = 0;
    while i < n
        invariant
            n == t.constraints@.len(),
            i <= n,
            out.deep_view() == check_rows_in(*t, synthetic@, i as nat),
        decreases n - i,
    {
        let c = &t.constraints[i];
        if c.kind == ConstraintKind::Check && !starts_with(c.name.as_str(), synthetic) {
            let ghost was = out.deep_view();
            let row = make_check_row(c);
            out.push(row);
            assert(out.deep_view() =~= was.push(row.deep_view()));
        }
        i += 1;
    }
    out
}

/// The checks of a table that is not one of the engine's own.
pub open spec fn check_rows_of(t: TableInfo, synthetic: Seq<char>) -> Rows {
    if is_system(t.name@) {
        Seq::empty()
    } else {
        check_rows_in(t, synthetic, t.constraints@.len())
    }
}

fn user_check_rows(t: &TableInfo, synthetic: &str) -> (r: Vec<Row>)
    ensures
        r.deep_view() == check_rows_of(*t, synthetic@),
{
    if system(t.name.as_str()) {
        no_rows()
    } else {
        check_rows_for(t, synthetic)
    }
}

/// The checks of the first `n` tables.
pub open spec fn check_rows(items: Seq<TableInfo>, synthetic: Seq<char>, n: nat) -> Rows
    decreases n,
{
    if n == 0 {
        Seq::empty()
    } else {
        check_rows(items, synthetic, (n - 1) as nat) + check_rows_of(items[n - 1], synthetic)
    }
}

/// `information_schema.check_constraints`: one row for each check, without those that only bound a
/// declared type, whose names begin with `synthetic`.
pub fn info_schema_check_constraints(items: &Vec<TableInfo>, synthetic: &str) -> (r: Vec<Row>)
    ensures
        r.deep_view() == check_rows(items@, synthetic@, items@.len()),
{
    let n: usize = items.len();
    let mut out = no_rows();
    let mut i: usize = 0;
    while i < n
        invariant
            n == items@.len(),
            i <= n,
            out.deep_view() == check_rows(items@, synthetic@, i as nat),
        decreases n - i,
    {
        append_rows(&mut out, user_check_rows(&items[i], synthetic));
        i += 1;
    }
    out
}

/// The column at `pos` of a key.
pub open spec fn key_column_row(table: Seq<char>, c: ConstraintInfo, pos: int) -> Seq<ValueView> {
    seq![
        ValueView::Text("nusadb"@),
        ValueView::Text("public"@),
        ValueView::Text(c.name@),
        ValueView::Text("nusadb"@),
        ValueView::Text("public"@),
        ValueView::Text(table),
        ValueView::Text(c.columns@[pos]@),
        ordinal(pos),
    ]
}

fn make_key_column_row(table: &str, c: &ConstraintInfo, pos: usize) -> (r: Row)
    requires
        pos < c.columns@.len(),
    ensures
        r.deep_view() == key_column_row(table@, *c, pos as int),
{
    let mut row: Vec<Value> = Vec::new();
    row.push(text_value("nusadb"));
    row.push(text_value("public"));
    row.push(text_value(c.name.as_str()));
    row.push(text_value("nusadb"));
    row.push(text_value("public"));
    row.push(text_value(table));
    row.push(text_value(c.columns[pos].as_str()));
    row.push(ordinal_value(pos));
    assert(row.deep_view() =~= key_column_row(table@, *c, pos as int));
    row
}

/// The first `n` columns of a key.
pub open spec fn key_columns_in(t: ConstraintInfo, table: Seq<char>, n: nat) -> Rows
    decreases n,
{
    if n == 0 {
        Seq::empty()
    } else {
        key_columns_in(t, table, (n - 1) as nat).push(key_column_row(table, t, n - 1))
    }
}

fn key_columns_for(t: &ConstraintInfo, table: &str) -> (r: Vec<Row>)
    ensures
        r.deep_view() == key_columns_in(*t, table@, t.columns@.len()),
{
    let n: usize = t.columns.len();
    let mut out = no_rows();
    let mut i: usize = 0;
    while i < n
        invariant
            n == t.columns@.len(),
            i <= n,
            out.deep_view() == key_columns_in(*t, table@, i as nat),
        decreases n - i,
    {
        let ghost was = out.deep_view();
        let row = make_key_column_row(table, t, i);
        out.push(row);
        assert(out.deep_view() =~= was.push(row.deep_view()));
        i += 1;
    }
    out
}

/// The columns of the first `n` keys of a table.
pub open spec fn key_columns(items: Seq<ConstraintInfo>, table: Seq<char>, n: nat) -> Rows
    decreases n,
{
    if n == 0 {
        Seq::empty()
    } else {
        key_columns(items, table, (n - 1) as nat) + key_columns_in(items[n - 1], table, items[n - 1].columns@.len())
    }
}

/// The columns of the first `n` keys of a table.
fn key_columns_of_all(items: &Vec<ConstraintInfo>, table: &str) -> (r: Vec<Row>)
    ensures
        r.deep_view() == key_columns(items@, table@, items@.len()),
{
    let n: usize = items.len();
    let mut out = no_rows();
    let mut i: usize = 0;
    while i < n
        invariant
            n == items@.len(),
            i <= n,
            out.deep_view() == key_columns(items@, table@, i as nat),
        decreases n - i,
    {
        append_rows(&mut out, key_columns_for(&items[i], table));
        i += 1;
    }
    out
}

/// The columns of the keys of a table that is not one of the engine's own.
pub open spec fn key_usage_of(t: TableInfo) -> Rows {
    if is_system(t.name@) {
        Seq::empty()
    } else {
        key_columns(t.constraints@, t.name@, t.constraints@.len())
    }
}

fn user_key_usage(t: &TableInfo) -> (r: Vec<Row>)
    ensures
        r.deep_view() == key_usage_of(*t),
{
    if system(t.name.as_str()) {
        no_rows()
    } else {
        key_columns_of_all(&t.constraints, t.name.as_str())
    }
}

/// The columns of the keys of the first `n` tables.
pub open spec fn key_usage(items: Seq<TableInfo>, n: nat) -> Rows
    decreases n,
{
    if n == 0 {
        Seq::empty()
    } else {
        key_usage(items, (n - 1) as nat) + key_usage_of(items[n - 1])
    }
}

/// `information_schema.key_column_usage`: one row for each column of each key, with its position.
pub fn info_schema_key_column_usage(items: &Vec<TableInfo>) -> (r: Vec<Row>)
    ensures
        r.deep_view() == key_usage(items@, items@.len()),
{
    let n: usize = items.len();
    let mut out = no_rows();
    let mut i: usize = 0;
    while i < n
        invariant
            n == items@.len(),
            i <= n,
            out.deep_view() == key_usage(items@, i as nat),
        decreases n - i,
    {
        append_rows(&mut out, user_key_usage(&items[i]));
        i += 1;
    }
    out
}

/// The same names in the same order.
pub open spec fn same_names(a: Seq<String>, b: Seq<String>) -> bool {
    a.len() == b.len() && forall|i: int| 0 <= i < a.len() ==> (#[trigger] a[i])@ == b[i]@
}

fn names_equal(a: &Vec<String>, b: &Vec<String>) -> (r: bool)
    ensures
        r == same_names(a@, b@),
{
    if a.len() != b.len() {
        return false;
    }
    let mut i: usize = 0;
    while i < a.len()
        invariant
            a@.len() == b@.len(),
            i <= a@.len(),
            forall|k: int| 0 <= k < i ==> (#[trigger] a@[k])@ == b@[k]@,
        decreases a@.len() - i,
    {
        if !same_text(a[i].as_str(), b[i].as_str()) {
            return false;
        }
        i += 1;
    }
    true
}

/// The constraint, from the `i`-th on, that makes exactly these columns unique; NULL where there is
/// none.
pub open spec fn unique_from(constraints: Seq<ConstraintInfo>, columns: Seq<String>, i: nat) -> ValueView
    decreases constraints.len() - i,
{
    if i >= constraints.len() {
        ValueView::Null
    } else {
        let c = constraints[i as int];
        if (c.kind is PrimaryKey || c.kind is Unique) && same_names(c.columns@, columns) {
            ValueView::Text(c.name@)
        } else {
            unique_from(constraints, columns, i + 1)
        }
    }
}

fn find_unique(constraints: &Vec<ConstraintInfo>, columns: &Vec<String>) -> (r: Value)
    ensures
        r@ == unique_from(constraints@, columns@, 0),
{
    let mut i: usize = 0;
    while i < constraints.len()
        invariant
            i <= constraints@.len(),
            unique_from(constraints@, columns@, 0) == unique_from(constraints@, columns@, i as nat),
        decreases constraints@.len() - i,
    {
        let c = &constraints[i];
        if (c.kind == ConstraintKind::PrimaryKey || c.kind == ConstraintKind::Unique) && names_equal(
            &c.columns,
            columns,
        ) {
            return Value::Text(c.name.clone());
        }
        i += 1;
    }
    Value::Null
}

/// A foreign key, with the constraint it refers to.
pub open spec fn reference_row(k: ForeignKeyInfo) -> Seq<ValueView> {
    seq![
        ValueView::Text("nusadb"@),
        ValueView::Text("public"@),
        ValueView::Text(k.name@),
        ValueView::Text("nusadb"@),
        ValueView::Text("public"@),
        unique_from(k.parent_constraints@, k.parent_columns@, 0),
        ValueView::Text("NONE"@),
        ValueView::Text(rule_name(k.on_update)),
        ValueView::Text(rule_name(k.on_delete)),
    ]
}

fn make_reference_row(k: &ForeignKeyInfo) -> (r: Row)
    ensures
        r.deep_view() == reference_row(*k),
{
    let mut row: Vec<Value> = Vec::new();
    row.push(text_value("nusadb"));
    row.push(text_value("public"));
    row.push(text_value(k.name.as_str()));
    row.push(text_value("nusadb"));
    row.push(text_value("public"));
    row.push(find_unique(&k.parent_constraints, &k.parent_columns));
    row.push(text_value("NONE"));
    row.push(text_value(fk_rule_text(k.on_update)));
    row.push(text_value(fk_rule_text(k.on_delete)));
    assert(row.deep_view() =~= reference_row(*k));
    row
}

/// The foreign keys that a table declares, among the first `n` that touch it.
pub open spec fn reference_rows_in(t: TableInfo, n: nat) -> Rows
    decreases n,
{
    if n == 0 {
        Seq::empty()
    } else {
        let head = reference_rows_in(t, (n - 1) as nat);
        let c = t.foreign_keys@[n - 1];
        if c.child_table == t.id {
            head.push(reference_row(c))
        } else {
            head
        }
    }
}

fn reference_rows_for(t: &TableInfo) -> (r: Vec<Row>)
    ensures
        r.deep_view() == reference_rows_in(*t, t.foreign_keys@.len()),
{
    let n: usize = t.foreign_keys.len();
    let mut out = no_rows();
    let mut i: usize = 0;
    while i < n
        invariant
            n == t.foreign_keys@.len(),
            i <= n,
            out.deep_view() == reference_rows_in(*t, i as nat),
        decreases n - i,
    {
        let c = &t.foreign_keys[i];
        if c.child_table == t.id {
            let ghost was = out.deep_view();
            let row = make_reference_row(c);
            out.push(row);
            assert(out.deep_view() =~= was.push(row.deep_view()));
        }
        i += 1;
    }
    out
}

/// The foreign keys of a table that is not one of the engine's own.
pub open spec fn reference_rows_of(t: TableInfo) -> Rows {
    if is_system(t.name@) {
        Seq::empty()
    } else {
        reference_rows_in(t, t.foreign_keys@.len())
    }
}

fn user_reference_rows(t: &TableInfo) -> (r: Vec<Row>)
    ensures
        r.deep_view() == reference_rows_of(*t),
{
    if system(t.name.as_str()) {
        no_rows()
    } else {
        reference_rows_for(t)
    }
}

/// The foreign keys of the first `n` tables.
pub open spec fn reference_rows(items: Seq<TableInfo>, n: nat) -> Rows
    decreases n,
{
    if n == 0 {
        Seq::empty()
    } else {
        reference_rows(items, (n - 1) as nat) + reference_rows_of(items[n - 1])
    }
}

/// `information_schema.referential_constraints`: one row for each foreign key, at the table that
/// declares it.
pub fn info_schema_referential_constraints(items: &Vec<TableInfo>) -> (r: Vec<Row>)
    ensures
        r.deep_view() == reference_rows(items@, items@.len()),
{
    let n: usize = items.len();
    let mut out = no_rows();
    let mut i: usize = 0;
    while i < n
        invariant
            n == items@.len(),
            i <= n,
            out.deep_view() == reference_rows(items@, i as nat),
        decreases n - i,
    {
        append_rows(&mut out, user_reference_rows(&items[i]));
        i += 1;
    }
    out
}

// ---------------------------------------------------------------- indexes

/// The column at `pos` of an index.
pub open spec fn index_row(schema: Seq<char>, table: Seq<char>, unique: bool, index: Seq<char>, pos: int, column: Seq<char>) -> Seq<ValueView> {
    seq![
        ValueView::Text("nusadb"@),
        ValueView::Text(schema),
        ValueView::Text(table),
        ValueView::Int(
            if unique {
                0
            } else {
                1
            },
        ),
        ValueView::Text(index),
        ordinal(pos),
        ValueView::Text(column),
    ]
}

fn make_index_row(schema: &str, table: &str, unique: bool, index: &str, pos: usize, column: &str) -> (r: Row)
    ensures
        r.deep_view() == index_row(schema@, table@, unique, index@, pos as int, column@),
{
    let mut row: Vec<Value> = Vec::new();
    row.push(text_value("nusadb"));
    row.push(text_value(schema));
    row.push(text_value(table));
    row.push(Value::Int(
        if unique {
            0
        } else {
            1
        },
    ));
    row.push(text_value(index));
    row.push(ordinal_value(pos));
    row.push(text_value(column));
    assert(row.deep_view() =~= index_row(schema@, table@, unique, index@, pos as int, column@));
    row
}

/// The first `n` columns of an index.
pub open spec fn index_columns_in(t: IndexInfo, schema: Seq<char>, table: Seq<char>, n: nat) -> Rows
    decreases n,
{
    if n == 0 {
        Seq::empty()
    } else {
        index_columns_in(t, schema, table, (n - 1) as nat).push(index_row(schema, table, t.unique, t.name@, n - 1, t.columns@[n - 1]@))
    }
}

fn index_columns_for(t: &IndexInfo, schema: &str, table: &str) -> (r: Vec<Row>)
    ensures
        r.deep_view() == index_columns_in(*t, schema@, table@, t.columns@.len()),
{
    let n: usize = t.columns.len();
    let mut out = no_rows();
    let mut i: usize = 0;
    while i < n
        invariant
            n == t.columns@.len(),
            i <= n,
            out.deep_view() == index_columns_in(*t, schema@, table@, i as nat),
        decreases n - i,
    {
        let ghost was = out.deep_view();
        let row = make_index_row(schema, table, t.unique, t.name.as_str(), i, t.columns[i].as_str());
        out.push(row);
        assert(out.deep_view() =~= was.push(row.deep_view()));
        i += 1;
    }
    out
}

/// The columns of the first `n` indexes of a table.
pub open spec fn index_columns(items: Seq<IndexInfo>, schema: Seq<char>, table: Seq<char>, n: nat) -> Rows
    decreases n,
{
    if n == 0 {
        Seq::empty()
    } else {
        index_columns(items, schema, table, (n - 1) as nat) + index_columns_in(items[n - 1], schema, table, items[n - 1].columns@.len())
    }
}

/// The columns of the first `n` indexes of a table.
fn index_columns_of_all(items: &Vec<IndexInfo>, schema: &str, table: &str) -> (r: Vec<Row>)
    ensures
        r.deep_view() == index_columns(items@, schema@, table@, items@.len()),
{
    let n: usize = items.len();
    let mut out = no_rows();
    let mut i: usize = 0;
    while i < n
        invariant
            n == items@.len(),
            i <= n,
            out.deep_view() == index_columns(items@, schema@, table@, i as nat),
        decreases n - i,
    {
        append_rows(&mut out, index_columns_for(&items[i], schema, table));
        i += 1;
    }
    out
}

/// The columns of the indexes of a table that is not one of the engine's own.
pub open spec fn table_indexes_of(t: TableInfo) -> Rows {
    if is_system(t.name@) {
        Seq::empty()
    } else {
        index_columns(t.indexes@, t.schema@, t.name@, t.indexes@.len())
    }
}

fn user_table_indexes(t: &TableInfo) -> (r: Vec<Row>)
    ensures
        r.deep_view() == table_indexes_of(*t),
{
    if system(t.name.as_str()) {
        no_rows()
    } else {
        index_columns_of_all(&t.indexes, t.schema.as_str(), t.name.as_str())
    }
}

/// The columns of the indexes of the first `n` tables.
pub open spec fn table_indexes(items: Seq<TableInfo>, n: nat) -> Rows
    decreases n,
{
    if n == 0 {
        Seq::empty()
    } else {
        table_indexes(items, (n - 1) as nat) + table_indexes_of(items[n - 1])
    }
}

/// The columns of the indexes of the first `n` tables.
fn table_index_rows(items: &Vec<TableInfo>) -> (r: Vec<Row>)
    ensures
        r.deep_view() == table_indexes(items@, items@.len()),
{
    let n: usize = items.len();
    let mut out = no_rows();
    let mut i: usize = 0;
    while i < n
        invariant
            n == items@.len(),
            i <= n,
            out.deep_view() == table_indexes(items@, i as nat),
        decreases n - i,
    {
        append_rows(&mut out, user_table_indexes(&items[i]));
        i += 1;
    }
    out
}

/// The row of a vector index, where its table and column exist.
pub open spec fn vector_index_of(v: VectorIndexInfo) -> Rows {
    match v.columns {
        Some(columns) => if v.ordinal < columns@.len() {
            seq![
                index_row("public"@, v.table@, false, v.name@, 0, columns@[v.ordinal as int]@),
            ]
        } else {
            Seq::empty()
        },
        None => Seq::empty(),
    }
}

fn vector_index_for(v: &VectorIndexInfo) -> (r: Vec<Row>)
    ensures
        r.deep_view() == vector_index_of(*v),
{
    match &v.columns {
        Some(columns) => {
            let at: usize = v.ordinal;
            if at < columns.len() {
                one_row(
                    make_index_row(
                        "public",
                        v.table.as_str(),
                        false,
                        v.name.as_str(),
                        0,
                        columns[at].as_str(),
                    ),
                )
            } else {
                no_rows()
            }
        },
        None => no_rows(),
    }
}

/// The rows of the first `n` vector indexes.
pub open spec fn vector_indexes(items: Seq<VectorIndexInfo>, n: nat) -> Rows
    decreases n,
{
    if n == 0 {
        Seq::empty()
    } else {
        vector_indexes(items, (n - 1) as nat) + vector_index_of(items[n - 1])
    }
}

/// The rows of the first `n` vector indexes.
fn vector_index_rows(items: &Vec<VectorIndexInfo>) -> (r: Vec<Row>)
    ensures
        r.deep_view() == vector_indexes(items@, items@.len()),
{
    let n: usize = items.len();
    let mut out = no_rows();
    let mut i: usize = 0;
    while i < n
        invariant
            n == items@.len(),
            i <= n,
            out.deep_view() == vector_indexes(items@, i as nat),
        decreases n - i,
    {
        append_rows(&mut out, vector_index_for(&items[i]));
        i += 1;
    }
    out
}

/// `information_schema.statistics`: one row for each column of each index, with its position; then one
/// for each vector index.
pub fn info_schema_statistics(tables: &Vec<TableInfo>, vectors: &Vec<VectorIndexInfo>) -> (r: Vec<Row>)
    ensures
        r.deep_view() == table_indexes(tables@, tables@.len()) + vector_indexes(
            vectors@,
            vectors@.len(),
        ),
{
    let mut out = table_index_rows(tables);
    append_rows(&mut out, vector_index_rows(vectors));
    out
}

// ---------------------------------------------------------------- privileges and roles

/// The grant is one that the session may know of: it is to everybody, or to or from a role that the
/// session has; a superuser knows of all.
pub open spec fn may_see(g: GrantInfo, superuser: bool, roles: Seq<String>) -> bool {
    superuser || g.to_public || (!g.to_public && lists(roles, g.grantee@)) || lists(roles, g.grantor@)
}

/// The schema and the name of an object; one without a schema is in `public`.
pub open spec fn qualified(object: Seq<char>) -> (Seq<char>, Seq<char>) {
    match catalog::cut_at(object, '.') {
        Some((schema, name)) => (schema, name),
        None => ("public"@, object),
    }
}

/// A privilege on a table.
pub open spec fn privilege_row(g: GrantInfo, schema: Seq<char>, name: Seq<char>) -> Seq<ValueView> {
    seq![
        ValueView::Text(g.grantor@),
        ValueView::Text(g.grantee@),
        ValueView::Text("nusadb"@),
        ValueView::Text(schema),
        ValueView::Text(name),
        ValueView::Text(g.privilege@),
        ValueView::Text(yes_no(g.grantable)),
    ]
}

fn make_privilege_row(g: &GrantInfo, schema: &str, name: &str) -> (r: Row)
    ensures
        r.deep_view() == privilege_row(*g, schema@, name@),
{
    let mut row: Vec<Value> = Vec::new();
    row.push(text_value(g.grantor.as_str()));
    row.push(text_value(g.grantee.as_str()));
    row.push(text_value("nusadb"));
    row.push(text_value(schema));
    row.push(text_value(name));
    row.push(text_value(g.privilege.as_str()));
    row.push(text_value(yes_or_no(g.grantable)));
    assert(row.deep_view() =~= privilege_row(*g, schema@, name@));
    row
}

/// The row of a grant on a table that the session may know of.
pub open spec fn privilege_of(g: GrantInfo, superuser: bool, roles: Seq<String>) -> Rows {
    if g.on_table && may_see(g, superuser, roles) {
        seq![privilege_row(g, qualified(g.object@).0, qualified(g.object@).1)]
    } else {
        Seq::empty()
    }
}

fn privilege_for(g: &GrantInfo, superuser: bool, roles: &Vec<String>) -> (r: Vec<Row>)
    ensures
        r.deep_view() == privilege_of(*g, superuser, roles@),
{
    if !g.on_table {
        return no_rows();
    }
    let visible: bool = superuser || g.to_public || contains(roles, g.grantee.as_str()) || contains(
        roles,
        g.grantor.as_str(),
    );
    if !visible {
        return no_rows();
    }
    match cut_text(g.object.as_str(), '.') {
        Some((schema, name)) => one_row(make_privilege_row(g, schema.as_str(), name.as_str())),
        None => one_row(make_privilege_row(g, "public", g.object.as_str())),
    }
}

/// The rows of the first `n` grants.
pub open spec fn privileges(items: Seq<GrantInfo>, superuser: bool, roles: Seq<String>, n: nat) -> Rows
    decreases n,
{
    if n == 0 {
        Seq::empty()
    } else {
        privileges(items, superuser, roles, (n - 1) as nat) + privilege_of(items[n - 1], superuser, roles)
    }
}

/// `information_schema.table_privileges`: one row for each privilege on a table that the session, with
/// these roles, may know of.
pub fn info_schema_table_privileges(items: &Vec<GrantInfo>, superuser: bool, roles: &Vec<String>) -> (r: Vec<Row>)
    ensures
        r.deep_view() == privileges(items@, superuser, roles@, items@.len()),
{
    let n: usize = items.len();
    let mut out = no_rows();
    let mut i: usize = 0;
    while i < n
        invariant
            n == items@.len(),
            i <= n,
            out.deep_view() == privileges(items@, superuser, roles@, i as nat),
        decreases n - i,
    {
        append_rows(&mut out, privilege_for(&items[i], superuser, roles));
        i += 1;
    }
    out
}

/// A membership.
pub open spec fn membership_row(m: MembershipInfo) -> Seq<ValueView> {
    seq![
        ValueView::Text(m.member@),
        ValueView::Text(m.role@),
        ValueView::Text(yes_no(m.admin)),
    ]
}

fn make_membership_row(m: &MembershipInfo) -> (r: Row)
    ensures
        r.deep_view() == membership_row(*m),
{
    let mut row: Vec<Value> = Vec::new();
    row.push(text_value(m.member.as_str()));
    row.push(text_value(m.role.as_str()));
    row.push(text_value(yes_or_no(m.admin)));
    assert(row.deep_view() =~= membership_row(*m));
    row
}

/// The row of a membership of a role that the session has; a superuser sees all.
pub open spec fn membership_of(m: MembershipInfo, superuser: bool, roles: Seq<String>) -> Rows {
    if superuser || lists(roles, m.member@) {
        seq![membership_row(m)]
    } else {
        Seq::empty()
    }
}

fn membership_for(m: &MembershipInfo, superuser: bool, roles: &Vec<String>) -> (r: Vec<Row>)
    ensures
        r.deep_view() == membership_of(*m, superuser, roles@),
{
    if superuser || contains(roles, m.member.as_str()) {
        one_row(make_membership_row(m))
    } else {
        no_rows()
    }
}

/// The rows of the first `n` memberships.
pub open spec fn memberships(items: Seq<MembershipInfo>, superuser: bool, roles: Seq<String>, n: nat) -> Rows
    decreases n,
{
    if n == 0 {
        Seq::empty()
    } else {
        memberships(items, superuser, roles, (n - 1) as nat) + membership_of(items[n - 1], superuser, roles)
    }
}

/// `information_schema.applicable_roles`: one row for each membership that the session may see.
pub fn info_schema_applicable_roles(items: &Vec<MembershipInfo>, superuser: bool, roles: &Vec<String>) -> (r: Vec<Row>)
    ensures
        r.deep_view() == memberships(items@, superuser, roles@, items@.len()),
{
    let n: usize = items.len();
    let mut out = no_rows();
    let mut i: usize = 0;
    while i < n
        invariant
            n == items@.len(),
            i <= n,
            out.deep_view() == memberships(items@, superuser, roles@, i as nat),
        decreases n - i,
    {
        append_rows(&mut out, membership_for(&items[i], superuser, roles));
        i += 1;
    }
    out
}

fn text_row(s: &str) -> (r: Row)
    ensures
        r.deep_view() == seq![ValueView::Text(s@)],
{
    let mut row: Vec<Value> = Vec::new();
    row.push(text_value(s));
    assert(row.deep_view() =~= seq![ValueView::Text(s@)]);
    row
}

/// The first `n` roles.
pub open spec fn enabled_roles(items: Seq<String>, n: nat) -> Rows
    decreases n,
{
    if n == 0 {
        Seq::empty()
    } else {
        enabled_roles(items, (n - 1) as nat) + seq![seq![ValueView::Text(items[n - 1]@)]]
    }
}

/// `information_schema.enabled_roles`: one row for each role that the session acts as.
pub fn info_schema_enabled_roles(items: &Vec<String>) -> (r: Vec<Row>)
    ensures
        r.deep_view() == enabled_roles(items@, items@.len()),
{
    let n: usize = items.len();
    let mut out = no_rows();
    let mut i: usize = 0;
    while i < n
        invariant
            n == items@.len(),
            i <= n,
            out.deep_view() == enabled_roles(items@, i as nat),
        decreases n - i,
    {
        append_rows(&mut out, one_row(text_row(items[i].as_str())));
        i += 1;
    }
    out
}

// ---------------------------------------------------------------- routines, sequences, views, schemas

/// The language that a function is written in.
pub open spec fn language_name(script: bool) -> Seq<char> {
    if script {
        "NUSASCRIPT"@
    } else {
        "SQL"@
    }
}

fn language_text(script: bool) -> (r: &'static str)
    ensures
        r@ == language_name(script),
{
    if script {
        "NUSASCRIPT"
    } else {
        "SQL"
    }
}

/// A function.
pub open spec fn function_row(f: FunctionInfo) -> Seq<ValueView> {
    seq![
        ValueView::Text("nusadb"@),
        ValueView::Text("public"@),
        ValueView::Text(f.name@),
        ValueView::Text("FUNCTION"@),
        ValueView::Text(data_type_name(f.return_type)),
        ValueView::Text(language_name(f.script)),
        ValueView::Text(f.body@),
    ]
}

fn make_function_row(f: &FunctionInfo) -> (r: Row)
    ensures
        r.deep_view() == function_row(*f),
{
    let mut row: Vec<Value> = Vec::new();
    row.push(text_value("nusadb"));
    row.push(text_value("public"));
    row.push(text_value(f.name.as_str()));
    row.push(text_value("FUNCTION"));
    row.push(text_value(info_schema_data_type(&f.return_type)));
    row.push(text_value(language_text(f.script)));
    row.push(text_value(f.body.as_str()));
    assert(row.deep_view() =~= function_row(*f));
    row
}

/// The rows of the first `n` functions.
pub open spec fn function_rows(items: Seq<FunctionInfo>, n: nat) -> Rows
    decreases n,
{
    if n == 0 {
        Seq::empty()
    } else {
        function_rows(items, (n - 1) as nat) + seq![function_row(items[n - 1])]
    }
}

/// The rows of the first `n` functions.
fn function_rows_for(items: &Vec<FunctionInfo>) -> (r: Vec<Row>)
    ensures
        r.deep_view() == function_rows(items@, items@.len()),
{
    let n: usize = items.len();
    let mut out = no_rows();
    let mut i: usize = 0;
    while i < n
        invariant
            n == items@.len(),
            i <= n,
            out.deep_view() == function_rows(items@, i as nat),
        decreases n - i,
    {
        append_rows(&mut out, one_row(make_function_row(&items[i])));
        i += 1;
    }
    out
}

/// A procedure, which has no return type.
pub open spec fn procedure_row(p: ProcedureInfo) -> Seq<ValueView> {
    seq![
        ValueView::Text("nusadb"@),
        ValueView::Text("public"@),
        ValueView::Text(p.name@),
        ValueView::Text("PROCEDURE"@),
        ValueView::Null,
        ValueView::Text("SQL"@),
        ValueView::Text(p.body@),
    ]
}

fn make_procedure_row(p: &ProcedureInfo) -> (r: Row)
    ensures
        r.deep_view() == procedure_row(*p),
{
    let mut row: Vec<Value> = Vec::new();
    row.push(text_value("nusadb"));
    row.push(text_value("public"));
    row.push(text_value(p.name.as_str()));
    row.push(text_value("PROCEDURE"));
    row.push(Value::Null);
    row.push(text_value("SQL"));
    row.push(text_value(p.body.as_str()));
    assert(row.deep_view() =~= procedure_row(*p));
    row
}

/// The rows of the first `n` procedures.
pub open spec fn procedure_rows(items: Seq<ProcedureInfo>, n: nat) -> Rows
    decreases n,
{
    if n == 0 {
        Seq::empty()
    } else {
        procedure_rows(items, (n - 1) as nat) + seq![procedure_row(items[n - 1])]
    }
}

/// The rows of the first `n` procedures.
fn procedure_rows_for(items: &Vec<ProcedureInfo>) -> (r: Vec<Row>)
    ensures
        r.deep_view() == procedure_rows(items@, items@.len()),
{
    let n: usize = items.len();
    let mut out = no_rows();
    let mut i: usize = 0;
    while i < n
        invariant
            n == items@.len(),
            i <= n,
            out.deep_view() == procedure_rows(items@, i as nat),
        decreases n - i,
    {
        append_rows(&mut out, one_row(make_procedure_row(&items[i])));
        i += 1;
    }
    out
}

/// `information_schema.routines`: one row for each function, then one for each procedure.
pub fn info_schema_routines(functions: &Vec<FunctionInfo>, procedures: &Vec<ProcedureInfo>) -> (r: Vec<
    Row,
>)
    ensures
        r.deep_view() == function_rows(functions@, functions@.len()) + procedure_rows(
            procedures@,
            procedures@.len(),
        ),
{
    let mut out = function_rows_for(functions);
    append_rows(&mut out, procedure_rows_for(procedures));
    out
}

/// A sequence of 64-bit integers.
pub open spec fn sequence_row(d: SequenceDef) -> Seq<ValueView> {
    seq![
        ValueView::Text("nusadb"@),
        ValueView::Text("public"@),
        ValueView::Text(d.name@),
        ValueView::Text("bigint"@),
        ValueView::Int(64),
        ValueView::Int(2),
        ValueView::Int(0),
        ValueView::Text(numbers::decimal(d.start as int)),
        ValueView::Text(numbers::decimal(d.min_value as int)),
        ValueView::Text(numbers::decimal(d.max_value as int)),
        ValueView::Text(numbers::decimal(d.increment as int)),
        ValueView::Text(yes_no(d.cycle)),
    ]
}

fn make_sequence_row(d: &SequenceDef) -> (r: Row)
    ensures
        r.deep_view() == sequence_row(*d),
{
    let mut row: Vec<Value> = Vec::new();
    row.push(text_value("nusadb"));
    row.push(text_value("public"));
    row.push(text_value(d.name.as_str()));
    row.push(text_value("bigint"));
    row.push(Value::Int(64));
    row.push(Value::Int(2));
    row.push(Value::Int(0));
    row.push(Value::Text(print_i64(d.start)));
    row.push(Value::Text(print_i64(d.min_value)));
    row.push(Value::Text(print_i64(d.max_value)));
    row.push(Value::Text(print_i64(d.increment)));
    row.push(text_value(yes_or_no(d.cycle)));
    assert(row.deep_view() =~= sequence_row(*d));
    row
}

/// The rows of the first `n` sequences.
pub open spec fn sequence_rows(items: Seq<SequenceDef>, n: nat) -> Rows
    decreases n,
{
    if n == 0 {
        Seq::empty()
    } else {
        sequence_rows(items, (n - 1) as nat) + seq![sequence_row(items[n - 1])]
    }
}

/// `information_schema.sequences`: one row for each sequence.
pub fn info_schema_sequences(items: &Vec<SequenceDef>) -> (r: Vec<Row>)
    ensures
        r.deep_view() == sequence_rows(items@, items@.len()),
{
    let n: usize = items.len();
    let mut out = no_rows();
    let mut i: usize = 0;
    while i < n
        invariant
            n == items@.len(),
            i <= n,
            out.deep_view() == sequence_rows(items@, i as nat),
        decreases n - i,
    {
        append_rows(&mut out, one_row(make_sequence_row(&items[i])));
        i += 1;
    }
    out
}

/// A view and its definition.
pub open spec fn view_row(name: Seq<char>, definition: Seq<char>) -> Seq<ValueView> {
    seq![
        ValueView::Text("nusadb"@),
        ValueView::Text("public"@),
        ValueView::Text(name),
        ValueView::Text(definition),
    ]
}

fn make_view_row(name: &str, definition: &str) -> (r: Row)
    ensures
        r.deep_view() == view_row(name@, definition@),
{
    let mut row: Vec<Value> = Vec::new();
    row.push(text_value("nusadb"));
    row.push(text_value("public"));
    row.push(text_value(name));
    row.push(text_value(definition));
    assert(row.deep_view() =~= view_row(name@, definition@));
    row
}

/// The row of the view that a catalog row of two texts records.
pub open spec fn view_of(row: Seq<ValueView>) -> Rows {
    if row.len() == 2 {
        match (row[0], row[1]) {
            (ValueView::Text(name), ValueView::Text(definition)) => seq![view_row(name, definition)],
            _ => Seq::empty(),
        }
    } else {
        Seq::empty()
    }
}

fn view_for(row: &Row) -> (r: Vec<Row>)
    ensures
        r.deep_view() == view_of(row.deep_view()),
{
    if row.len() != 2 {
        return no_rows();
    }
    assert(row.deep_view()[0] == row@[0]@ && row.deep_view()[1] == row@[1]@);
    match (&row[0], &row[1]) {
        (Value::Text(name), Value::Text(definition)) => one_row(
            make_view_row(name.as_str(), definition.as_str()),
        ),
        _ => no_rows(),
    }
}

/// The views that the first `n` catalog rows record.
pub open spec fn view_rows(rows: Rows, n: nat) -> Rows
    decreases n,
{
    if n == 0 {
        Seq::empty()
    } else {
        view_rows(rows, (n - 1) as nat) + view_of(rows[n - 1])
    }
}

/// `information_schema.views`: one row for each view that the catalog records.
pub fn info_schema_views(rows: &Vec<Row>) -> (r: Vec<Row>)
    ensures
        r.deep_view() == view_rows(rows.deep_view(), rows@.len()),
{
    let n: usize = rows.len();
    let mut out = no_rows();
    let mut i: usize = 0;
    while i < n
        invariant
            n == rows@.len(),
            i <= n,
            out.deep_view() == view_rows(rows.deep_view(), i as nat),
        decreases n - i,
    {
        assert(rows.deep_view()[i as int] == rows@[i as int].deep_view());
        append_rows(&mut out, view_for(&rows[i]));
        i += 1;
    }
    out
}

/// The names of all schemas: the two that always are, and those created.
pub open spec fn schema_names(created: Seq<String>) -> Seq<ValueView> {
    seq![ValueView::Text("public"@), ValueView::Text("information_schema"@)] + Seq::new(
        created.len(),
        |i: int| ValueView::Text(created[i]@),
    )
}

/// One row for each schema, with its owner.
pub open spec fn schema_rows(created: Seq<String>, owner: Seq<char>) -> Rows {
    Seq::new(
        schema_names(created).len(),
        |i: int| seq![ValueView::Text("nusadb"@), schema_names(created)[i], ValueView::Text(owner)],
    )
}

fn schema_row(name: &str, owner: &str) -> (r: Row)
    ensures
        r.deep_view() == seq![
            ValueView::Text("nusadb"@),
            ValueView::Text(name@),
            ValueView::Text(owner@),
        ],
{
    let mut row: Vec<Value> = Vec::new();
    row.push(text_value("nusadb"));
    row.push(text_value(name));
    row.push(text_value(owner));
    assert(row.deep_view() =~= seq![
        ValueView::Text("nusadb"@),
        ValueView::Text(name@),
        ValueView::Text(owner@),
    ]);
    row
}

/// `information_schema.schemata`: one row for each schema, by name.
pub fn info_schema_schemata(created: &Vec<String>, owner: &str) -> (r: Vec<Row>)
    ensures
        r.deep_view() == sort::picked(
            schema_rows(created@, owner@),
            column::ascending(schema_names(created@)),
        ),
{
    let n: usize = created.len();
    let ghost names = schema_names(created@);
    let ghost want = schema_rows(created@, owner@);
    let ghost singles = column::singles(names);
    let mut rows: Vec<Row> = Vec::new();
    rows.push(schema_row("public", owner));
    rows.push(schema_row("information_schema", owner));
    let mut keys: Vec<Vec<Value>> = Vec::new();
    keys.push(text_row("public"));
    keys.push(text_row("information_schema"));
    let mut i: usize = 0;
    while i < n
        invariant
            n == created@.len(),
            names == schema_names(created@),
            want == schema_rows(created@, owner@),
            singles == column::singles(names),
            i <= n,
            rows@.len() == i + 2,
            keys@.len() == i + 2,
            forall|k: int| 0 <= k < i + 2 ==> (#[trigger] rows@[k]).deep_view() == want[k],
            forall|k: int| 0 <= k < i + 2 ==> (#[trigger] keys@[k]).deep_view() == singles[k],
        decreases n - i,
    {
        assert(names[i + 2] == ValueView::Text(created@[i as int]@));
        rows.push(schema_row(created[i].as_str(), owner));
        keys.push(text_row(created[i].as_str()));
        i += 1;
    }
    assert(rows.deep_view() =~= want);
    assert(keys.deep_view() =~= singles);
    let mut ks: Vec<SortKey> = Vec::new();
    ks.push(SortKey { ascending: true, nulls: NullOrdering::Default });
    assert(ks@ =~= column::upward());
    sort_rows(&ColumnOrder, &rows, &keys, &ks)
}

// ---------------------------------------------------------------- laws

/// No view lists a table of the engine's own, nor its columns, constraints or indexes.
pub proof fn law_system_tables_stay_hidden(name: TableName, t: TableInfo, synthetic: Seq<char>)
    requires
        name.name@ == t.name@,
        is_system(t.name@),
    ensures
        table_rows_of(name).len() == 0,
        column_rows_of(t).len() == 0,
        constraint_rows_of(t, synthetic).len() == 0,
        check_rows_of(t, synthetic).len() == 0,
        key_usage_of(t).len() == 0,
        reference_rows_of(t).len() == 0,
        table_indexes_of(t).len() == 0,
{
}

/// A session that is no superuser sees a grant only where it is to everybody, or to or from a role
/// that it has; a superuser sees every grant on a table.
pub proof fn law_grants_are_seen_by_those_concerned(g: GrantInfo, superuser: bool, roles: Seq<String>)
    ensures
        privilege_of(g, superuser, roles).len() > 0 ==> superuser || g.to_public || lists(
            roles,
            g.grantee@,
        ) || lists(roles, g.grantor@),
        superuser && g.on_table ==> privilege_of(g, superuser, roles).len() == 1,
{
}

} // verus!
