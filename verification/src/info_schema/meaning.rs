//! What each view of the catalog shows.
use vstd::prelude::*;
use crate::info_schema;
use crate::info_schema::{
    ColumnDefault, ConstraintInfo, ConstraintKind, FkAction, FunctionInfo, GrantInfo, IndexInfo,
    MembershipInfo, ProcedureInfo, TableInfo, TableName, VectorIndexInfo,
};
use crate::setops::Rows;
use crate::types::{CatalogType, ColumnType};
use crate::value::ValueView;

verus! {

// ---------------------------------------------------------------- tables

proof fn lemma_table_rows_prefix(items: Seq<TableName>, t: TableName, n: nat)
    requires
        n <= items.len(),
    ensures
        info_schema::table_rows(items.push(t), n) == info_schema::table_rows(items, n),
    decreases n,
{
    if n > 0 {
        lemma_table_rows_prefix(items, t, (n - 1) as nat);
        assert(items.push(t)[n - 1] == items[n - 1]);
    }
}

/// A table of a user is listed with its schema and name, after those before it; one of the engine's own is
/// not listed.
pub proof fn law_tables_are_listed(items: Seq<TableName>, t: TableName)
    ensures
        ({
            let before = info_schema::table_rows(items, items.len());
            let after = info_schema::table_rows(items.push(t), items.len() + 1);
            &&& info_schema::begins(t.name@, "nusadb_"@) ==> after == before
            &&& !info_schema::begins(t.name@, "nusadb_"@) ==> after == before.push(
                seq![
                    ValueView::Text("nusadb"@),
                    ValueView::Text(t.schema@),
                    ValueView::Text(t.name@),
                    ValueView::Text("BASE TABLE"@),
                ],
            )
        }),
{
    lemma_table_rows_prefix(items, t, items.len());
    let before = info_schema::table_rows(items, items.len());
    assert(before + Seq::<Seq<ValueView>>::empty() =~= before);
    assert(before + seq![info_schema::table_row(t)] =~= before.push(info_schema::table_row(t)));
}

/// One name begins with another if they agree up to the length of the latter.
pub proof fn law_prefixes_agree(s: Seq<char>, rest: Seq<char>, other: Seq<char>)
    ensures
        info_schema::begins(s + rest, s),
        other.len() < s.len() ==> !info_schema::begins(other, s),
        (exists|i: int| 0 <= i < s.len() && i < other.len() && s[i] != other[i]) ==> !info_schema::begins(other, s),
{
    assert((s + rest).take(s.len() as int) =~= s);
    if exists|i: int| 0 <= i < s.len() && i < other.len() && s[i] != other[i] {
        let i = choose|i: int| 0 <= i < s.len() && i < other.len() && s[i] != other[i];
        if other.len() >= s.len() {
            assert(other.take(s.len() as int)[i] == other[i]);
        }
    }
}

// ---------------------------------------------------------------- columns

/// The columns of a user's table are shown in their order and numbered from one, each with its type and
/// whether it may be NULL.
pub proof fn law_columns_are_numbered_from_one(t: TableInfo, i: int)
    requires
        !info_schema::is_system(t.name@),
        0 <= i < t.columns@.len() <= i64::MAX,
    ensures
        ({
            let rows = info_schema::column_rows_of(t);
            let column = t.columns@[i];
            &&& rows.len() == t.columns@.len()
            &&& rows[i].len() == 11
            &&& rows[i][1] == ValueView::Text(t.schema@)
            &&& rows[i][2] == ValueView::Text(t.name@)
            &&& rows[i][3] == ValueView::Text(column.name@)
            &&& rows[i][4] == ValueView::Int((i + 1) as i64)
            &&& column.nullable ==> rows[i][6] == ValueView::Text("YES"@)
            &&& !column.nullable ==> rows[i][6] == ValueView::Text("NO"@)
        }),
{
    lemma_column_rows(t, t.columns@.len());
}

proof fn lemma_column_rows(t: TableInfo, n: nat)
    ensures
        info_schema::column_rows_in(t, n).len() == n,
        forall|i: int|
            0 <= i < n ==> #[trigger] info_schema::column_rows_in(t, n)[i] == info_schema::column_row(t, i),
    decreases n,
{
    if n > 0 {
        lemma_column_rows(t, (n - 1) as nat);
    }
}

/// A declared length is shown of character types alone, precision and scale of numbers with a precision.
pub proof fn law_declared_limits_are_shown(t: TableInfo, i: int, n: u32, precision: u8, scale: u8)
    requires
        0 <= i < t.columns@.len(),
    ensures
        ({
            let row = info_schema::column_row(t, i);
            let ty = t.columns@[i].ty;
            &&& ty == CatalogType::Column(ColumnType::VarChar(n)) ==> row[7] == ValueView::Int(n as i64)
                && row[8] is Null && row[9] is Null
            &&& ty == CatalogType::Column(ColumnType::Char(n)) ==> row[7] == ValueView::Int(n as i64) && row[8] is Null
                && row[9] is Null
            &&& ty == CatalogType::Column(ColumnType::Numeric { precision, scale }) && precision > 0 ==> row[7] is Null
                && row[8] == ValueView::Int(precision as i64) && row[9] == ValueView::Int(scale as i64)
            &&& ty == CatalogType::Column(ColumnType::Numeric { precision: 0, scale }) ==> row[7] is Null
                && row[8] is Null && row[9] is Null
            &&& ty == CatalogType::Column(ColumnType::Text) ==> row[7] is Null && row[8] is Null && row[9] is Null
            &&& ty == CatalogType::Column(ColumnType::Int) ==> row[7] is Null && row[8] is Null && row[9] is Null
        }),
{
}

/// A column's default is shown as it was written, or as the next value of its sequence; a column without
/// one shows NULL.
pub proof fn law_defaults_are_shown(
    defaults: Seq<(String, ColumnDefault)>,
    name: Seq<char>,
    i: nat,
    sql: String,
    sequence: String,
)
    ensures
        i >= defaults.len() ==> info_schema::default_from(defaults, name, i) is Null,
        i < defaults.len() && defaults[i as int].0@ != name ==> info_schema::default_from(defaults, name, i)
            == info_schema::default_from(defaults, name, i + 1),
        i < defaults.len() && defaults[i as int].0@ == name && defaults[i as int].1 == ColumnDefault::Sql(sql)
            ==> info_schema::default_from(defaults, name, i) == ValueView::Text(sql@),
        i < defaults.len() && defaults[i as int].0@ == name && defaults[i as int].1 == ColumnDefault::Sequence(
            sequence,
        ) ==> info_schema::default_from(defaults, name, i) == ValueView::Text(
            "nextval('"@ + sequence@ + "')"@,
        ),
{
}

/// The types have their standard names.
pub proof fn law_types_have_their_standard_names(n: u32, precision: u8, scale: u8)
    ensures
        ({
            let name = |c: ColumnType| info_schema::data_type_name(CatalogType::Column(c));
            &&& name(ColumnType::Bool) == "boolean"@
            &&& name(ColumnType::SmallInt) == "smallint"@
            &&& name(ColumnType::Int) == "integer"@
            &&& name(ColumnType::BigInt) == "bigint"@
            &&& name(ColumnType::Real) == "real"@
            &&& name(ColumnType::Float) == "double precision"@
            &&& name(ColumnType::Text) == "text"@
            &&& name(ColumnType::VarChar(n)) == "character varying"@
            &&& name(ColumnType::Char(n)) == "character"@
            &&& name(ColumnType::Bytes) == "bytea"@
            &&& name(ColumnType::Date) == "date"@
            &&& name(ColumnType::Time) == "time without time zone"@
            &&& name(ColumnType::TimeTz) == "time with time zone"@
            &&& name(ColumnType::Timestamp) == "timestamp without time zone"@
            &&& name(ColumnType::TimestampTz) == "timestamp with time zone"@
            &&& name(ColumnType::Numeric { precision, scale }) == "numeric"@
            &&& name(ColumnType::Uuid) == "uuid"@
            &&& name(ColumnType::Json) == "json"@
            &&& name(ColumnType::Jsonb) == "jsonb"@
            &&& name(ColumnType::Interval) == "interval"@
        }),
{
}

// ---------------------------------------------------------------- constraints

/// A constraint is shown under its table with its kind, unless the engine named it itself; a check is shown
/// with its condition too, and other constraints are not shown as checks.
pub proof fn law_constraints_are_shown(t: TableInfo, synthetic: Seq<char>, n: nat)
    requires
        n < t.constraints@.len(),
    ensures
        ({
            let c = t.constraints@[n as int];
            let own = info_schema::begins(c.name@, synthetic);
            let before = info_schema::constraint_rows_in(t, synthetic, n);
            let after = info_schema::constraint_rows_in(t, synthetic, n + 1);
            let checks = info_schema::check_rows_in(t, synthetic, n);
            let more = info_schema::check_rows_in(t, synthetic, n + 1);
            &&& own ==> after == before && more == checks
            &&& !own ==> after.len() == before.len() + 1 && after.last()[2] == ValueView::Text(c.name@)
                && after.last()[5] == ValueView::Text(t.name@) && after.last()[6] == ValueView::Text(
                info_schema::kind_name(c.kind),
            )
            &&& !own && c.kind is Check ==> more.len() == checks.len() + 1 && more.last()[2] == ValueView::Text(
                c.name@,
            ) && (c.clause matches Some(s) ==> more.last()[3] == ValueView::Text(s@))
            &&& !(c.kind is Check) ==> more == checks
        }),
{
}

/// The kinds of constraints and the rules of foreign keys have their standard names.
pub proof fn law_kinds_and_rules_have_their_standard_names()
    ensures
        info_schema::kind_name(ConstraintKind::PrimaryKey) == "PRIMARY KEY"@,
        info_schema::kind_name(ConstraintKind::Unique) == "UNIQUE"@,
        info_schema::kind_name(ConstraintKind::ForeignKey) == "FOREIGN KEY"@,
        info_schema::kind_name(ConstraintKind::Check) == "CHECK"@,
        info_schema::rule_name(FkAction::NoAction) == "NO ACTION"@,
        info_schema::rule_name(FkAction::Restrict) == "RESTRICT"@,
        info_schema::rule_name(FkAction::Cascade) == "CASCADE"@,
        info_schema::rule_name(FkAction::SetNull) == "SET NULL"@,
        info_schema::rule_name(FkAction::SetDefault) == "SET DEFAULT"@,
{
}

/// The columns of a constraint are shown in their order, numbered from one.
pub proof fn law_key_columns_are_numbered_from_one(c: ConstraintInfo, table: Seq<char>, n: nat, i: int)
    requires
        0 <= i < n <= c.columns@.len() <= i64::MAX,
    ensures
        info_schema::key_columns_in(c, table, n).len() == n,
        info_schema::key_columns_in(c, table, n)[i][2] == ValueView::Text(c.name@),
        info_schema::key_columns_in(c, table, n)[i][5] == ValueView::Text(table),
        info_schema::key_columns_in(c, table, n)[i][6] == ValueView::Text(c.columns@[i]@),
        info_schema::key_columns_in(c, table, n)[i][7] == ValueView::Int((i + 1) as i64),
    decreases n,
{
    if i < n - 1 {
        law_key_columns_are_numbered_from_one(c, table, (n - 1) as nat, i);
    } else {
        lemma_key_columns_len(c, table, (n - 1) as nat);
    }
}

proof fn lemma_key_columns_len(c: ConstraintInfo, table: Seq<char>, n: nat)
    ensures
        info_schema::key_columns_in(c, table, n).len() == n,
    decreases n,
{
    if n > 0 {
        lemma_key_columns_len(c, table, (n - 1) as nat);
    }
}

/// A foreign key is shown under the table that has it, with the primary key or unique constraint that its
/// columns are those of, and what an update and a deletion do.
pub proof fn law_foreign_keys_name_what_they_refer_to(t: TableInfo, n: nat, i: nat)
    requires
        n < t.foreign_keys@.len(),
    ensures
        ({
            let k = t.foreign_keys@[n as int];
            let before = info_schema::reference_rows_in(t, n);
            let after = info_schema::reference_rows_in(t, n + 1);
            &&& k.child_table != t.id ==> after == before
            &&& k.child_table == t.id ==> after.len() == before.len() + 1 && after.last()[2] == ValueView::Text(
                k.name@,
            ) && after.last()[5] == info_schema::unique_from(k.parent_constraints@, k.parent_columns@, 0)
                && after.last()[7] == ValueView::Text(info_schema::rule_name(k.on_update)) && after.last()[8]
                == ValueView::Text(info_schema::rule_name(k.on_delete))
        }),
{
}

/// The constraint that a foreign key refers to is the first primary key or unique one on exactly its
/// columns, in their order.
pub proof fn law_referred_constraints_are_unique(
    constraints: Seq<ConstraintInfo>,
    columns: Seq<String>,
    i: nat,
)
    ensures
        i >= constraints.len() ==> info_schema::unique_from(constraints, columns, i) is Null,
        i < constraints.len() ==> ({
            let c = constraints[i as int];
            let same = c.columns@.len() == columns.len() && (forall|j: int|
                0 <= j < columns.len() ==> c.columns@[j]@ == #[trigger] columns[j]@);
            let found = info_schema::unique_from(constraints, columns, i);
            &&& same && c.kind is PrimaryKey ==> found == ValueView::Text(c.name@)
            &&& same && c.kind is Unique ==> found == ValueView::Text(c.name@)
            &&& !same || c.kind is Check || c.kind is ForeignKey ==> found == info_schema::unique_from(
                constraints,
                columns,
                i + 1,
            )
        }),
{
    if i < constraints.len() {
        let c = constraints[i as int];
        let same = c.columns@.len() == columns.len() && (forall|j: int|
            0 <= j < columns.len() ==> c.columns@[j]@ == #[trigger] columns[j]@);
        if same {
            assert(info_schema::same_names(c.columns@, columns));
        } else if info_schema::same_names(c.columns@, columns) {
            assert forall|j: int| 0 <= j < columns.len() implies c.columns@[j]@ == #[trigger] columns[j]@ by {
                assert(c.columns@[j]@ == columns[j]@);
            }
        }
    }
}

// ---------------------------------------------------------------- indexes

/// The columns of an index are shown in their order, numbered from one, with 0 for a unique index and 1 for
/// any other.
pub proof fn law_index_columns_are_numbered_from_one(
    x: IndexInfo,
    schema: Seq<char>,
    table: Seq<char>,
    n: nat,
    i: int,
)
    requires
        0 <= i < n <= x.columns@.len() <= i64::MAX,
    ensures
        ({
            let rows = info_schema::index_columns_in(x, schema, table, n);
            &&& rows.len() == n
            &&& rows[i][1] == ValueView::Text(schema)
            &&& rows[i][2] == ValueView::Text(table)
            &&& x.unique ==> rows[i][3] == ValueView::Int(0)
            &&& !x.unique ==> rows[i][3] == ValueView::Int(1)
            &&& rows[i][4] == ValueView::Text(x.name@)
            &&& rows[i][5] == ValueView::Int((i + 1) as i64)
            &&& rows[i][6] == ValueView::Text(x.columns@[i]@)
        }),
    decreases n,
{
    if i < n - 1 {
        law_index_columns_are_numbered_from_one(x, schema, table, (n - 1) as nat, i);
    } else {
        lemma_index_columns_len(x, schema, table, (n - 1) as nat);
    }
}

proof fn lemma_index_columns_len(x: IndexInfo, schema: Seq<char>, table: Seq<char>, n: nat)
    ensures
        info_schema::index_columns_in(x, schema, table, n).len() == n,
    decreases n,
{
    if n > 0 {
        lemma_index_columns_len(x, schema, table, (n - 1) as nat);
    }
}

/// A vector index is shown with its one column, as an index that is not unique, where its table has that
/// column.
pub proof fn law_vector_indexes_have_one_column(v: VectorIndexInfo, columns: Vec<String>)
    ensures
        v.columns is None ==> info_schema::vector_index_of(v).len() == 0,
        v.columns == Some(columns) && v.ordinal >= columns@.len() ==> info_schema::vector_index_of(v).len() == 0,
        v.columns == Some(columns) && v.ordinal < columns@.len() ==> ({
            let rows = info_schema::vector_index_of(v);
            &&& rows.len() == 1
            &&& rows[0][2] == ValueView::Text(v.table@)
            &&& rows[0][3] == ValueView::Int(1)
            &&& rows[0][4] == ValueView::Text(v.name@)
            &&& rows[0][5] == ValueView::Int(1)
            &&& rows[0][6] == ValueView::Text(columns@[v.ordinal as int]@)
        }),
{
}

// ---------------------------------------------------------------- privileges and roles

/// A privilege on a table is shown to a superuser, to everybody if it was granted to all, and else to those
/// who have the role of the grantee or of the grantor; to others it is not.
pub proof fn law_privileges_are_shown_to_those_concerned(g: GrantInfo, superuser: bool, roles: Seq<String>, i: int)
    ensures
        !g.on_table ==> info_schema::privilege_of(g, superuser, roles).len() == 0,
        g.on_table && superuser ==> info_schema::privilege_of(g, superuser, roles).len() == 1,
        g.on_table && g.to_public ==> info_schema::privilege_of(g, superuser, roles).len() == 1,
        g.on_table && 0 <= i < roles.len() && (roles[i]@ == g.grantee@ || roles[i]@ == g.grantor@)
            ==> info_schema::privilege_of(g, superuser, roles).len() == 1,
        !superuser && !g.to_public && (forall|j: int|
            0 <= j < roles.len() ==> (#[trigger] roles[j])@ != g.grantee@ && roles[j]@ != g.grantor@)
            ==> info_schema::privilege_of(g, superuser, roles).len() == 0,
        info_schema::privilege_of(g, superuser, roles).len() == 1 ==> ({
            let row = info_schema::privilege_of(g, superuser, roles)[0];
            &&& row[0] == ValueView::Text(g.grantor@)
            &&& row[1] == ValueView::Text(g.grantee@)
            &&& row[5] == ValueView::Text(g.privilege@)
            &&& g.grantable ==> row[6] == ValueView::Text("YES"@)
            &&& !g.grantable ==> row[6] == ValueView::Text("NO"@)
        }),
{
    if 0 <= i < roles.len() {
        assert(roles[i]@ == g.grantee@ ==> info_schema::lists(roles, g.grantee@));
        assert(roles[i]@ == g.grantor@ ==> info_schema::lists(roles, g.grantor@));
    }
}

/// A membership is shown to a superuser and to those who have the role of the member.
pub proof fn law_memberships_are_shown_to_members(m: MembershipInfo, superuser: bool, roles: Seq<String>, i: int)
    ensures
        superuser ==> info_schema::membership_of(m, superuser, roles).len() == 1,
        0 <= i < roles.len() && roles[i]@ == m.member@ ==> info_schema::membership_of(m, superuser, roles).len()
            == 1,
        !superuser && (forall|j: int| 0 <= j < roles.len() ==> (#[trigger] roles[j])@ != m.member@)
            ==> info_schema::membership_of(m, superuser, roles).len() == 0,
        info_schema::membership_row(m)[0] == ValueView::Text(m.member@),
        info_schema::membership_row(m)[1] == ValueView::Text(m.role@),
        m.admin ==> info_schema::membership_row(m)[2] == ValueView::Text("YES"@),
        !m.admin ==> info_schema::membership_row(m)[2] == ValueView::Text("NO"@),
{
    if 0 <= i < roles.len() {
        assert(roles[i]@ == m.member@ ==> info_schema::lists(roles, m.member@));
    }
}

// ---------------------------------------------------------------- routines and views

/// Functions are shown with the type that they return and their language, procedures without a type.
pub proof fn law_routines_are_shown(f: FunctionInfo, p: ProcedureInfo)
    ensures
        info_schema::function_row(f)[2] == ValueView::Text(f.name@),
        info_schema::function_row(f)[3] == ValueView::Text("FUNCTION"@),
        info_schema::function_row(f)[4] == ValueView::Text(info_schema::data_type_name(f.return_type)),
        f.script ==> info_schema::function_row(f)[5] == ValueView::Text("NUSASCRIPT"@),
        !f.script ==> info_schema::function_row(f)[5] == ValueView::Text("SQL"@),
        info_schema::function_row(f)[6] == ValueView::Text(f.body@),
        info_schema::procedure_row(p)[2] == ValueView::Text(p.name@),
        info_schema::procedure_row(p)[3] == ValueView::Text("PROCEDURE"@),
        info_schema::procedure_row(p)[4] is Null,
        info_schema::procedure_row(p)[5] == ValueView::Text("SQL"@),
        info_schema::procedure_row(p)[6] == ValueView::Text(p.body@),
{
}

/// A view is shown with its name and definition; a record of another shape is not.
pub proof fn law_views_are_shown_with_their_definition(row: Seq<ValueView>, name: Seq<char>, definition: Seq<char>)
    ensures
        row == seq![ValueView::Text(name), ValueView::Text(definition)] ==> ({
            let rows = info_schema::view_of(row);
            &&& rows.len() == 1
            &&& rows[0][2] == ValueView::Text(name)
            &&& rows[0][3] == ValueView::Text(definition)
        }),
        row.len() != 2 ==> info_schema::view_of(row).len() == 0,
{
}

/// The schemas are those that every database has and those that were created, each with the owner.
pub proof fn law_schemas_have_the_owner(created: Seq<String>, owner: Seq<char>, i: int)
    requires
        0 <= i < created.len(),
    ensures
        ({
            let rows: Rows = info_schema::schema_rows(created, owner);
            &&& rows.len() == created.len() + 2
            &&& rows[0][1] == ValueView::Text("public"@)
            &&& rows[1][1] == ValueView::Text("information_schema"@)
            &&& rows[i + 2][1] == ValueView::Text(created[i]@)
            &&& rows[i + 2][2] == ValueView::Text(owner)
        }),
{
}

} // verus!
