//! Subqueries over departments and employees, resolved and evaluated row by row.
use nusadb_sql::error::Error;
use nusadb_sql::expr::{
    contains_subquery, resolve_subqueries, BinaryOp, Expr, Node, Op, PlanId, Resolution, SelectPlan,
};
use nusadb_sql::operators::filter_rows;
use nusadb_sql::order::{ColumnOrder, NullOrdering, SortKey};
use nusadb_sql::series::{eval_set_returning, wrap_elements, ElementKind, SetFunc, SetStep, SetTask};
use nusadb_sql::sort::sort_rows;
use nusadb_sql::types::ColumnType;
use nusadb_sql::value::{Decimal, Row, Value};

fn num(i: i64) -> Value {
    Value::Int(i)
}

fn text(s: &str) -> Value {
    Value::Text(s.to_owned())
}

/// Departments: id, name.
fn dept() -> Vec<Row> {
    [(1, "eng"), (2, "sales"), (3, "empty")].iter().map(|(i, n)| vec![num(*i), text(n)]).collect()
}

/// Employees: id, department, salary.
fn emp() -> Vec<Row> {
    [(1, 1, 100), (2, 1, 200), (3, 2, 50)]
        .iter()
        .map(|(i, d, s)| vec![num(*i), num(*d), num(*s)])
        .collect()
}

fn lit(v: Value) -> Expr {
    Expr { node: Node::Literal(v), ty: ColumnType::Int, children: vec![] }
}

fn op(op: Op, children: Vec<Expr>) -> Expr {
    Expr { node: Node::Op(op), ty: ColumnType::Int, children }
}

fn column(i: usize) -> Expr {
    op(Op::Column(i), vec![])
}

fn outer(index: usize) -> Expr {
    op(Op::OuterColumn { level: 1, index }, vec![])
}

fn plan(projection: Expr, filter: Option<Expr>) -> SelectPlan {
    SelectPlan {
        projection: vec![projection],
        filter,
        having: None,
        group_keys: vec![],
        distinct_on: vec![],
        order_by: vec![],
        joins: vec![],
        aggregates: vec![],
        windows: vec![],
        from_cte: None,
        recursive_ctes: vec![],
    }
}

/// What a subquery makes of the rows that pass its filter.
#[derive(Clone, Copy)]
enum Makes {
    Ones,
    Count,
    Average,
}

/// A query over a table, with one subquery over the employees.
struct Query {
    plans: Vec<SelectPlan>,
    makes: Makes,
    runs: usize,
}

impl Query {
    fn new(filter: Option<Expr>, makes: Makes) -> Query {
        Query { plans: vec![plan(lit(num(1)), filter)], makes, runs: 0 }
    }

    fn value(&self, e: &Expr, row: &Row, outer: &Row) -> Value {
        match &e.node {
            Node::Literal(Value::Int(i)) => num(*i),
            Node::Literal(Value::Bool(b)) => Value::Bool(*b),
            Node::Literal(Value::Numeric(d)) => Value::Numeric(*d),
            Node::Op(Op::Column(i)) => copy(&row[*i]),
            Node::Op(Op::OuterColumn { index, .. }) => copy(&outer[*index]),
            Node::Op(Op::Binary(b)) => {
                let l = scaled(&self.value(&e.children[0], row, outer));
                let r = scaled(&self.value(&e.children[1], row, outer));
                match (b, l, r) {
                    (BinaryOp::Eq, Some(x), Some(y)) => Value::Bool(x == y),
                    (BinaryOp::Gt, Some(x), Some(y)) => Value::Bool(x > y),
                    _ => Value::Null,
                }
            }
            _ => Value::Null,
        }
    }

    /// Run the subquery for the row of the enclosing query.
    fn subquery(&mut self, id: PlanId, outer: &Row) -> Vec<Row> {
        self.runs += 1;
        let rows = emp();
        let kept = match &self.plans[id].filter {
            Some(f) => {
                let verdicts: Vec<Value> = rows.iter().map(|r| self.value(f, r, outer)).collect();
                filter_rows(&rows, &verdicts)
            }
            None => rows,
        };
        match self.makes {
            Makes::Ones => kept.iter().map(|_| vec![num(1)]).collect(),
            Makes::Count => vec![vec![num(kept.len() as i64)]],
            Makes::Average => {
                let sum: i128 = kept.iter().filter_map(|r| scaled(&r[2])).sum();
                let mantissa = sum / kept.len() as i128;
                vec![vec![Value::Numeric(Decimal { mantissa, scale: 6 })]]
            }
        }
    }

    fn resolve(&mut self, e: &Expr, defer: bool, outer: &Row) -> Result<Expr, Error> {
        let mut answers: Vec<Vec<Row>> = Vec::new();
        loop {
            match resolve_subqueries(e, defer, &self.plans, &answers, 0)? {
                Resolution::Complete { expr, .. } => return Ok(expr),
                Resolution::Needs(id) => answers.push(self.subquery(id, outer)),
            }
        }
    }

    /// The expression for each row: what can be resolved once is, and the rest for each row.
    fn values(&mut self, e: &Expr, rows: &Vec<Row>) -> Vec<Value> {
        let none: Row = Vec::new();
        let once = self.resolve(e, true, &none).unwrap();
        rows.iter()
            .map(|row| {
                if contains_subquery(&once) {
                    let each = self.resolve(&once, false, row).unwrap();
                    self.value(&each, row, &none)
                } else {
                    self.value(&once, row, &none)
                }
            })
            .collect()
    }
}

fn copy(v: &Value) -> Value {
    match v {
        Value::Int(i) => num(*i),
        Value::Text(s) => text(s),
        _ => Value::Null,
    }
}

/// A number in millionths.
fn scaled(v: &Value) -> Option<i128> {
    match v {
        Value::Int(i) => Some(i128::from(*i) * 1_000_000),
        Value::Numeric(Decimal { mantissa, scale: 6 }) => Some(*mantissa),
        _ => None,
    }
}

fn sorted(rows: Vec<Row>) -> Vec<Row> {
    let keys: Vec<Vec<Value>> = rows.iter().map(|r| vec![copy(&r[0])]).collect();
    let asc = vec![SortKey { ascending: true, nulls: NullOrdering::Default }];
    sort_rows(&ColumnOrder, &rows, &keys, &asc)
}

fn project(rows: Vec<Row>, i: usize) -> Vec<Row> {
    rows.iter().map(|r| vec![copy(&r[i])]).collect()
}

/// `dept = <outer id>`
fn of_department(outer_column: usize) -> Option<Expr> {
    Some(op(Op::Binary(BinaryOp::Eq), vec![column(1), outer(outer_column)]))
}

#[test]
fn correlated_exists_filters_on_outer_row() {
    let mut q = Query::new(of_department(0), Makes::Ones);
    let rows = dept();
    let verdicts = q.values(&op(Op::Exists { plan: 0, negated: false }, vec![]), &rows);
    let names = sorted(project(filter_rows(&rows, &verdicts), 1));
    assert_eq!(names, vec![vec![text("eng")], vec![text("sales")]]);
    assert_eq!(q.runs, 3);
}

#[test]
fn correlated_not_exists_keeps_unmatched_outer_rows() {
    let mut q = Query::new(of_department(0), Makes::Ones);
    let rows = dept();
    let verdicts = q.values(&op(Op::Exists { plan: 0, negated: true }, vec![]), &rows);
    assert_eq!(project(filter_rows(&rows, &verdicts), 1), vec![vec![text("empty")]]);
}

#[test]
fn correlated_scalar_subquery_in_where_compares_per_group_aggregate() {
    let mut q = Query::new(of_department(1), Makes::Average);
    let rows = emp();
    let above = op(Op::Binary(BinaryOp::Gt), vec![column(2), op(Op::ScalarSubquery(0), vec![])]);
    let verdicts = q.values(&above, &rows);
    assert_eq!(sorted(project(filter_rows(&rows, &verdicts), 0)), vec![vec![num(2)]]);
}

#[test]
fn correlated_scalar_subquery_in_select_list_counts_per_outer_row() {
    let mut q = Query::new(of_department(0), Makes::Count);
    let rows = dept();
    let counts = q.values(&op(Op::ScalarSubquery(0), vec![]), &rows);
    let pairs: Vec<Row> =
        rows.iter().zip(counts).map(|(r, n)| vec![copy(&r[1]), n]).collect();
    assert_eq!(sorted(pairs), vec![
        vec![text("empty"), num(0)],
        vec![text("eng"), num(2)],
        vec![text("sales"), num(1)],
    ]);
}

#[test]
fn uncorrelated_subquery_still_resolves_once() {
    let mut q = Query::new(None, Makes::Average);
    let rows = emp();
    let above = op(Op::Binary(BinaryOp::Gt), vec![column(2), op(Op::ScalarSubquery(0), vec![])]);
    let verdicts = q.values(&above, &rows);
    assert_eq!(sorted(project(filter_rows(&rows, &verdicts), 0)), vec![vec![num(2)]]);
    assert_eq!(q.runs, 1);
}

// ---------------------------------------------------------------- documents

fn json(s: &str) -> Value {
    Value::Json(s.to_owned())
}

/// The elements of a flat array of numbers; a document of another kind has none.
fn array_elements(doc: &str) -> Vec<Option<String>> {
    match doc.strip_prefix('[').and_then(|d| d.strip_suffix(']')) {
        Some(inner) => inner.split(',').map(|e| Some(e.to_owned())).collect(),
        None => vec![],
    }
}

#[test]
fn json_array_elements_expands_a_json_array() {
    let docs = ["[10,20,30]", r#"{"items":[{"n":1},{"n":2}],"k":"v"}"#];
    let expand = |doc: &str| match eval_set_returning(SetFunc::JsonArrayElements, &vec![json(doc)]) {
        Ok(SetStep::Ask(SetTask::JsonElements(d))) => {
            wrap_elements(ElementKind::Json, array_elements(&d))
        }
        other => panic!("{other:?}"),
    };
    assert_eq!(expand(docs[0]), vec![json("10"), json("20"), json("30")]);
    assert!(expand(docs[1]).is_empty());
}
