//! Expressions, statements and scripts.
use nusadb_sql::array_text::parse_array_text;
use nusadb_sql::bind::{bind, insert, modify, select, FromItem, Syntax, SyntaxNode};
use nusadb_sql::error::{Error, SequenceError};
use nusadb_sql::expr::{
    contains_sequence_call, contains_subquery, plan_has_outer_column, resolve_subqueries, resolved_expr,
    scalar_subquery_value, BinaryOp, Expr, Node, Op, Resolution, ScalarFunc, SelectPlan,
};
use nusadb_sql::names::NameMap;
use nusadb_sql::script::{
    message_text, run_block, Arm, Event, Flow, Request, ScriptBlock, ScriptError, ScriptState, ScriptStmt,
};
use nusadb_sql::sequence::{
    eval_sequence_call, resolve_sequence_calls, sequence_name, SequenceAction, SequenceResolution,
};
use nusadb_sql::types::ColumnType;
use nusadb_sql::value::{Row, Value};

fn text(s: &str) -> Value {
    Value::Text(s.to_owned())
}

fn lit(v: Value) -> Expr {
    Expr { node: Node::Literal(v), ty: ColumnType::Int, children: vec![] }
}

fn op(op: Op, children: Vec<Expr>) -> Expr {
    Expr { node: Node::Op(op), ty: ColumnType::Int, children }
}

fn column(i: usize) -> Expr {
    op(Op::Column(i), vec![])
}

/// A plan that projects one expression.
fn plan(projection: Expr, filter: Option<Expr>) -> SelectPlan {
    SelectPlan {
        projection: vec![projection],
        filter,
        having: None,
        group_keys: vec![],
        distinct_on: vec![],
        order_by: vec![],
        joins: vec![],
        aggregates: vec![],
        windows: vec![],
        from_cte: None,
        recursive_ctes: vec![],
    }
}

fn done(expr: Expr, used: usize) -> Result<Resolution, Error> {
    Ok(Resolution::Complete { expr, used })
}

// ---------------------------------------------------------------- subqueries

#[test]
fn a_subquery_without_outer_columns_is_asked_for_once() {
    // salary > (SELECT AVG(salary) FROM emp)
    let plans = vec![plan(column(0), None)];
    let e = op(Op::Binary(BinaryOp::Gt), vec![column(2), op(Op::ScalarSubquery(0), vec![])]);
    assert!(contains_subquery(&e));
    assert_eq!(resolve_subqueries(&e, true, &plans, &vec![], 0), Ok(Resolution::Needs(0)));
    let answers: Vec<Vec<Row>> = vec![vec![vec![Value::Int(116)]]];
    assert_eq!(
        resolve_subqueries(&e, true, &plans, &answers, 0),
        done(op(Op::Binary(BinaryOp::Gt), vec![column(2), lit(Value::Int(116))]), 1)
    );
}

#[test]
fn a_correlated_subquery_waits_for_its_row() {
    // EXISTS (SELECT 1 FROM emp e WHERE e.dept = d.id)
    let outer = op(Op::OuterColumn { level: 1, index: 0 }, vec![]);
    let filter = op(Op::Binary(BinaryOp::Eq), vec![column(1), outer]);
    let plans = vec![plan(lit(Value::Int(1)), Some(filter))];
    assert!(plan_has_outer_column(&plans, 0));
    let e = op(Op::Exists { plan: 0, negated: false }, vec![]);
    // With deferral it stays as it is; without, it is asked for.
    match resolve_subqueries(&e, true, &plans, &vec![], 0) {
        Ok(Resolution::Complete { expr, used: 0 }) => assert!(contains_subquery(&expr)),
        other => panic!("{other:?}"),
    }
    assert_eq!(resolve_subqueries(&e, false, &plans, &vec![], 0), Ok(Resolution::Needs(0)));
    for (rows, expect) in [(vec![vec![Value::Int(1)]], true), (vec![], false)] {
        match resolve_subqueries(&e, false, &plans, &vec![rows], 0) {
            Ok(Resolution::Complete { expr, .. }) => {
                assert_eq!(expr.node, Node::Literal(Value::Bool(expect)))
            }
            other => panic!("{other:?}"),
        }
    }
}

#[test]
fn an_in_subquery_becomes_a_list() {
    let plans = vec![plan(column(0), None)];
    let e = op(Op::InSubquery { plan: 0, negated: true }, vec![column(3)]);
    let answers: Vec<Vec<Row>> = vec![vec![vec![Value::Int(1)], vec![Value::Null]]];
    match resolve_subqueries(&e, true, &plans, &answers, 0) {
        Ok(Resolution::Complete { expr, used: 1 }) => {
            assert_eq!(expr.node, Node::Op(Op::InList { negated: true }));
            let nodes: Vec<&Node> = expr.children.iter().map(|c| &c.node).collect();
            assert_eq!(nodes, vec![
                &Node::Op(Op::Column(3)),
                &Node::Literal(Value::Int(1)),
                &Node::Literal(Value::Null)
            ]);
        }
        other => panic!("{other:?}"),
    }
}

#[test]
fn a_scalar_subquery_has_at_most_one_row() {
    assert_eq!(scalar_subquery_value(&vec![]), Ok(Value::Null));
    assert_eq!(scalar_subquery_value(&vec![vec![Value::Int(7)]]), Ok(Value::Int(7)));
    assert_eq!(
        scalar_subquery_value(&vec![vec![Value::Int(7)], vec![Value::Int(8)]]),
        Err(Error::ScalarSubqueryRows)
    );
}

#[test]
fn an_expression_without_subqueries_is_left_alone() {
    let e = op(Op::Binary(BinaryOp::Plus), vec![column(0), lit(Value::Int(1))]);
    assert!(!contains_subquery(&e));
    assert_eq!(resolved_expr(&e, &vec![], &vec![]), Ok(None));
}

// ---------------------------------------------------------------- sequence calls

#[test]
fn each_sequence_call_is_made_once() {
    let call = |name: &str| op(Op::ScalarFunction(ScalarFunc::SequenceNext), vec![lit(text(name))]);
    let e = op(Op::Binary(BinaryOp::Plus), vec![call("a"), call("b")]);
    assert!(contains_sequence_call(&e));
    assert_eq!(
        resolve_sequence_calls(&e, &vec![], 0),
        SequenceResolution::Needs { func: ScalarFunc::SequenceNext, args: vec![lit(text("a"))] }
    );
    assert_eq!(
        resolve_sequence_calls(&e, &vec![5], 0),
        SequenceResolution::Needs { func: ScalarFunc::SequenceNext, args: vec![lit(text("b"))] }
    );
    match resolve_sequence_calls(&e, &vec![5, 9], 0) {
        SequenceResolution::Complete { expr, used: 2 } => {
            assert!(!contains_sequence_call(&expr));
            assert_eq!(expr.children[0].node, Node::Literal(Value::Int(5)));
            assert_eq!(expr.children[1].node, Node::Literal(Value::Int(9)));
        }
        other => panic!("{other:?}"),
    }
}

#[test]
fn an_expression_without_sequence_calls_is_left_alone() {
    let e = || op(Op::Binary(BinaryOp::Plus), vec![column(0), lit(Value::Int(1))]);
    assert_eq!(
        resolve_sequence_calls(&e(), &vec![7], 0),
        SequenceResolution::Complete { expr: e(), used: 0 }
    );
}

#[test]
fn sequence_calls_are_checked() {
    assert_eq!(sequence_name(&vec![text("s")]), Ok("s".to_owned()));
    for (args, why) in [
        (vec![], SequenceError::NameMissing),
        (vec![Value::Null], SequenceError::NameIsNull),
        (vec![Value::Int(1)], SequenceError::NameNotText),
    ] {
        assert_eq!(sequence_name(&args), Err(Error::Sequence(why)));
    }
    let next = ScalarFunc::SequenceNext;
    let assign = ScalarFunc::SequenceSet;
    assert_eq!(eval_sequence_call(next, &vec![text("s")], Some(3)), Ok(SequenceAction::Next(3)));
    assert_eq!(
        eval_sequence_call(ScalarFunc::SequenceCurrent, &vec![text("s")], Some(3)),
        Ok(SequenceAction::Current(3))
    );
    assert_eq!(
        eval_sequence_call(assign, &vec![text("s"), Value::Int(9)], Some(3)),
        Ok(SequenceAction::Assign(3, 9))
    );
    assert_eq!(
        eval_sequence_call(assign, &vec![text("s"), Value::Int(9), Value::Bool(true)], Some(3)),
        Ok(SequenceAction::Assign(3, 9))
    );
    for (func, args, id, why) in [
        (next, vec![text("s")], None, SequenceError::NotFound("s".to_owned())),
        (assign, vec![text("s"), Value::Null], Some(3), SequenceError::TargetIsNull),
        (assign, vec![text("s"), text("x")], Some(3), SequenceError::TargetNotInteger),
        (
            assign,
            vec![text("s"), Value::Int(9), Value::Bool(false)],
            Some(3),
            SequenceError::CalledFalse,
        ),
        (assign, vec![text("s"), Value::Int(9), Value::Null], Some(3), SequenceError::CalledIsNull),
        (assign, vec![text("s"), Value::Int(9), Value::Int(1)], Some(3), SequenceError::CalledNotBool),
        (ScalarFunc::Other(1), vec![text("s")], Some(3), SequenceError::NotSequence),
    ] {
        assert_eq!(eval_sequence_call(func, &args, id), Err(Error::Sequence(why)));
    }
}

// ---------------------------------------------------------------- variables

fn name(n: &str) -> Syntax {
    Syntax { node: SyntaxNode::Column(n.to_owned()), parts: vec![] }
}

fn value(v: Value) -> Syntax {
    Syntax { node: SyntaxNode::Literal(v), parts: vec![] }
}

fn env() -> NameMap<Value> {
    let mut env: NameMap<Value> = NameMap::new();
    env.insert("n".to_owned(), Value::Int(99));
    env
}

fn schemas() -> NameMap<Vec<String>> {
    let mut schemas: NameMap<Vec<String>> = NameMap::new();
    schemas.insert("t".to_owned(), vec!["n".to_owned(), "id".to_owned()]);
    schemas
}

fn from(table: &str) -> Vec<FromItem> {
    vec![FromItem { table: Some(table.to_owned()), parts: vec![], on: None }]
}

#[test]
fn a_column_of_a_table_in_scope_shadows_a_variable() {
    // INSERT INTO t SELECT n FROM t
    let source = select(vec![], from("t"), vec![name("n")]);
    let bound = bind(&insert("t".to_owned(), vec![source], vec![]), &env(), &schemas());
    let same = insert("t".to_owned(), vec![select(vec![], from("t"), vec![name("n")])], vec![]);
    assert_eq!(bound, same);
}

#[test]
fn the_target_of_an_insert_does_not_shadow_its_values() {
    // INSERT INTO t VALUES (n)
    let bound = bind(&insert("t".to_owned(), vec![name("n")], vec![]), &env(), &schemas());
    assert_eq!(bound, insert("t".to_owned(), vec![value(Value::Int(99))], vec![]));
    // RETURNING names columns of the target.
    let stmt = insert("t".to_owned(), vec![], vec![name("n")]);
    let same = insert("t".to_owned(), vec![], vec![name("n")]);
    assert_eq!(bind(&stmt, &env(), &schemas()), same);
}

#[test]
fn an_update_names_columns_of_its_target() {
    let stmt = modify("t".to_owned(), vec![], vec![name("n"), name("x")]);
    let same = modify("t".to_owned(), vec![], vec![name("n"), name("x")]);
    assert_eq!(bind(&stmt, &env(), &schemas()), same);
    let stmt = select(vec![], vec![], vec![name("n")]);
    assert_eq!(
        bind(&stmt, &env(), &schemas()),
        select(vec![], vec![], vec![value(Value::Int(99))])
    );
}

// ---------------------------------------------------------------- scripts

fn run(block: &ScriptBlock, events: Vec<Event>) -> (Result<Flow, ScriptError>, ScriptState) {
    run_block(block, 0, &events)
}

#[test]
fn a_script_assigns_and_loops() {
    // FOR i IN 1..3 LOOP total := <expr 2>; END LOOP
    let block = ScriptBlock {
        body: vec![
            ScriptStmt::Declare { name: "total".to_owned(), default: None },
            ScriptStmt::For {
                var: "i".to_owned(),
                low: 0,
                high: 1,
                body: vec![ScriptStmt::Assign { name: "total".to_owned(), value: 2 }],
            },
        ],
        handler: None,
    };
    let mut events = vec![Event::Value(Value::Int(1)), Event::Value(Value::Int(3))];
    let mut total = 0;
    let mut seen: Vec<i64> = Vec::new();
    loop {
        match run_block(&block, 0, &events) {
            (Ok(Flow::Asks(Request::Evaluate(2))), state) => {
                // total + i
                if let Some(Value::Int(i)) = state.env.get("i") {
                    seen.push(*i);
                    total += *i;
                }
                events.push(Event::Value(Value::Int(total)));
            }
            (Ok(Flow::Normal), state) => {
                assert_eq!(state.env.get("total"), Some(&Value::Int(6)));
                assert_eq!(state.used, events.len());
                break;
            }
            (other, _) => panic!("{other:?}"),
        }
    }
    assert_eq!(seen, vec![1, 2, 3]);
}

#[test]
fn the_first_arm_that_holds_is_taken() {
    let block = ScriptBlock {
        body: vec![ScriptStmt::If {
            arms: vec![
                Arm { cond: 0, body: vec![ScriptStmt::Sql(10)] },
                Arm { cond: 1, body: vec![ScriptStmt::Return] },
            ],
            els: Some(vec![ScriptStmt::Sql(11)]),
        }],
        handler: None,
    };
    let (flow, _) = run(&block, vec![Event::Value(Value::Null), Event::Value(Value::Bool(true))]);
    assert_eq!(flow, Ok(Flow::Return));
    let (flow, _) = run(&block, vec![Event::Value(Value::Bool(true))]);
    assert_eq!(flow, Ok(Flow::Asks(Request::Run(10))));
    let (flow, _) = run(&block, vec![Event::Value(Value::Null), Event::Value(Value::Null)]);
    assert_eq!(flow, Ok(Flow::Asks(Request::Run(11))));
}

#[test]
fn a_handler_runs_after_the_block_is_rolled_back() {
    let block = ScriptBlock {
        body: vec![ScriptStmt::Sql(1)],
        handler: Some(vec![ScriptStmt::Sql(2)]),
    };
    let (flow, _) = run(&block, vec![]);
    let point = match flow {
        Ok(Flow::Asks(Request::Savepoint(n))) => n,
        other => panic!("{other:?}"),
    };
    let (flow, _) = run(&block, vec![Event::Done]);
    assert_eq!(flow, Ok(Flow::Asks(Request::Run(1))));
    let (flow, _) = run(&block, vec![Event::Done, Event::Done]);
    assert_eq!(flow, Ok(Flow::Asks(Request::Release(point))));
    let (flow, _) = run(&block, vec![Event::Done, Event::Failed(7)]);
    assert_eq!(flow, Ok(Flow::Asks(Request::RollbackTo(point))));
    let (flow, _) = run(&block, vec![Event::Done, Event::Failed(7), Event::Done]);
    assert_eq!(flow, Ok(Flow::Asks(Request::Run(2))));
    // A cancelled statement is not handled.
    let (flow, _) = run(&block, vec![Event::Done, Event::Cancelled]);
    assert_eq!(flow, Err(ScriptError::Cancelled));
}

#[test]
fn a_raised_value_stops_the_script() {
    let block = ScriptBlock { body: vec![ScriptStmt::Raise(0)], handler: None };
    let (flow, _) = run(&block, vec![Event::Value(text("no"))]);
    assert_eq!(flow, Err(ScriptError::Raised(text("no"))));
    let (flow, _) = run(&block, vec![Event::Failed(3)]);
    assert_eq!(flow, Err(ScriptError::Outside(3)));
}

#[test]
fn a_bound_that_is_no_integer_is_refused() {
    let block = ScriptBlock {
        body: vec![ScriptStmt::For { var: "i".to_owned(), low: 0, high: 1, body: vec![] }],
        handler: None,
    };
    let (flow, _) = run(&block, vec![Event::Value(text("x"))]);
    assert_eq!(flow, Err(ScriptError::ForBound(text("x"))));
}

#[test]
fn values_are_raised_as_text() {
    let other = || "1.5".to_owned();
    assert_eq!(message_text(&text("a"), other()), "a");
    assert_eq!(message_text(&Value::Null, other()), "NULL");
    assert_eq!(message_text(&Value::Bool(true), other()), "true");
    assert_eq!(message_text(&Value::Int(-7), other()), "-7");
    assert_eq!(message_text(&Value::Float(1.5f64.to_bits()), other()), "1.5");
}

// ---------------------------------------------------------------- array texts

#[test]
fn array_texts_are_divided_into_elements() {
    assert_eq!(parse_array_text("{}"), Some(vec![]));
    assert_eq!(parse_array_text("{1,2}"), Some(vec![text("1"), text("2")]));
    assert_eq!(parse_array_text("1,2"), None);
}
