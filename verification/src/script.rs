//! The interpreter for script blocks.
//!
//! The interpreter decides; evaluating an expression, running a statement and the savepoints are
//! asked for. `run_block` takes what has come back so far, in order, and either finishes or says
//! what it needs next, with the variables as they then are.
use vstd::prelude::*;
use crate::numbers;
use crate::numbers::print_i64;
use crate::names::NameMap;
use crate::value::{Value, ValueView};

pub mod meaning;

verus! {

/// The most iterations of a loop.
pub const MAX_LOOP_ITERS: u64 = 1_000_000;

/// A statement of a script. Expressions and SQL statements stand in lists of their own and are
/// named by their position there.
pub enum ScriptStmt {
    Declare { name: String, default: Option<usize> },
    Assign { name: String, value: usize },
    If { arms: Vec<Arm>, els: Option<Vec<ScriptStmt>> },
    While { cond: usize, body: Vec<ScriptStmt> },
    For { var: String, low: usize, high: usize, body: Vec<ScriptStmt> },
    Raise(usize),
    Return,
    Block(ScriptBlock),
    Sql(usize),
}

/// A condition of an `IF` and what runs where it holds.
pub struct Arm {
    pub cond: usize,
    pub body: Vec<ScriptStmt>,
}

/// A block, with its `EXCEPTION WHEN OTHERS` handler if it has one.
pub struct ScriptBlock {
    pub body: Vec<ScriptStmt>,
    pub handler: Option<Vec<ScriptStmt>>,
}

/// What the interpreter asks for.
#[derive(Clone, Copy, Debug, PartialEq, Eq, Structural)]
pub enum Request {
    /// Evaluate this expression.
    Evaluate(usize),
    /// Run this SQL statement.
    Run(usize),
    /// Set a savepoint of this number.
    Savepoint(u64),
    /// Release the savepoint of this number.
    Release(u64),
    /// Roll back to the savepoint of this number.
    RollbackTo(u64),
}

/// What came back.
pub enum Event {
    /// The expression's value.
    Value(Value),
    /// It is done, without a value.
    Done,
    /// It failed, with an error of this number.
    Failed(u64),
    /// It was cancelled.
    Cancelled,
}

/// Why a script stopped.
#[derive(Debug, PartialEq, Eq)]
pub enum ScriptError {
    /// What was asked for failed, with an error of this number.
    Outside(u64),
    Cancelled,
    /// `RAISE` of this value.
    Raised(Value),
    /// A `WHILE` loop exceeded the iteration limit.
    WhileLimit,
    /// A `FOR` loop exceeded the iteration limit.
    ForLimit,
    /// A bound of a `FOR` loop is this value, which is no integer.
    ForBound(Value),
}

/// The variables, the number of the next savepoint, and how many events have been used.
pub struct ScriptState {
    pub env: NameMap<Value>,
    pub savepoints: u64,
    pub used: usize,
}

pub struct State {
    pub env: Map<Seq<char>, ValueView>,
    pub savepoints: u64,
    pub used: nat,
}

impl View for ScriptState {
    type V = State;

    open spec fn view(&self) -> State {
        State { env: self.env@, savepoints: self.savepoints, used: self.used as nat }
    }
}

pub enum Stop {
    Outside(u64),
    Cancelled,
    Raised(ValueView),
    WhileLimit,
    ForLimit,
    ForBound(ValueView),
}

pub open spec fn stop_of(e: ScriptError) -> Stop {
    match e {
        ScriptError::Outside(k) => Stop::Outside(k),
        ScriptError::Cancelled => Stop::Cancelled,
        ScriptError::Raised(v) => Stop::Raised(v@),
        ScriptError::WhileLimit => Stop::WhileLimit,
        ScriptError::ForLimit => Stop::ForLimit,
        ScriptError::ForBound(v) => Stop::ForBound(v@),
    }
}

/// Where running a piece of a script leads.
pub enum Ran {
    /// To its end, or to a `RETURN`.
    Through { returned: bool, state: State },
    /// To a request that has not been answered.
    Asks { request: Request, state: State },
    /// To a failure.
    Fails { stop: Stop, state: State },
}

/// What an event answers.
pub enum Answered {
    Value { value: ValueView, state: State },
    Other(Ran),
}

/// The state with one more event used.
pub open spec fn consumed(s: State) -> State {
    State { used: s.used + 1, ..s }
}

/// The value that the next event answers the request with; NULL where it is done without one.
pub open spec fn ask(request: Request, s: State, events: Seq<Event>) -> Answered {
    if s.used >= events.len() {
        Answered::Other(Ran::Asks { request, state: s })
    } else {
        let t = consumed(s);
        match events[s.used as int] {
            Event::Value(v) => Answered::Value { value: v@, state: t },
            Event::Done => Answered::Value { value: ValueView::Null, state: t },
            Event::Failed(k) => Answered::Other(Ran::Fails { stop: Stop::Outside(k), state: t }),
            Event::Cancelled => Answered::Other(Ran::Fails { stop: Stop::Cancelled, state: t }),
        }
    }
}

pub open spec fn assigned(s: State, name: Seq<char>, value: ValueView) -> State {
    State { env: s.env.insert(name, value), ..s }
}

/// Run one statement.
pub open spec fn run_one(stmt: ScriptStmt, s: State, events: Seq<Event>) -> Ran
    decreases stmt, 2nat, 0nat,
{
    match stmt {
        ScriptStmt::Declare { name, default } => match default {
            Some(e) => match ask(Request::Evaluate(e), s, events) {
                Answered::Value { value, state } => Ran::Through {
                    returned: false,
                    state: assigned(state, name@, value),
                },
                Answered::Other(r) => r,
            },
            None => Ran::Through { returned: false, state: assigned(s, name@, ValueView::Null) },
        },
        ScriptStmt::Assign { name, value: e } => match ask(Request::Evaluate(e), s, events) {
            Answered::Value { value, state } => Ran::Through {
                returned: false,
                state: assigned(state, name@, value),
            },
            Answered::Other(r) => r,
        },
        ScriptStmt::If { .. } => run_arms(stmt, 0, s, events),
        ScriptStmt::While { cond, body } => run_while(cond, body@, 0, s, events),
        ScriptStmt::For { var, low, high, body } => match ask(Request::Evaluate(low), s, events) {
            Answered::Value { value: ValueView::Int(lo), state } => match ask(
                Request::Evaluate(high),
                state,
                events,
            ) {
                Answered::Value { value: ValueView::Int(hi), state } => run_for(
                    var@,
                    body@,
                    lo as int,
                    hi as int,
                    0,
                    state,
                    events,
                ),
                Answered::Value { value, state } => Ran::Fails {
                    stop: Stop::ForBound(value),
                    state,
                },
                Answered::Other(r) => r,
            },
            Answered::Value { value, state } => Ran::Fails { stop: Stop::ForBound(value), state },
            Answered::Other(r) => r,
        },
        ScriptStmt::Raise(e) => match ask(Request::Evaluate(e), s, events) {
            Answered::Value { value, state } => Ran::Fails { stop: Stop::Raised(value), state },
            Answered::Other(r) => r,
        },
        ScriptStmt::Return => Ran::Through { returned: true, state: s },
        ScriptStmt::Block(block) => run_in_block(block, s, events),
        ScriptStmt::Sql(k) => match ask(Request::Run(k), s, events) {
            Answered::Value { value, state } => Ran::Through { returned: false, state },
            Answered::Other(r) => r,
        },
    }
}

/// Run the statements from the `i`-th on, up to a `RETURN`.
pub open spec fn run_stmts(stmts: Seq<ScriptStmt>, i: nat, s: State, events: Seq<Event>) -> Ran
    decreases stmts, 0nat, stmts.len() - i,
{
    if i >= stmts.len() {
        Ran::Through { returned: false, state: s }
    } else {
        match run_one(stmts[i as int], s, events) {
            Ran::Through { returned: false, state } => run_stmts(stmts, i + 1, state, events),
            r => r,
        }
    }
}

/// Run the first arm of an `IF` from the `k`-th on whose condition is true, or else its `ELSE`
/// branch.
pub open spec fn run_arms(stmt: ScriptStmt, k: nat, s: State, events: Seq<Event>) -> Ran
    recommends
        stmt is If,
    decreases stmt, 1nat, stmt->arms@.len() - k,
{
    match stmt {
        ScriptStmt::If { arms, els } => if k >= arms@.len() {
            match els {
                Some(body) => run_stmts(body@, 0, s, events),
                None => Ran::Through { returned: false, state: s },
            }
        } else {
            match ask(Request::Evaluate(arms@[k as int].cond), s, events) {
                Answered::Value { value, state } => if value == ValueView::Bool(true) {
                    run_stmts(arms@[k as int].body@, 0, state, events)
                } else {
                    run_arms(stmt, k + 1, state, events)
                },
                Answered::Other(r) => r,
            }
        },
        _ => Ran::Through { returned: false, state: s },
    }
}

/// Run `body` as long as the condition is true, after `iters` iterations so far.
pub open spec fn run_while(
    cond: usize,
    body: Seq<ScriptStmt>,
    iters: nat,
    s: State,
    events: Seq<Event>,
) -> Ran
    decreases body, 1nat, MAX_LOOP_ITERS - iters,
{
    match ask(Request::Evaluate(cond), s, events) {
        Answered::Value { value, state } => if value != ValueView::Bool(true) {
            Ran::Through { returned: false, state }
        } else if iters >= MAX_LOOP_ITERS {
            Ran::Fails { stop: Stop::WhileLimit, state }
        } else {
            match run_stmts(body, 0, state, events) {
                Ran::Through { returned: false, state } => run_while(
                    cond,
                    body,
                    iters + 1,
                    state,
                    events,
                ),
                r => r,
            }
        },
        Answered::Other(r) => r,
    }
}

/// Run `body` with the variable at `i` and so on to `hi`, after `iters` iterations so far.
pub open spec fn run_for(
    var: Seq<char>,
    body: Seq<ScriptStmt>,
    i: int,
    hi: int,
    iters: nat,
    s: State,
    events: Seq<Event>,
) -> Ran
    decreases body, 1nat, MAX_LOOP_ITERS - iters,
{
    if i > hi {
        Ran::Through { returned: false, state: s }
    } else if iters >= MAX_LOOP_ITERS {
        Ran::Fails { stop: Stop::ForLimit, state: s }
    } else {
        match run_stmts(body, 0, assigned(s, var, ValueView::Int(i as i64)), events) {
            Ran::Through { returned: false, state } => run_for(
                var,
                body,
                i + 1,
                hi,
                iters + 1,
                state,
                events,
            ),
            r => r,
        }
    }
}

/// Run a block. With a handler, the body runs behind a savepoint: where it fails, what it wrote is
/// rolled back and the handler runs instead. A cancellation is never caught.
pub open spec fn run_in_block(block: ScriptBlock, s: State, events: Seq<Event>) -> Ran
    decreases block, 1nat, 0nat,
{
    match block.handler {
        None => run_stmts(block.body@, 0, s, events),
        Some(handler) => {
            let n = s.savepoints;
            let s1 = State { savepoints: after_savepoint(n), ..s };
            match ask(Request::Savepoint(n), s1, events) {
                Answered::Value { state, .. } => match run_stmts(block.body@, 0, state, events) {
                    Ran::Through { returned, state } => match ask(
                        Request::Release(n),
                        state,
                        events,
                    ) {
                        Answered::Value { state, .. } => Ran::Through { returned, state },
                        Answered::Other(r) => r,
                    },
                    Ran::Fails { stop: Stop::Cancelled, state } => Ran::Fails {
                        stop: Stop::Cancelled,
                        state,
                    },
                    Ran::Fails { state, .. } => match ask(Request::RollbackTo(n), state, events) {
                        Answered::Value { state, .. } => run_stmts(handler@, 0, state, events),
                        Answered::Other(r) => r,
                    },
                    Ran::Asks { request, state } => Ran::Asks { request, state },
                },
                Answered::Other(r) => r,
            }
        },
    }
}

/// The number after `n`, starting over at the end.
pub open spec fn after_savepoint(n: u64) -> u64 {
    if n == u64::MAX {
        0
    } else {
        (n + 1) as u64
    }
}

/// Where a piece of a script led, short of a failure.
#[derive(Clone, Copy, Debug, PartialEq, Eq, Structural)]
pub enum Flow {
    /// On to the next statement.
    Normal,
    /// To a `RETURN`.
    Return,
    /// To a request that has not been answered.
    Asks(Request),
}

pub open spec fn led_to(expected: Ran, r: Result<Flow, ScriptError>, after: State) -> bool {
    match expected {
        Ran::Through { returned, state } => after == state && r == Ok::<Flow, ScriptError>(
            if returned {
                Flow::Return
            } else {
                Flow::Normal
            },
        ),
        Ran::Asks { request, state } => after == state && r == Ok::<Flow, ScriptError>(
            Flow::Asks(request),
        ),
        Ran::Fails { stop, state } => after == state && (r matches Err(e) && stop_of(e) == stop),
    }
}

/// What came back for a request.
enum Reply {
    Value(Value),
    Other(Result<Flow, ScriptError>),
}

fn next_reply(request: Request, st: &mut ScriptState, events: &Vec<Event>) -> (r: Reply)
    requires
        old(st).used <= events@.len(),
    ensures
        final(st).used <= events@.len(),
        match ask(request, old(st)@, events@) {
            Answered::Value { value, state } => final(st)@ == state && (r matches Reply::Value(v)
                && v@ == value),
            Answered::Other(ran) => r matches Reply::Other(x) && led_to(ran, x, final(st)@),
        },
{
    if st.used >= events.len() {
        return Reply::Other(Ok(Flow::Asks(request)));
    }
    let k: usize = st.used;
    st.used = k + 1;
    match &events[k] {
        Event::Value(v) => Reply::Value(v.clone()),
        Event::Done => Reply::Value(Value::Null),
        Event::Failed(e) => Reply::Other(Err(ScriptError::Outside(*e))),
        Event::Cancelled => Reply::Other(Err(ScriptError::Cancelled)),
    }
}

fn is_true(v: &Value) -> (r: bool)
    ensures
        r == (v@ == ValueView::Bool(true)),
{
    match v {
        Value::Bool(b) => *b,
        _ => false,
    }
}

fn assign(st: &mut ScriptState, name: &String, value: Value)
    ensures
        final(st)@ == assigned(old(st)@, name@, value@),
        final(st).used == old(st).used,
{
    st.env.insert(name.clone(), value);
}

/// The number of the next savepoint; they start over after the largest.
fn next_savepoint(st: &mut ScriptState) -> (n: u64)
    ensures
        n == old(st).savepoints,
        final(st)@ == (State { savepoints: after_savepoint(n), ..old(st)@ }),
        final(st).used == old(st).used,
{
    let n: u64 = st.savepoints;
    st.savepoints = if n == u64::MAX {
        0
    } else {
        n + 1
    };
    n
}

fn exec_one(stmt: &ScriptStmt, st: &mut ScriptState, events: &Vec<Event>) -> (r: Result<
    Flow,
    ScriptError,
>)
    requires
        old(st).used <= events@.len(),
    ensures
        final(st).used <= events@.len(),
        led_to(run_one(*stmt, old(st)@, events@), r, final(st)@),
    decreases *stmt, 2nat, 0nat,
{
    match stmt {
        ScriptStmt::Declare { name, default } => {
            let value = match default {
                Some(e) => match next_reply(Request::Evaluate(*e), st, events) {
                    Reply::Value(v) => v,
                    Reply::Other(x) => {
                        return x;
                    },
                },
                None => Value::Null,
            };
            assign(st, name, value);
            Ok(Flow::Normal)
        },
        ScriptStmt::Assign { name, value } => match next_reply(
            Request::Evaluate(*value),
            st,
            events,
        ) {
            Reply::Value(v) => {
                assign(st, name, v);
                Ok(Flow::Normal)
            },
            Reply::Other(x) => x,
        },
        ScriptStmt::If { arms, els } => exec_arms(stmt, arms, els, st, events),
        ScriptStmt::While { cond, body } => exec_while(*cond, body, st, events),
        ScriptStmt::For { var, low, high, body } => {
            let lo: i64 = match next_reply(Request::Evaluate(*low), st, events) {
                Reply::Value(Value::Int(n)) => n,
                Reply::Value(v) => {
                    return Err(ScriptError::ForBound(v));
                },
                Reply::Other(x) => {
                    return x;
                },
            };
            let hi: i64 = match next_reply(Request::Evaluate(*high), st, events) {
                Reply::Value(Value::Int(n)) => n,
                Reply::Value(v) => {
                    return Err(ScriptError::ForBound(v));
                },
                Reply::Other(x) => {
                    return x;
                },
            };
            exec_for(var, body, lo, hi, st, events)
        },
        ScriptStmt::Raise(e) => match next_reply(Request::Evaluate(*e), st, events) {
            Reply::Value(v) => Err(ScriptError::Raised(v)),
            Reply::Other(x) => x,
        },
        ScriptStmt::Return => Ok(Flow::Return),
        ScriptStmt::Block(block) => exec_block(block, st, events),
        ScriptStmt::Sql(k) => match next_reply(Request::Run(*k), st, events) {
            Reply::Value(_) => Ok(Flow::Normal),
            Reply::Other(x) => x,
        },
    }
}

fn exec_stmts(stmts: &Vec<ScriptStmt>, st: &mut ScriptState, events: &Vec<Event>) -> (r: Result<
    Flow,
    ScriptError,
>)
    requires
        old(st).used <= events@.len(),
    ensures
        final(st).used <= events@.len(),
        led_to(run_stmts(stmts@, 0, old(st)@, events@), r, final(st)@),
    decreases *stmts, 0nat, 0nat,
{
    let ghost whole = run_stmts(stmts@, 0, st@, events@);
    let mut i: usize = 0;
    while i < stmts.len()
        invariant
            i <= stmts@.len(),
            st.used <= events@.len(),
            whole == run_stmts(stmts@, 0, old(st)@, events@),
            whole == run_stmts(stmts@, i as nat, st@, events@),
        decreases stmts@.len() - i,
    {
        assert(decreases_to!(*stmts => stmts[i as int]));
        match exec_one(&stmts[i], st, events) {
            Ok(Flow::Normal) => {},
            other => {
                return other;
            },
        }
        i += 1;
    }
    Ok(Flow::Normal)
}

fn exec_arms(
    stmt: &ScriptStmt,
    arms: &Vec<Arm>,
    els: &Option<Vec<ScriptStmt>>,
    st: &mut ScriptState,
    events: &Vec<Event>,
) -> (r: Result<Flow, ScriptError>)
    requires
        old(st).used <= events@.len(),
        *stmt == (ScriptStmt::If { arms: *arms, els: *els }),
    ensures
        final(st).used <= events@.len(),
        led_to(run_arms(*stmt, 0, old(st)@, events@), r, final(st)@),
    decreases *stmt, 1nat, 0nat,
{
    let ghost whole = run_arms(*stmt, 0, st@, events@);
    let mut k: usize = 0;
    while k < arms.len()
        invariant
            k <= arms@.len(),
            *stmt == (ScriptStmt::If { arms: *arms, els: *els }),
            st.used <= events@.len(),
            whole == run_arms(*stmt, 0, old(st)@, events@),
            whole == run_arms(*stmt, k as nat, st@, events@),
        decreases arms@.len() - k,
    {
        match next_reply(Request::Evaluate(arms[k].cond), st, events) {
            Reply::Value(v) => {
                if is_true(&v) {
                    proof {
                        assert(decreases_to!(*stmt => stmt->arms));
                        assert(decreases_to!(*arms => arms[k as int]));
                        assert(decreases_to!(arms[k as int] => arms[k as int].body));
                    }
                    return exec_stmts(&arms[k].body, st, events);
                }
            },
            Reply::Other(x) => {
                return x;
            },
        }
        k += 1;
    }
    match els {
        Some(body) => {
            proof {
                assert(decreases_to!(*stmt => stmt->els));
                assert(decreases_to!(*els => (*els)->Some_0));
            }
            exec_stmts(body, st, events)
        },
        None => Ok(Flow::Normal),
    }
}

fn exec_while(cond: usize, body: &Vec<ScriptStmt>, st: &mut ScriptState, events: &Vec<Event>) -> (r:
    Result<Flow, ScriptError>)
    requires
        old(st).used <= events@.len(),
    ensures
        final(st).used <= events@.len(),
        led_to(run_while(cond, body@, 0, old(st)@, events@), r, final(st)@),
    decreases *body, 1nat, 0nat,
{
    let ghost whole = run_while(cond, body@, 0, st@, events@);
    let mut iters: u64 = 0;
    loop
        invariant
            iters <= MAX_LOOP_ITERS,
            st.used <= events@.len(),
            whole == run_while(cond, body@, 0, old(st)@, events@),
            whole == run_while(cond, body@, iters as nat, st@, events@),
        decreases MAX_LOOP_ITERS - iters,
    {
        match next_reply(Request::Evaluate(cond), st, events) {
            Reply::Value(v) => {
                if !is_true(&v) {
                    return Ok(Flow::Normal);
                }
            },
            Reply::Other(x) => {
                return x;
            },
        }
        if iters >= MAX_LOOP_ITERS {
            return Err(ScriptError::WhileLimit);
        }
        iters += 1;
        match exec_stmts(body, st, events) {
            Ok(Flow::Normal) => {},
            other => {
                return other;
            },
        }
    }
}

fn exec_for(
    var: &String,
    body: &Vec<ScriptStmt>,
    lo: i64,
    hi: i64,
    st: &mut ScriptState,
    events: &Vec<Event>,
) -> (r: Result<Flow, ScriptError>)
    requires
        old(st).used <= events@.len(),
    ensures
        final(st).used <= events@.len(),
        led_to(run_for(var@, body@, lo as int, hi as int, 0, old(st)@, events@), r, final(st)@),
    decreases *body, 1nat, 0nat,
{
    let ghost whole = run_for(var@, body@, lo as int, hi as int, 0, st@, events@);
    if lo > hi {
        return Ok(Flow::Normal);
    }
    let mut i: i64 = lo;
    let mut iters: u64 = 0;
    loop
        invariant
            i <= hi,
            iters <= MAX_LOOP_ITERS,
            st.used <= events@.len(),
            whole == run_for(var@, body@, lo as int, hi as int, 0, old(st)@, events@),
            whole == run_for(var@, body@, i as int, hi as int, iters as nat, st@, events@),
        decreases MAX_LOOP_ITERS - iters,
    {
        if iters >= MAX_LOOP_ITERS {
            return Err(ScriptError::ForLimit);
        }
        iters += 1;
        assign(st, var, Value::Int(i));
        match exec_stmts(body, st, events) {
            Ok(Flow::Normal) => {},
            other => {
                return other;
            },
        }
        assert(whole == run_for(var@, body@, i + 1, hi as int, iters as nat, st@, events@));
        if i == hi {
            return Ok(Flow::Normal);
        }
        i += 1;
    }
}

fn exec_block(block: &ScriptBlock, st: &mut ScriptState, events: &Vec<Event>) -> (r: Result<
    Flow,
    ScriptError,
>)
    requires
        old(st).used <= events@.len(),
    ensures
        final(st).used <= events@.len(),
        led_to(run_in_block(*block, old(st)@, events@), r, final(st)@),
    decreases *block, 1nat, 0nat,
{
    match &block.handler {
        None => exec_stmts(&block.body, st, events),
        Some(handler) => {
            proof {
                assert(decreases_to!(*block => block.handler));
                assert(decreases_to!(block.handler => block.handler->Some_0));
            }
            let n: u64 = next_savepoint(st);
            match next_reply(Request::Savepoint(n), st, events) {
                Reply::Value(_) => {},
                Reply::Other(x) => {
                    return x;
                },
            }
            match exec_stmts(&block.body, st, events) {
                Ok(Flow::Asks(request)) => Ok(Flow::Asks(request)),
                Ok(flow) => match next_reply(Request::Release(n), st, events) {
                    Reply::Value(_) => Ok(flow),
                    Reply::Other(x) => x,
                },
                Err(ScriptError::Cancelled) => Err(ScriptError::Cancelled),
                Err(_) => match next_reply(Request::RollbackTo(n), st, events) {
                    Reply::Value(_) => exec_stmts(handler, st, events),
                    Reply::Other(x) => x,
                },
            }
        },
    }
}

/// Run a block from an empty environment, the next savepoint being `savepoints`, with the events
/// that have come back so far; the state it leads to holds the variables, from which the caller
/// reads the `OUT` parameters.
pub fn run_block(block: &ScriptBlock, savepoints: u64, events: &Vec<Event>) -> (r: (
    Result<Flow, ScriptError>,
    ScriptState,
))
    ensures
        led_to(
            run_in_block(*block, State { env: Map::empty(), savepoints, used: 0 }, events@),
            r.0,
            r.1@,
        ),
{
    let mut st = ScriptState { env: NameMap::new(), savepoints, used: 0 };
    let flow = exec_block(block, &mut st, events);
    (flow, st)
}

// ---------------------------------------------------------------- laws

/// The state that running led to.
pub open spec fn state_of(r: Ran) -> State {
    match r {
        Ran::Through { state, .. } => state,
        Ran::Asks { state, .. } => state,
        Ran::Fails { state, .. } => state,
    }
}

/// What holds of a run from `s` on `events` that led to `r`, and on more events to `longer`.
pub open spec fn orderly(r: Ran, longer: Ran, s: State, events: Seq<Event>) -> bool {
    &&& s.used <= state_of(r).used <= events.len()
    &&& r is Asks ==> state_of(r).used == events.len()
    &&& !(r is Asks) ==> longer == r
    &&& forall|i: int| s.used <= i < state_of(r).used ==> ((#[trigger] events[i]) is Cancelled ==> i
        == state_of(r).used - 1 && r matches Ran::Fails { stop: Stop::Cancelled, .. })
}

proof fn lemma_ask(request: Request, s: State, events: Seq<Event>, more: Seq<Event>)
    requires
        s.used <= events.len(),
    ensures
        match ask(request, s, events) {
            Answered::Value { value, state } => ask(request, s, events + more) == ask(
                request,
                s,
                events,
            ) && state.used == s.used + 1 <= events.len() && !(events[s.used as int] is Cancelled),
            Answered::Other(r) => match ask(request, s, events + more) {
                Answered::Other(longer) => orderly(r, longer, s, events),
                Answered::Value { .. } => r is Asks && orderly(r, r, s, events),
            },
        },
{
    if s.used < events.len() {
        assert((events + more)[s.used as int] == events[s.used as int]);
    }
}

proof fn lemma_one(stmt: ScriptStmt, s: State, events: Seq<Event>, more: Seq<Event>)
    requires
        s.used <= events.len(),
    ensures
        orderly(run_one(stmt, s, events), run_one(stmt, s, events + more), s, events),
    decreases stmt, 2nat, 0nat,
{
    match stmt {
        ScriptStmt::Declare { name, default } => {
            if let Some(e) = default {
                lemma_ask(Request::Evaluate(e), s, events, more);
            }
        },
        ScriptStmt::Assign { name, value: e } => {
            lemma_ask(Request::Evaluate(e), s, events, more);
        },
        ScriptStmt::If { .. } => {
            lemma_arms(stmt, 0, s, events, more);
        },
        ScriptStmt::While { cond, body } => {
            lemma_while(cond, body@, 0, s, events, more);
        },
        ScriptStmt::For { var, low, high, body } => {
            lemma_ask(Request::Evaluate(low), s, events, more);
            if let Answered::Value { value: ValueView::Int(lo), state: s1 } = ask(
                Request::Evaluate(low),
                s,
                events,
            ) {
                lemma_ask(Request::Evaluate(high), s1, events, more);
                if let Answered::Value { value: ValueView::Int(hi), state: s2 } = ask(
                    Request::Evaluate(high),
                    s1,
                    events,
                ) {
                    lemma_for(var@, body@, lo as int, hi as int, 0, s2, events, more);
                }
            }
        },
        ScriptStmt::Raise(e) => {
            lemma_ask(Request::Evaluate(e), s, events, more);
        },
        ScriptStmt::Return => {},
        ScriptStmt::Block(block) => {
            law_script_is_orderly(block, s, events, more);
        },
        ScriptStmt::Sql(k) => {
            lemma_ask(Request::Run(k), s, events, more);
        },
    }
}

proof fn lemma_stmts(stmts: Seq<ScriptStmt>, i: nat, s: State, events: Seq<Event>, more: Seq<Event>)
    requires
        s.used <= events.len(),
    ensures
        orderly(run_stmts(stmts, i, s, events), run_stmts(stmts, i, s, events + more), s, events),
    decreases stmts, 0nat, stmts.len() - i,
{
    if i < stmts.len() {
        lemma_one(stmts[i as int], s, events, more);
        if let Ran::Through { returned: false, state } = run_one(stmts[i as int], s, events) {
            lemma_stmts(stmts, i + 1, state, events, more);
        }
    }
}

proof fn lemma_arms(stmt: ScriptStmt, k: nat, s: State, events: Seq<Event>, more: Seq<Event>)
    requires
        s.used <= events.len(),
    ensures
        orderly(run_arms(stmt, k, s, events), run_arms(stmt, k, s, events + more), s, events),
    decreases stmt, 1nat, stmt->arms@.len() - k,
{
    if let ScriptStmt::If { arms, els } = stmt {
        if k >= arms@.len() {
            if let Some(body) = els {
                lemma_stmts(body@, 0, s, events, more);
            }
        } else {
            lemma_ask(Request::Evaluate(arms@[k as int].cond), s, events, more);
            if let Answered::Value { value, state } = ask(
                Request::Evaluate(arms@[k as int].cond),
                s,
                events,
            ) {
                if value == ValueView::Bool(true) {
                    lemma_stmts(arms@[k as int].body@, 0, state, events, more);
                } else {
                    lemma_arms(stmt, k + 1, state, events, more);
                }
            }
        }
    }
}

proof fn lemma_while(
    cond: usize,
    body: Seq<ScriptStmt>,
    iters: nat,
    s: State,
    events: Seq<Event>,
    more: Seq<Event>,
)
    requires
        s.used <= events.len(),
    ensures
        orderly(
            run_while(cond, body, iters, s, events),
            run_while(cond, body, iters, s, events + more),
            s,
            events,
        ),
    decreases body, 1nat, MAX_LOOP_ITERS - iters,
{
    lemma_ask(Request::Evaluate(cond), s, events, more);
    if let Answered::Value { value, state: s1 } = ask(Request::Evaluate(cond), s, events) {
        if value == ValueView::Bool(true) && iters < MAX_LOOP_ITERS {
            lemma_stmts(body, 0, s1, events, more);
            if let Ran::Through { returned: false, state: s2 } = run_stmts(body, 0, s1, events) {
                lemma_while(cond, body, iters + 1, s2, events, more);
            }
        }
    }
}

proof fn lemma_for(
    var: Seq<char>,
    body: Seq<ScriptStmt>,
    i: int,
    hi: int,
    iters: nat,
    s: State,
    events: Seq<Event>,
    more: Seq<Event>,
)
    requires
        s.used <= events.len(),
    ensures
        orderly(
            run_for(var, body, i, hi, iters, s, events),
            run_for(var, body, i, hi, iters, s, events + more),
            s,
            events,
        ),
    decreases body, 1nat, MAX_LOOP_ITERS - iters,
{
    if i <= hi && iters < MAX_LOOP_ITERS {
        let s1 = assigned(s, var, ValueView::Int(i as i64));
        lemma_stmts(body, 0, s1, events, more);
        if let Ran::Through { returned: false, state: s2 } = run_stmts(body, 0, s1, events) {
            lemma_for(var, body, i + 1, hi, iters + 1, s2, events, more);
        }
    }
}

/// A run uses its events in order, each once, and asks only once all are used; events that come
/// after its end change nothing. A cancellation is never caught: it is the last event used, and the
/// run fails with it.
pub proof fn law_script_is_orderly(
    block: ScriptBlock,
    s: State,
    events: Seq<Event>,
    more: Seq<Event>,
)
    requires
        s.used <= events.len(),
    ensures
        orderly(run_in_block(block, s, events), run_in_block(block, s, events + more), s, events),
    decreases block, 1nat, 0nat,
{
    match block.handler {
        None => {
            lemma_stmts(block.body@, 0, s, events, more);
        },
        Some(handler) => {
            let n = s.savepoints;
            let s1 = State { savepoints: after_savepoint(n), ..s };
            lemma_ask(Request::Savepoint(n), s1, events, more);
            if let Answered::Value { state: s2, .. } = ask(Request::Savepoint(n), s1, events) {
                lemma_stmts(block.body@, 0, s2, events, more);
                let ran = run_stmts(block.body@, 0, s2, events);
                match ran {
                    Ran::Through { returned, state: s3 } => {
                        lemma_ask(Request::Release(n), s3, events, more);
                    },
                    Ran::Fails { stop, state: s3 } => {
                        if stop != Stop::Cancelled {
                            lemma_ask(Request::RollbackTo(n), s3, events, more);
                            if let Answered::Value { state: s4, .. } = ask(
                                Request::RollbackTo(n),
                                s3,
                                events,
                            ) {
                                lemma_stmts(handler@, 0, s4, events, more);
                            }
                        }
                    },
                    Ran::Asks { .. } => {},
                }
            }
        },
    }
}

// ---------------------------------------------------------------- messages

/// The text of a value that is raised as a message. The text of a number with a fraction and of the
/// values of other types is `rendered`.
pub open spec fn raised_text(v: ValueView, rendered: Seq<char>) -> Seq<char> {
    match v {
        ValueView::Text(s) => s,
        ValueView::Null => "NULL"@,
        ValueView::Bool(b) => if b {
            "true"@
        } else {
            "false"@
        },
        ValueView::Int(n) => numbers::decimal(n as int),
        _ => rendered,
    }
}

/// The text of a value that is raised as a message.
pub fn message_text(value: &Value, rendered: String) -> (r: String)
    ensures
        r@ == raised_text(value@, rendered@),
{
    match value {
        Value::Text(s) => s.clone(),
        Value::Null => "NULL".to_owned(),
        Value::Bool(b) => if *b {
            "true".to_owned()
        } else {
            "false".to_owned()
        },
        Value::Int(n) => print_i64(*n),
        _ => rendered,
    }
}

} // verus!
