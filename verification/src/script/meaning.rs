//! What the statements of a script do.
use vstd::prelude::*;
use crate::script;
use crate::script::{Answered, Event, Flow, Ran, Request, ScriptBlock, ScriptError, ScriptStmt, State, Stop};
use crate::value::ValueView;

verus! {

/// The next event is this value.
pub open spec fn next_is(s: State, events: Seq<Event>, v: ValueView) -> bool {
    s.used < events.len() && (events[s.used as int] matches Event::Value(x) && x@ == v)
}

/// The state after one more event.
pub open spec fn later(s: State) -> State {
    State { env: s.env, savepoints: s.savepoints, used: s.used + 1 }
}

/// The state with a variable set.
pub open spec fn with(s: State, name: Seq<char>, v: ValueView) -> State {
    State { env: s.env.insert(name, v), savepoints: s.savepoints, used: s.used }
}

/// The run has returned, in the state `t`.
pub open spec fn returned_in(r: Ran, t: State) -> bool {
    r == Ran::Through { returned: true, state: t }
}

// ---------------------------------------------------------------- RETURN

/// `RETURN` ends the run at once, in the state that it is reached in, and asks for nothing.
pub proof fn law_return_ends_at_once(s: State, events: Seq<Event>)
    ensures
        returned_in(script::run_one(ScriptStmt::Return, s, events), s),
{
}

/// Once a statement of a list has returned, the list has returned in the same state: what follows is
/// neither run nor asked for.
pub proof fn law_nothing_runs_after_a_return(
    before: Seq<ScriptStmt>,
    stmt: ScriptStmt,
    after: Seq<ScriptStmt>,
    s: State,
    m: State,
    t: State,
    events: Seq<Event>,
)
    requires
        script::run_stmts(before, 0, s, events) == (Ran::Through { returned: false, state: m }),
        returned_in(script::run_one(stmt, m, events), t),
    ensures
        returned_in(script::run_stmts(before + seq![stmt] + after, 0, s, events), t),
{
    let all = before + seq![stmt] + after;
    lemma_list_prefix(before, all, 0, s, events);
    assert(all[before.len() as int] == stmt);
}

proof fn lemma_list_prefix(a: Seq<ScriptStmt>, all: Seq<ScriptStmt>, i: nat, s: State, events: Seq<Event>)
    requires
        i <= a.len() <= all.len(),
        forall|k: int| 0 <= k < a.len() ==> #[trigger] a[k] == all[k],
    ensures
        script::run_stmts(a, i, s, events) matches Ran::Through { returned: false, state } ==> script::run_stmts(
            all,
            i,
            s,
            events,
        ) == script::run_stmts(all, a.len(), state, events),
        !(script::run_stmts(a, i, s, events) matches Ran::Through { returned: false, .. })
            ==> script::run_stmts(all, i, s, events) == script::run_stmts(a, i, s, events),
    decreases a.len() - i,
{
    if i < a.len() {
        assert(a[i as int] == all[i as int]);
        if let Ran::Through { returned: false, state } = script::run_one(a[i as int], s, events) {
            lemma_list_prefix(a, all, i + 1, state, events);
        }
    }
}

/// Statements run one after the other: a list does what its first part does, and goes on with the rest
/// only from where that came to its end.
pub proof fn law_statements_run_in_order(
    first: Seq<ScriptStmt>,
    rest: Seq<ScriptStmt>,
    s: State,
    events: Seq<Event>,
)
    ensures
        script::run_stmts(first, 0, s, events) matches Ran::Through { returned: false, state }
            ==> script::run_stmts(first + rest, 0, s, events) == script::run_stmts(rest, 0, state, events),
        !(script::run_stmts(first, 0, s, events) matches Ran::Through { returned: false, .. })
            ==> script::run_stmts(first + rest, 0, s, events) == script::run_stmts(first, 0, s, events),
        script::run_stmts(Seq::empty(), 0, s, events) == (Ran::Through { returned: false, state: s }),
{
    let all = first + rest;
    lemma_list_prefix(first, all, 0, s, events);
    if let Ran::Through { returned: false, state } = script::run_stmts(first, 0, s, events) {
        lemma_list_suffix(first, rest, 0, state, events);
    }
}

proof fn lemma_list_suffix(a: Seq<ScriptStmt>, b: Seq<ScriptStmt>, i: nat, s: State, events: Seq<Event>)
    requires
        i <= b.len(),
    ensures
        script::run_stmts(a + b, a.len() + i, s, events) == script::run_stmts(b, i, s, events),
    decreases b.len() - i,
{
    if i < b.len() {
        assert((a + b)[(a.len() + i) as int] == b[i as int]);
        if let Ran::Through { returned: false, state } = script::run_one(b[i as int], s, events) {
            lemma_list_suffix(a, b, i + 1, state, events);
        }
    }
}

/// A list of one statement does what the statement does.
pub proof fn law_one_statement_is_a_list(stmt: ScriptStmt, s: State, events: Seq<Event>)
    ensures
        script::run_stmts(seq![stmt], 0, s, events) == script::run_one(stmt, s, events),
{
    reveal_with_fuel(script::run_stmts, 3);
    assert(seq![stmt][0] == stmt);
}

/// A `RETURN` that the body of a `WHILE` loop reaches ends the whole statement as returned, whatever the
/// iteration.
pub proof fn law_return_leaves_while(stmt: ScriptStmt, iters: nat, s: State, t: State, events: Seq<Event>)
    requires
        stmt is While,
        iters < 1_000_000,
        next_is(s, events, ValueView::Bool(true)),
        returned_in(script::run_stmts(stmt->While_body@, 0, later(s), events), t),
    ensures
        returned_in(script::run_while(stmt->While_cond, stmt->While_body@, iters, s, events), t),
        returned_in(script::run_one(stmt, s, events), t),
{
}

/// A `RETURN` that the body of a `FOR` loop reaches ends the whole statement as returned, whatever the
/// iteration.
pub proof fn law_return_leaves_for(
    stmt: ScriptStmt,
    i: i64,
    hi: i64,
    iters: nat,
    s: State,
    t: State,
    events: Seq<Event>,
)
    requires
        stmt is For,
        i <= hi,
        iters < 1_000_000,
        returned_in(
            script::run_stmts(stmt->For_body@, 0, with(s, stmt->var@, ValueView::Int(i)), events),
            t,
        ),
    ensures
        returned_in(
            script::run_for(stmt->var@, stmt->For_body@, i as int, hi as int, iters, s, events),
            t,
        ),
{
}

/// What the chosen branch of an `IF` does, the `IF` does, a `RETURN` in it too. A branch is chosen by the
/// first condition that is true; conditions after it are not evaluated. Without one it is the `ELSE`
/// branch, and without that nothing happens.
pub proof fn law_if_does_what_its_branch_does(stmt: ScriptStmt, k: nat, s: State, events: Seq<Event>)
    requires
        stmt is If,
        k <= stmt->arms@.len(),
    ensures
        script::run_one(stmt, s, events) == script::run_arms(stmt, 0, s, events),
        k < stmt->arms@.len() && next_is(s, events, ValueView::Bool(true)) ==> script::run_arms(
            stmt,
            k,
            s,
            events,
        ) == script::run_stmts(stmt->arms@[k as int].body@, 0, later(s), events),
        k < stmt->arms@.len() && s.used < events.len() && (events[s.used as int] matches Event::Value(v)
            && v@ != ValueView::Bool(true)) ==> script::run_arms(stmt, k, s, events) == script::run_arms(
            stmt,
            k + 1,
            later(s),
            events,
        ),
        k < stmt->arms@.len() && s.used >= events.len() ==> script::run_arms(stmt, k, s, events)
            == (Ran::Asks { request: Request::Evaluate(stmt->arms@[k as int].cond), state: s }),
        k == stmt->arms@.len() && stmt->els is None ==> script::run_arms(stmt, k, s, events)
            == (Ran::Through { returned: false, state: s }),
        k == stmt->arms@.len() && stmt->els is Some ==> script::run_arms(stmt, k, s, events)
            == script::run_stmts(stmt->els->Some_0@, 0, s, events),
{
}

/// A block without a handler does what its statements do, a `RETURN` in them too.
pub proof fn law_plain_block_does_what_its_statements_do(block: ScriptBlock, s: State, events: Seq<Event>)
    requires
        block.handler is None,
    ensures
        script::run_in_block(block, s, events) == script::run_stmts(block.body@, 0, s, events),
        script::run_one(ScriptStmt::Block(block), s, events) == script::run_in_block(block, s, events),
{
}

/// The caller is told of a run what came of it: that it returned, that it came to its end, what it asks
/// for, or why it failed; and the state it led to.
pub proof fn law_callers_are_told_what_came_of_it(ran: Ran, r: Result<Flow, ScriptError>, after: State)
    requires
        script::led_to(ran, r, after),
    ensures
        ran matches Ran::Through { returned: true, state } ==> r == Ok::<Flow, ScriptError>(Flow::Return)
            && after == state,
        ran matches Ran::Through { returned: false, state } ==> r == Ok::<Flow, ScriptError>(Flow::Normal)
            && after == state,
        ran matches Ran::Asks { request, state } ==> r == Ok::<Flow, ScriptError>(Flow::Asks(request))
            && after == state,
        ran matches Ran::Fails { stop, state } ==> r is Err && after == state && match stop {
            Stop::Outside(k) => r == Err::<Flow, ScriptError>(ScriptError::Outside(k)),
            Stop::Cancelled => r == Err::<Flow, ScriptError>(ScriptError::Cancelled),
            Stop::Raised(v) => r->Err_0 matches ScriptError::Raised(x) && x@ == v,
            Stop::WhileLimit => r == Err::<Flow, ScriptError>(ScriptError::WhileLimit),
            Stop::ForLimit => r == Err::<Flow, ScriptError>(ScriptError::ForLimit),
            Stop::ForBound(v) => r->Err_0 matches ScriptError::ForBound(x) && x@ == v,
        },
{
}

// ---------------------------------------------------------------- loops

/// A `WHILE` loop evaluates its condition first. Unless that is true it is over, without having run its
/// body; NULL is not true.
pub proof fn law_while_stops_unless_true(stmt: ScriptStmt, s: State, v: ValueView, events: Seq<Event>)
    requires
        stmt is While,
        next_is(s, events, v),
        v != ValueView::Bool(true),
    ensures
        script::run_one(stmt, s, events) == (Ran::Through { returned: false, state: later(s) }),
{
}

/// While its condition is true a `WHILE` loop runs its body, and after that it starts over.
pub proof fn law_while_runs_its_body_again(
    stmt: ScriptStmt,
    iters: nat,
    s: State,
    t: State,
    events: Seq<Event>,
)
    requires
        stmt is While,
        iters < 1_000_000,
        next_is(s, events, ValueView::Bool(true)),
        script::run_stmts(stmt->While_body@, 0, later(s), events) == (Ran::Through {
            returned: false,
            state: t,
        }),
    ensures
        script::run_while(stmt->While_cond, stmt->While_body@, iters, s, events) == script::run_while(
            stmt->While_cond,
            stmt->While_body@,
            iters + 1,
            t,
            events,
        ),
        script::run_one(stmt, s, events) == script::run_while(
            stmt->While_cond,
            stmt->While_body@,
            1,
            t,
            events,
        ),
{
}

/// A `WHILE` loop fails where its condition is true after a million iterations, and only there.
pub proof fn law_while_is_limited(stmt: ScriptStmt, iters: nat, s: State, events: Seq<Event>)
    requires
        stmt is While,
        next_is(s, events, ValueView::Bool(true)),
        iters >= 1_000_000,
    ensures
        script::run_while(stmt->While_cond, stmt->While_body@, iters, s, events) == (Ran::Fails {
            stop: Stop::WhileLimit,
            state: later(s),
        }),
{
}

/// A `FOR` loop evaluates its low bound and its high bound, in that order. It is over at once where the
/// low one is above the high one; a bound that is no integer is refused.
pub proof fn law_for_evaluates_its_bounds(stmt: ScriptStmt, s: State, lo: ValueView, hi: ValueView, events: Seq<Event>)
    requires
        stmt is For,
        next_is(s, events, lo),
    ensures
        !(lo is Int) ==> script::run_one(stmt, s, events) == (Ran::Fails {
            stop: Stop::ForBound(lo),
            state: later(s),
        }),
        lo is Int && s.used + 1 >= events.len() ==> script::run_one(stmt, s, events) == (Ran::Asks {
            request: Request::Evaluate(stmt->high),
            state: later(s),
        }),
        lo is Int && next_is(later(s), events, hi) && !(hi is Int) ==> script::run_one(stmt, s, events)
            == (Ran::Fails { stop: Stop::ForBound(hi), state: later(later(s)) }),
        lo is Int && hi is Int && next_is(later(s), events, hi) ==> script::run_one(stmt, s, events)
            == script::run_for(
            stmt->var@,
            stmt->For_body@,
            lo->Int_0 as int,
            hi->Int_0 as int,
            0,
            later(later(s)),
            events,
        ),
        lo is Int && hi is Int && next_is(later(s), events, hi) && lo->Int_0 > hi->Int_0
            ==> script::run_one(stmt, s, events) == (Ran::Through {
            returned: false,
            state: later(later(s)),
        }),
{
}

/// A `FOR` loop runs its body with the variable at each integer from low to high, both included, in
/// rising order, and then is over.
pub proof fn law_for_counts_up_to_its_bound(
    stmt: ScriptStmt,
    i: i64,
    hi: i64,
    iters: nat,
    s: State,
    t: State,
    events: Seq<Event>,
)
    requires
        stmt is For,
        i <= hi,
        iters < 1_000_000,
        script::run_stmts(stmt->For_body@, 0, with(s, stmt->var@, ValueView::Int(i)), events) == (
        Ran::Through { returned: false, state: t }),
    ensures
        i < hi ==> script::run_for(stmt->var@, stmt->For_body@, i as int, hi as int, iters, s, events)
            == script::run_for(stmt->var@, stmt->For_body@, i + 1, hi as int, iters + 1, t, events),
        i == hi ==> script::run_for(stmt->var@, stmt->For_body@, i as int, hi as int, iters, s, events)
            == (Ran::Through { returned: false, state: t }),
{
    if i == hi {
        assert(script::run_for(stmt->var@, stmt->For_body@, i + 1, hi as int, iters + 1, t, events) == (
        Ran::Through { returned: false, state: t }));
    }
}

/// A `FOR` loop fails after a million iterations where it is not over, and only there.
pub proof fn law_for_is_limited(stmt: ScriptStmt, i: i64, hi: i64, iters: nat, s: State, events: Seq<Event>)
    requires
        stmt is For,
        i <= hi,
        iters >= 1_000_000,
    ensures
        script::run_for(stmt->var@, stmt->For_body@, i as int, hi as int, iters, s, events) == (Ran::Fails {
            stop: Stop::ForLimit,
            state: s,
        }),
{
}

/// What the body of a loop asks for, the loop asks for, and what it fails with, the loop fails with.
pub proof fn law_loops_pass_on_requests_and_failures(
    stmt: ScriptStmt,
    i: i64,
    hi: i64,
    iters: nat,
    s: State,
    events: Seq<Event>,
)
    requires
        iters < 1_000_000,
        i <= hi,
    ensures
        stmt is While && next_is(s, events, ValueView::Bool(true)) && !(script::run_stmts(
            stmt->While_body@,
            0,
            later(s),
            events,
        ) is Through) ==> script::run_while(stmt->While_cond, stmt->While_body@, iters, s, events)
            == script::run_stmts(stmt->While_body@, 0, later(s), events),
        stmt is For && !(script::run_stmts(
            stmt->For_body@,
            0,
            with(s, stmt->var@, ValueView::Int(i)),
            events,
        ) is Through) ==> script::run_for(
            stmt->var@,
            stmt->For_body@,
            i as int,
            hi as int,
            iters,
            s,
            events,
        ) == script::run_stmts(stmt->For_body@, 0, with(s, stmt->var@, ValueView::Int(i)), events),
{
}

// ---------------------------------------------------------------- variables, statements, messages

/// A declaration sets its variable to its default, or to NULL without one, and an assignment to the value
/// evaluated. Every other variable keeps its value.
pub proof fn law_variables_are_set(stmt: ScriptStmt, s: State, v: ValueView, other: Seq<char>, events: Seq<Event>)
    ensures
        stmt matches ScriptStmt::Declare { name, default: None } ==> (script::run_one(stmt, s, events)
            matches Ran::Through { returned: false, state: t } && t.env.contains_key(stmt->Declare_name@)
            && t.env[stmt->Declare_name@] is Null && t.used == s.used && (other != stmt->Declare_name@ ==> (
        t.env.contains_key(other) == s.env.contains_key(other) && t.env[other] == s.env[other]))),
        stmt matches ScriptStmt::Declare { name, default: Some(e) } ==> next_is(s, events, v) ==> (
        script::run_one(stmt, s, events) matches Ran::Through { returned: false, state: t }
            && t.env.contains_key(stmt->Declare_name@) && t.env[stmt->Declare_name@] == v && t.used
            == s.used + 1 && (other != stmt->Declare_name@ ==> (t.env.contains_key(other)
            == s.env.contains_key(other) && t.env[other] == s.env[other]))),
        stmt is Assign && next_is(s, events, v) ==> (script::run_one(stmt, s, events)
            matches Ran::Through { returned: false, state: t } && t.env.contains_key(stmt->Assign_name@)
            && t.env[stmt->Assign_name@] == v && t.used == s.used + 1 && (other != stmt->Assign_name@ ==> (
        t.env.contains_key(other) == s.env.contains_key(other) && t.env[other] == s.env[other]))),
{
}

/// What each statement asks for first.
pub proof fn law_statements_ask_for_what_they_name(stmt: ScriptStmt, s: State, events: Seq<Event>)
    requires
        s.used >= events.len(),
    ensures
        stmt matches ScriptStmt::Declare { default: Some(e), .. } ==> script::run_one(stmt, s, events) == (
        Ran::Asks { request: Request::Evaluate(stmt->default->Some_0), state: s }),
        stmt is Assign ==> script::run_one(stmt, s, events) == (Ran::Asks {
            request: Request::Evaluate(stmt->value),
            state: s,
        }),
        stmt is While ==> script::run_one(stmt, s, events) == (Ran::Asks {
            request: Request::Evaluate(stmt->While_cond),
            state: s,
        }),
        stmt is For ==> script::run_one(stmt, s, events) == (Ran::Asks {
            request: Request::Evaluate(stmt->low),
            state: s,
        }),
        stmt is Raise ==> script::run_one(stmt, s, events) == (Ran::Asks {
            request: Request::Evaluate(stmt->Raise_0),
            state: s,
        }),
        stmt is Sql ==> script::run_one(stmt, s, events) == (Ran::Asks {
            request: Request::Run(stmt->Sql_0),
            state: s,
        }),
{
}

/// `RAISE` fails with the value evaluated, and a statement of SQL that was run lets the script go on with
/// its variables as they were.
pub proof fn law_raise_fails_and_sql_goes_on(stmt: ScriptStmt, s: State, v: ValueView, events: Seq<Event>)
    ensures
        stmt is Raise && next_is(s, events, v) ==> script::run_one(stmt, s, events) == (Ran::Fails {
            stop: Stop::Raised(v),
            state: later(s),
        }),
        stmt is Sql && s.used < events.len() && (events[s.used as int] is Done
            || events[s.used as int] is Value) ==> script::run_one(stmt, s, events) == (Ran::Through {
            returned: false,
            state: later(s),
        }),
{
}

/// What was asked for and failed, fails the script with its error, and a cancellation cancels it.
pub proof fn law_failures_come_through(request: Request, s: State, events: Seq<Event>)
    requires
        s.used < events.len(),
    ensures
        events[s.used as int] matches Event::Failed(k) ==> script::ask(request, s, events)
            == Answered::Other(Ran::Fails { stop: Stop::Outside(k), state: later(s) }),
        events[s.used as int] is Cancelled ==> script::ask(request, s, events) == Answered::Other(
            Ran::Fails { stop: Stop::Cancelled, state: later(s) },
        ),
        events[s.used as int] matches Event::Value(v) ==> script::ask(request, s, events)
            == (Answered::Value { value: v@, state: later(s) }),
{
}

// ---------------------------------------------------------------- handlers

/// The state of a block with a handler once its savepoint stands.
pub open spec fn behind_savepoint(s: State) -> State {
    State {
        env: s.env,
        savepoints: if s.savepoints == u64::MAX {
            0
        } else {
            (s.savepoints + 1) as u64
        },
        used: s.used + 1,
    }
}

/// The next event says that it is done.
pub open spec fn next_done(s: State, events: Seq<Event>) -> bool {
    s.used < events.len() && events[s.used as int] is Done
}

/// A block with a handler sets a savepoint and runs its body. Where the body came to its end, or
/// returned, the savepoint is released and the block is over in the same way. Where the body failed, it
/// is rolled back to the savepoint and the handler runs instead. A cancellation is not handled.
pub proof fn law_handlers_catch_failures(block: ScriptBlock, s: State, events: Seq<Event>)
    requires
        block.handler is Some,
    ensures
        s.used >= events.len() ==> (script::run_in_block(block, s, events) matches Ran::Asks { request, .. }
            && request == Request::Savepoint(s.savepoints)),
        next_done(s, events) ==> match script::run_stmts(block.body@, 0, behind_savepoint(s), events) {
            Ran::Through { returned, state: t } => {
                &&& next_done(t, events) ==> script::run_in_block(block, s, events) == (Ran::Through {
                    returned,
                    state: later(t),
                })
                &&& t.used >= events.len() ==> script::run_in_block(block, s, events) == (Ran::Asks {
                    request: Request::Release(s.savepoints),
                    state: t,
                })
            },
            Ran::Fails { stop: Stop::Cancelled, state: t } => script::run_in_block(block, s, events) == (
            Ran::Fails { stop: Stop::Cancelled, state: t }),
            Ran::Fails { state: t, .. } => {
                &&& next_done(t, events) ==> script::run_in_block(block, s, events) == script::run_stmts(
                    block.handler->Some_0@,
                    0,
                    later(t),
                    events,
                )
                &&& t.used >= events.len() ==> script::run_in_block(block, s, events) == (Ran::Asks {
                    request: Request::RollbackTo(s.savepoints),
                    state: t,
                })
            },
            Ran::Asks { request, state: t } => script::run_in_block(block, s, events) == (Ran::Asks {
                request,
                state: t,
            }),
        },
{
}

/// A text is raised as it is, an integer as its digits, NULL and the booleans by their names.
pub proof fn law_raised_values_are_readable(s: Seq<char>, rendered: Seq<char>)
    ensures
        script::raised_text(ValueView::Text(s), rendered) == s,
        script::raised_text(ValueView::Null, rendered) == "NULL"@,
        script::raised_text(ValueView::Bool(true), rendered) == "true"@,
        script::raised_text(ValueView::Bool(false), rendered) == "false"@,
{
}

} // verus!
