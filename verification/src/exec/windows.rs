//! Window operators: what each window function takes is asked for, and its column is worked out.
use vstd::prelude::*;
use crate::exec;
use crate::exec::{Answer, AnswerView, Ask, AskView, Context, ContextView, Failure, Flow, FlowView, Tape};
use crate::order::{SortKey, ValueOrder};
use crate::setops;
use crate::setops::Rows;
use crate::sort;
use crate::sort::KeyRows;
use crate::value::{Row, Value, ValueView};
use crate::window::run;
use crate::window::run::{CellView, Window, WindowCell};
use crate::window::{Shifts, WindowFunc};

verus! {

/// The order of the first window function.
pub open spec fn first_order(windows: Seq<Window>) -> Seq<SortKey> {
    if windows.len() > 0 {
        windows[0].order@
    } else {
        Seq::empty()
    }
}

pub(crate) fn leading_order(windows: &Vec<Window>) -> (r: Vec<SortKey>)
    ensures
        r@ == first_order(windows@),
{
    let mut out: Vec<SortKey> = Vec::new();
    if windows.len() > 0 {
        let keys = &windows[0].order;
        let mut i: usize = 0;
        while i < keys.len()
            invariant
                i <= keys@.len(),
                out@ == keys@.take(i as int),
            decreases keys@.len() - i,
        {
            out.push(keys[i]);
            assert(keys@.take(i + 1) =~= keys@.take(i as int).push(keys@[i as int]));
            i += 1;
        }
        assert(keys@.take(keys@.len() as int) =~= keys@);
    }
    out
}

/// The values of a column, or where working it out stopped.
pub enum ColumnStep {
    Column(Seq<ValueView>, nat),
    Stop(FlowView),
}

/// The values among the cells.
pub open spec fn values_of(cells: Seq<CellView>) -> Seq<ValueView> {
    cells.map_values(
        |c: CellView|
            match c {
                CellView::Value(v) => v,
                _ => ValueView::Null,
            },
    )
}

/// The frames among the cells.
pub open spec fn frames_of(cells: Seq<CellView>) -> Seq<Seq<usize>> {
    cells.map_values(
        |c: CellView|
            match c {
                CellView::Frame(places) => places,
                _ => Seq::empty(),
            },
    )
}

/// The shares among the cells.
pub open spec fn shares_of(cells: Seq<CellView>) -> Seq<(usize, usize)> {
    cells.map_values(
        |c: CellView|
            match c {
                CellView::Share(n, d) => (n as usize, d as usize),
                _ => (0usize, 0usize),
            },
    )
}

/// A column that is asked for: as many values as there are rows.
pub open spec fn asked_column(cx: ContextView, id: u64, ask: AskView, n: nat, tape: Tape, used: nat) -> ColumnStep {
    if used >= tape.len() {
        ColumnStep::Stop(exec::asking(cx, id, ask))
    } else {
        match tape[used as int] {
            AnswerView::Values(vs) => if vs.len() == n {
                ColumnStep::Column(vs, used + 1)
            } else if vs.len() < n {
                ColumnStep::Stop(exec::failing(Failure::Outside, used + 1))
            } else {
                ColumnStep::Stop(exec::failing(Failure::BadAnswer, used + 1))
            },
            AnswerView::Failed => ColumnStep::Stop(exec::failing(Failure::Outside, used + 1)),
            _ => ColumnStep::Stop(exec::failing(Failure::BadAnswer, used + 1)),
        }
    }
}

/// The column that the cells of a window function make: its values, or the aggregates of its frames, or
/// the values of its shares.
pub open spec fn cells_column(
    cx: ContextView,
    id: u64,
    func: WindowFunc,
    window: usize,
    rows: Rows,
    cells: Seq<CellView>,
    tape: Tape,
    used: nat,
) -> ColumnStep {
    match func {
        WindowFunc::Aggregate => asked_column(
            cx,
            id,
            AskView::WindowFolds(window, rows, frames_of(cells)),
            rows.len(),
            tape,
            used,
        ),
        WindowFunc::CumeDist | WindowFunc::PercentRank => asked_column(
            cx,
            id,
            AskView::Shares(shares_of(cells)),
            rows.len(),
            tape,
            used,
        ),
        _ => ColumnStep::Column(values_of(cells), used),
    }
}

/// What a window function takes has an entry for each row, and a key for each directive of its order.
pub open spec fn input_fits(
    n: nat,
    width: nat,
    partition: KeyRows,
    order: KeyRows,
    args: Seq<Seq<ValueView>>,
    shifts: Seq<Shifts>,
) -> bool {
    partition.len() == n && order.len() == n && args.len() == n && shifts.len() == n && sort::keyed(
        order,
        width,
    )
}

/// The column of one window function: its cells, from what it takes of each row.
pub open spec fn column_step<O: ValueOrder>(
    o: &O,
    cx: ContextView,
    id: u64,
    win: Window,
    window: usize,
    rows: Rows,
    tape: Tape,
    used: nat,
) -> ColumnStep {
    if used >= tape.len() {
        ColumnStep::Stop(exec::asking(cx, id, AskView::WindowInput(window, rows)))
    } else {
        match tape[used as int] {
            AnswerView::Window { partition, order, args, shifts } => if !input_fits(
                rows.len(),
                win.order@.len(),
                partition,
                order,
                args,
                shifts,
            ) {
                ColumnStep::Stop(exec::failing(Failure::BadAnswer, used + 1))
            } else if rows.len() > i64::MAX {
                ColumnStep::Stop(exec::failing(Failure::TooManyRows, used + 1))
            } else if run::refuses(o, win, partition, order, args) {
                ColumnStep::Stop(exec::failing(Failure::BucketCount, used + 1))
            } else {
                cells_column(
                    cx,
                    id,
                    win.func,
                    window,
                    rows,
                    run::cells_of(o, win, partition, order, args, shifts),
                    tape,
                    used + 1,
                )
            },
            AnswerView::Failed => ColumnStep::Stop(exec::failing(Failure::Outside, used + 1)),
            _ => ColumnStep::Stop(exec::failing(Failure::BadAnswer, used + 1)),
        }
    }
}

/// The rows with a column appended for each window function, those from `j` on behind the `columns`
/// that are there already.
pub open spec fn columns_from<O: ValueOrder>(
    o: &O,
    cx: ContextView,
    id: u64,
    windows: Seq<Window>,
    rows: Rows,
    tape: Tape,
    used: nat,
    j: nat,
    columns: Seq<Seq<ValueView>>,
) -> FlowView
    decreases windows.len() - j,
{
    if j >= windows.len() {
        FlowView::Rows(
            Seq::new(rows.len(), |i: int| run::with_columns(rows[i], columns, i)),
            None,
            used,
        )
    } else {
        match column_step(o, cx, id, windows[j as int], j as usize, rows, tape, used) {
            ColumnStep::Column(vs, u) => columns_from(
                o,
                cx,
                id,
                windows,
                rows,
                tape,
                u,
                j + 1,
                columns.push(vs),
            ),
            ColumnStep::Stop(f) => f,
        }
    }
}

/// Append the columns of the window functions to a complete child's rows.
pub open spec fn windows_step<O: ValueOrder>(
    o: &O,
    cx: ContextView,
    id: u64,
    windows: Seq<Window>,
    child: FlowView,
    tape: Tape,
) -> FlowView {
    match child {
        FlowView::Rows(rows, None, used) => columns_from(
            o,
            cx,
            id,
            windows,
            rows,
            tape,
            used,
            0,
            Seq::empty(),
        ),
        other => other,
    }
}

fn take_column(cx: &Context, id: u64, ask: Ask, n: usize, tape: &Vec<Answer>, used: usize) -> (r: Result<
    (Vec<Value>, usize),
    Flow,
>)
    ensures
        match asked_column(cx@, id, ask@, n as nat, tape.deep_view(), used as nat) {
            ColumnStep::Column(vs, u) => r matches Ok(c) && c.0.deep_view() == vs && c.1 == u,
            ColumnStep::Stop(f) => r matches Err(flow) && flow@ == f,
        },
{
    if used >= tape.len() {
        return Err(exec::needs(cx, id, ask));
    }
    assert(tape.deep_view()[used as int] == tape@[used as int]@);
    match &tape[used] {
        Answer::Values(vs) => {
            if vs.len() == n {
                Ok((sort::clone_row(vs), used + 1))
            } else if vs.len() < n {
                Err(exec::fail(Failure::Outside, used + 1))
            } else {
                Err(exec::fail(Failure::BadAnswer, used + 1))
            }
        },
        Answer::Failed => Err(exec::fail(Failure::Outside, used + 1)),
        _ => Err(exec::fail(Failure::BadAnswer, used + 1)),
    }
}

fn take_values(cells: Vec<WindowCell>) -> (r: Vec<Value>)
    ensures
        r.deep_view() == values_of(cells@.map_values(|c: WindowCell| c@)),
{
    let ghost all = cells@;
    let mut out: Vec<Value> = Vec::new();
    for c in it: cells
        invariant
            it.seq() == all,
            out@.len() == it.index(),
            forall|k: int|
                0 <= k < out@.len() ==> (#[trigger] out@[k])@ == match all[k]@ {
                    CellView::Value(v) => v,
                    _ => ValueView::Null,
                },
    {
        match c {
            WindowCell::Value(v) => {
                out.push(v);
            },
            _ => {
                out.push(Value::Null);
            },
        }
    }
    assert(out.deep_view() =~= values_of(all.map_values(|c: WindowCell| c@)));
    out
}

fn take_frames(cells: Vec<WindowCell>) -> (r: Vec<Vec<usize>>)
    ensures
        r.deep_view() == frames_of(cells@.map_values(|c: WindowCell| c@)),
{
    let ghost all = cells@;
    let mut out: Vec<Vec<usize>> = Vec::new();
    for c in it: cells
        invariant
            it.seq() == all,
            out@.len() == it.index(),
            forall|k: int|
                0 <= k < out@.len() ==> (#[trigger] out@[k])@ == match all[k]@ {
                    CellView::Frame(places) => places,
                    _ => Seq::empty(),
                },
    {
        match c {
            WindowCell::Frame(places) => {
                out.push(places);
            },
            _ => {
                let none: Vec<usize> = Vec::new();
                assert(none@ =~= Seq::empty());
                out.push(none);
            },
        }
    }
    assert forall|k: int| 0 <= k < out@.len() implies out.deep_view()[k] == frames_of(
        all.map_values(|c: WindowCell| c@),
    )[k] by {
        assert(out.deep_view()[k] =~= out@[k]@);
    }
    assert(out.deep_view() =~= frames_of(all.map_values(|c: WindowCell| c@)));
    out
}

fn take_shares(cells: Vec<WindowCell>) -> (r: Vec<(usize, usize)>)
    ensures
        r@ == shares_of(cells@.map_values(|c: WindowCell| c@)),
{
    let ghost all = cells@;
    let mut out: Vec<(usize, usize)> = Vec::new();
    for c in it: cells
        invariant
            it.seq() == all,
            out@.len() == it.index(),
            forall|k: int|
                0 <= k < out@.len() ==> #[trigger] out@[k] == match all[k]@ {
                    CellView::Share(n, d) => (n as usize, d as usize),
                    _ => (0usize, 0usize),
                },
    {
        match c {
            WindowCell::Share(n, d) => {
                out.push((n, d));
            },
            _ => {
                out.push((0, 0));
            },
        }
    }
    assert(out@ =~= shares_of(all.map_values(|c: WindowCell| c@)));
    out
}

fn window_column<O: ValueOrder>(
    o: &O,
    cx: &Context,
    id: u64,
    win: &Window,
    window: usize,
    rows: &Vec<Row>,
    tape: &Vec<Answer>,
    used: usize,
) -> (r: Result<(Vec<Value>, usize), Flow>)
    ensures
        match column_step(o, cx@, id, *win, window, rows.deep_view(), tape.deep_view(), used as nat) {
            ColumnStep::Column(vs, u) => r matches Ok(c) && c.0.deep_view() == vs && c.1 == u,
            ColumnStep::Stop(f) => r matches Err(flow) && flow@ == f,
        },
{
    if used >= tape.len() {
        return Err(exec::needs(cx, id, Ask::WindowInput { window, rows: setops::clone_rows(rows) }));
    }
    assert(tape.deep_view()[used as int] == tape@[used as int]@);
    match &tape[used] {
        Answer::Window { partition, order, args, shifts } => {
            let n: usize = rows.len();
            if partition.len() != n || order.len() != n || args.len() != n || shifts.len() != n
                || !exec::rows_are_wide(order, win.order.len()) {
                return Err(exec::fail(Failure::BadAnswer, used + 1));
            }
            if n as u128 > i64::MAX as u128 {
                return Err(exec::fail(Failure::TooManyRows, used + 1));
            }
            match run::compute_window(o, win, partition, order, args, shifts) {
                Ok(cells) => {
                    proof {
                        let pv = partition.deep_view();
                        let ov = order.deep_view();
                        let av = args.deep_view();
                        let cv = cells@.map_values(|c: WindowCell| c@);
                        run::lemma_filled_cells(o, *win, pv, ov, av, shifts@, cv);
                        assert(!run::refuses(o, *win, pv, ov, av));
                    }
                    match win.func {
                        WindowFunc::Aggregate => {
                            let frames = take_frames(cells);
                            let ask = Ask::WindowFolds {
                                window,
                                rows: setops::clone_rows(rows),
                                frames,
                            };
                            take_column(cx, id, ask, n, tape, used + 1)
                        },
                        WindowFunc::CumeDist | WindowFunc::PercentRank => {
                            let shares = take_shares(cells);
                            take_column(cx, id, Ask::Shares(shares), n, tape, used + 1)
                        },
                        _ => Ok((take_values(cells), used + 1)),
                    }
                },
                Err(_) => {
                    assert(run::refuses(
                        o,
                        *win,
                        partition.deep_view(),
                        order.deep_view(),
                        args.deep_view(),
                    ));
                    Err(exec::fail(Failure::BucketCount, used + 1))
                },
            }
        },
        Answer::Failed => Err(exec::fail(Failure::Outside, used + 1)),
        _ => Err(exec::fail(Failure::BadAnswer, used + 1)),
    }
}

pub(crate) fn windows_flow<O: ValueOrder>(
    o: &O,
    cx: &Context,
    id: u64,
    windows: &Vec<Window>,
    child: Flow,
    tape: &Vec<Answer>,
) -> (r: Flow)
    ensures
        r@ == windows_step(o, cx@, id, windows@, child@, tape.deep_view()),
{
    let ghost want = windows_step(o, cx@, id, windows@, child@, tape.deep_view());
    match child {
        Flow::Rows { rows, failed: None, used } => {
            let ghost rv = rows.deep_view();
            let mut columns: Vec<Vec<Value>> = Vec::new();
            let mut at: usize = used;
            let mut j: usize = 0;
            assert(columns.deep_view() =~= Seq::empty());
            while j < windows.len()
                invariant
                    want == windows_step(o, cx@, id, windows@, child@, tape.deep_view()),
                    rv == rows.deep_view(),
                    j <= windows@.len(),
                    want == columns_from(
                        o,
                        cx@,
                        id,
                        windows@,
                        rv,
                        tape.deep_view(),
                        at as nat,
                        j as nat,
                        columns.deep_view(),
                    ),
                decreases windows@.len() - j,
            {
                match window_column(o, cx, id, &windows[j], j, &rows, tape, at) {
                    Ok((column, u)) => {
                        let ghost before = columns.deep_view();
                        let ghost cv = column.deep_view();
                        columns.push(column);
                        assert(columns.deep_view() =~= before.push(cv));
                        at = u;
                    },
                    Err(flow) => {
                        return flow;
                    },
                }
                j += 1;
            }
            let ghost cv = columns.deep_view();
            let out = run::run_window(rows, &columns);
            assert(out.deep_view() =~= Seq::new(
                rv.len(),
                |i: int| run::with_columns(rv[i], cv, i),
            ));
            Flow::Rows { rows: out, failed: None, used: at }
        },
        other => other,
    }
}

// ---------------------------------------------------------------- laws

proof fn lemma_columns_appended<O: ValueOrder>(
    o: &O,
    cx: ContextView,
    id: u64,
    windows: Seq<Window>,
    rows: Rows,
    tape: Tape,
    used: nat,
    j: nat,
    columns: Seq<Seq<ValueView>>,
)
    requires
        j <= windows.len(),
        columns.len() == j,
    ensures
        columns_from(o, cx, id, windows, rows, tape, used, j, columns) matches FlowView::Rows(out, failed, _)
            ==> failed is None && out.len() == rows.len() && forall|i: int|
            0 <= i < rows.len() ==> (#[trigger] out[i]).len() == rows[i].len() + windows.len()
                && out[i].take(rows[i].len() as int) == rows[i],
    decreases windows.len() - j,
{
    if j < windows.len() {
        if let ColumnStep::Column(vs, u) = column_step(
            o,
            cx,
            id,
            windows[j as int],
            j as usize,
            rows,
            tape,
            used,
        ) {
            lemma_columns_appended(o, cx, id, windows, rows, tape, u, j + 1, columns.push(vs));
        } else {
            lemma_column_stops(o, cx, id, windows[j as int], j as usize, rows, tape, used);
        }
    } else {
        let out = Seq::new(rows.len(), |i: int| run::with_columns(rows[i], columns, i));
        assert forall|i: int| 0 <= i < rows.len() implies (#[trigger] out[i]).len() == rows[i].len()
            + windows.len() && out[i].take(rows[i].len() as int) == rows[i] by {
            assert(out[i].take(rows[i].len() as int) =~= rows[i]);
        }
    }
}

proof fn lemma_column_stops<O: ValueOrder>(
    o: &O,
    cx: ContextView,
    id: u64,
    win: Window,
    window: usize,
    rows: Rows,
    tape: Tape,
    used: nat,
)
    ensures
        column_step(o, cx, id, win, window, rows, tape, used) matches ColumnStep::Stop(f) ==> f !is Rows,
{
}

/// A window operator keeps its child's rows, in their order, and appends a column to each for every
/// window function.
pub proof fn law_windows_keep_the_rows<O: ValueOrder>(
    o: &O,
    cx: ContextView,
    id: u64,
    windows: Seq<Window>,
    rows: Rows,
    used: nat,
    tape: Tape,
)
    ensures
        windows_step(o, cx, id, windows, FlowView::Rows(rows, None, used), tape) matches FlowView::Rows(
            out,
            failed,
            _,
        ) ==> failed is None && out.len() == rows.len() && forall|i: int|
            0 <= i < rows.len() ==> (#[trigger] out[i]).len() == rows[i].len() + windows.len()
                && out[i].take(rows[i].len() as int) == rows[i],
{
    lemma_columns_appended(o, cx, id, windows, rows, tape, used, 0, Seq::empty());
}

} // verus!
