//! Vector searches: the search is taken one step further with each answer.
use vstd::prelude::*;
use crate::exec;
use crate::exec::{Answer, AnswerView, Ask, AskView, Context, ContextView, Failure, Flow, FlowView, Tape};
use crate::setops;
use crate::sort;
use crate::value::{Row, Value, ValueView};
use crate::vector::search;
use crate::vector::search::{KnnAnswer, KnnAnswerView, KnnQuery, KnnStep, KnnStepView};

verus! {

/// A search for the query that was given: a query that is no vector has no length.
pub open spec fn search_for(query: ValueView, column: usize, k: u64, filtered: bool) -> KnnQuery {
    KnnQuery {
        query: match query {
            ValueView::Vector(v) => Some(v.len() as usize),
            _ => None,
        },
        column,
        k,
        filtered,
    }
}

/// A search that has got these answers: its rows, or its next request.
pub open spec fn search_from(
    cx: ContextView,
    id: u64,
    q: KnnQuery,
    tape: Tape,
    used: nat,
    answers: Seq<KnnAnswerView>,
) -> FlowView
    decreases tape.len() - used,
{
    match search::knn_step(q, cx.beam, answers) {
        KnnStepView::Done(rows) => FlowView::Rows(rows, None, used),
        KnnStepView::BadAnswer => exec::failing(Failure::BadAnswer, used),
        step => if used >= tape.len() {
            exec::asking(cx, id, AskView::Search(step))
        } else {
            match tape[used as int] {
                AnswerView::Knn(a) => search_from(cx, id, q, tape, used + 1, answers.push(a)),
                AnswerView::Failed => exec::failing(Failure::Outside, used + 1),
                _ => exec::failing(Failure::BadAnswer, used + 1),
            }
        },
    }
}

/// A vector search: its query first, and then step by step.
pub open spec fn nearest_step(
    cx: ContextView,
    id: u64,
    column: usize,
    k: u64,
    filtered: bool,
    tape: Tape,
    used: nat,
) -> FlowView {
    if used >= tape.len() {
        exec::asking(cx, id, AskView::Query)
    } else {
        match tape[used as int] {
            AnswerView::Values(vs) => if vs.len() == 1 {
                search_from(
                    cx,
                    id,
                    search_for(vs[0], column, k, filtered),
                    tape,
                    used + 1,
                    Seq::empty(),
                )
            } else {
                exec::failing(Failure::BadAnswer, used + 1)
            },
            AnswerView::Failed => exec::failing(Failure::Outside, used + 1),
            _ => exec::failing(Failure::BadAnswer, used + 1),
        }
    }
}

fn copy_answer(a: &KnnAnswer) -> (r: KnnAnswer)
    ensures
        r@ == a@,
{
    match a {
        KnnAnswer::Index(d) => KnnAnswer::Index(*d),
        KnnAnswer::Signature(s) => KnnAnswer::Signature(*s),
        KnnAnswer::Cached(s) => KnnAnswer::Cached(*s),
        KnnAnswer::Loaded(b) => KnnAnswer::Loaded(*b),
        KnnAnswer::Ready => KnnAnswer::Ready,
        KnnAnswer::Hits { hits, places, rows } => KnnAnswer::Hits {
            hits: copy_all(hits),
            places: copy_all(places),
            rows: setops::clone_rows(rows),
        },
        KnnAnswer::Rows(rows) => KnnAnswer::Rows(setops::clone_rows(rows)),
        KnnAnswer::Verdicts(vs) => KnnAnswer::Verdicts(sort::clone_row(vs)),
        KnnAnswer::Distances(ds) => KnnAnswer::Distances(copy_all(ds)),
    }
}

fn copy_all<T: Copy>(xs: &Vec<T>) -> (r: Vec<T>)
    ensures
        r@ == xs@,
{
    let mut out: Vec<T> = Vec::new();
    let mut i: usize = 0;
    while i < xs.len()
        invariant
            i <= xs@.len(),
            out@ == xs@.take(i as int),
        decreases xs@.len() - i,
    {
        out.push(xs[i]);
        assert(xs@.take(i + 1) =~= xs@.take(i as int).push(xs@[i as int]));
        i += 1;
    }
    assert(xs@.take(xs@.len() as int) =~= xs@);
    out
}

fn search_flow(cx: &Context, id: u64, q: KnnQuery, tape: &Vec<Answer>, used: usize) -> (r: Flow)
    ensures
        r@ == search_from(cx@, id, q, tape.deep_view(), used as nat, Seq::empty()),
{
    let ghost want = search_from(cx@, id, q, tape.deep_view(), used as nat, Seq::empty());
    let setting: Option<&str> = match &cx.beam {
        Some(s) => Some(s.as_str()),
        None => None,
    };
    let mut answers: Vec<KnnAnswer> = Vec::new();
    let mut at: usize = used;
    assert(answers.deep_view() =~= Seq::empty());
    while at < tape.len()
        invariant
            want == search_from(cx@, id, q, tape.deep_view(), used as nat, Seq::empty()),
            cx@.beam == (match setting {
                Some(s) => Some(s@),
                None => None,
            }),
            want == search_from(cx@, id, q, tape.deep_view(), at as nat, answers.deep_view()),
        decreases tape@.len() - at,
    {
        match search::run_vector_knn(q, setting, &answers) {
            KnnStep::Done(rows) => {
                return Flow::Rows { rows, failed: None, used: at };
            },
            KnnStep::BadAnswer => {
                return exec::fail(Failure::BadAnswer, at);
            },
            _ => {},
        }
        assert(tape.deep_view()[at as int] == tape@[at as int]@);
        match &tape[at] {
            Answer::Knn(a) => {
                let ghost before = answers.deep_view();
                answers.push(copy_answer(a));
                assert(answers.deep_view() =~= before.push(a@));
            },
            Answer::Failed => {
                return exec::fail(Failure::Outside, at + 1);
            },
            _ => {
                return exec::fail(Failure::BadAnswer, at + 1);
            },
        }
        at += 1;
    }
    match search::run_vector_knn(q, setting, &answers) {
        KnnStep::Done(rows) => Flow::Rows { rows, failed: None, used: at },
        KnnStep::BadAnswer => exec::fail(Failure::BadAnswer, at),
        step => exec::needs(cx, id, Ask::Search(step)),
    }
}

pub(crate) fn nearest_flow(
    cx: &Context,
    id: u64,
    column: usize,
    k: u64,
    filtered: bool,
    tape: &Vec<Answer>,
    used: usize,
) -> (r: Flow)
    ensures
        r@ == nearest_step(cx@, id, column, k, filtered, tape.deep_view(), used as nat),
{
    if used >= tape.len() {
        return exec::needs(cx, id, Ask::Query);
    }
    assert(tape.deep_view()[used as int] == tape@[used as int]@);
    match &tape[used] {
        Answer::Values(vs) => {
            if vs.len() != 1 {
                return exec::fail(Failure::BadAnswer, used + 1);
            }
            assert(vs.deep_view()[0] == vs@[0]@);
            let query: Option<usize> = match &vs[0] {
                Value::Vector(v) => Some(v.len()),
                _ => None,
            };
            search_flow(cx, id, KnnQuery { query, column, k, filtered }, tape, used + 1)
        },
        Answer::Failed => exec::fail(Failure::Outside, used + 1),
        _ => exec::fail(Failure::BadAnswer, used + 1),
    }
}

/// A vector search never gives more rows than are wanted.
pub proof fn law_search_gives_no_more_rows_than_wanted(
    cx: ContextView,
    id: u64,
    column: usize,
    k: u64,
    filtered: bool,
    tape: Tape,
    used: nat,
)
    ensures
        nearest_step(cx, id, column, k, filtered, tape, used) matches FlowView::Rows(rows, _, _)
            ==> rows.len() <= k,
{
    if used < tape.len() {
        if let AnswerView::Values(vs) = tape[used as int] {
            if vs.len() == 1 {
                lemma_search_bounded(
                    cx,
                    id,
                    search_for(vs[0], column, k, filtered),
                    tape,
                    used + 1,
                    Seq::empty(),
                );
            }
        }
    }
}

proof fn lemma_search_bounded(
    cx: ContextView,
    id: u64,
    q: KnnQuery,
    tape: Tape,
    used: nat,
    answers: Seq<KnnAnswerView>,
)
    ensures
        search_from(cx, id, q, tape, used, answers) matches FlowView::Rows(rows, _, _) ==> rows.len()
            <= q.k,
    decreases tape.len() - used,
{
    search::law_no_more_rows_than_wanted(q, cx.beam, answers);
    if used < tape.len() {
        if let AnswerView::Knn(a) = tape[used as int] {
            lemma_search_bounded(cx, id, q, tape, used + 1, answers.push(a));
        }
    }
}

} // verus!
