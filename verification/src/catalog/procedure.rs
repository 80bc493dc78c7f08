//! Stored procedures: their catalog, and what a call is checked for and gives back.
//!
//! A catalog row is `(name, param_count, out_params, body)`; the names of the `OUT` parameters stand
//! in one field, with commas between.
use vstd::prelude::*;
use crate::catalog;
use crate::catalog::{find_named, join_texts, split_text, text_value};
use crate::error::Error;
use crate::names::NameMap;
use crate::numbers;
use crate::numbers::{parse_u64, print_u64};
use crate::text::same_text;
use crate::value::{Row, Value, ValueView};

verus! {

/// How deep calls may nest.
pub const MAX_CALL_DEPTH: usize = 64;

/// How deep the running calls are nested.
pub struct CallDepth {
    depth: usize,
}

impl View for CallDepth {
    type V = usize;

    closed spec fn view(&self) -> usize {
        self.depth
    }
}

impl CallDepth {
    /// No call is running.
    pub fn new() -> (r: CallDepth)
        ensures
            r@ == 0,
    {
        CallDepth { depth: 0 }
    }

    /// A call begins; refused where calls are nested as deep as they may.
    pub fn enter(&mut self) -> (r: Result<(), Error>)
        ensures
            old(self)@ >= MAX_CALL_DEPTH ==> r == Err::<(), Error>(
                Error::ProcedureRecursionLimit { limit: MAX_CALL_DEPTH },
            ) && final(self)@ == old(self)@,
            old(self)@ < MAX_CALL_DEPTH ==> r is Ok && final(self)@ == old(self)@ + 1,
    {
        if self.depth >= MAX_CALL_DEPTH {
            return Err(Error::ProcedureRecursionLimit { limit: MAX_CALL_DEPTH });
        }
        self.depth = self.depth + 1;
        Ok(())
    }

    /// A call ends.
    pub fn leave(&mut self)
        ensures
            old(self)@ > 0 ==> final(self)@ == old(self)@ - 1,
            old(self)@ == 0 ==> final(self)@ == 0,
    {
        if self.depth > 0 {
            self.depth = self.depth - 1;
        }
    }
}

/// A procedure's definition.
#[derive(Debug, PartialEq, Eq)]
pub struct Procedure {
    /// How many arguments a call takes.
    pub param_count: usize,
    /// The names of the `OUT` parameters.
    pub out_params: Vec<String>,
    /// The statements.
    pub body: String,
}

/// What a [`Procedure`] holds.
pub struct ProcedureView {
    pub param_count: usize,
    pub out_params: Seq<Seq<char>>,
    pub body: Seq<char>,
}

impl DeepView for Procedure {
    type V = ProcedureView;

    open spec fn deep_view(&self) -> ProcedureView {
        ProcedureView {
            param_count: self.param_count,
            out_params: self.out_params.deep_view(),
            body: self.body@,
        }
    }
}

/// The catalog row of a procedure.
pub open spec fn recorded(name: Seq<char>, p: ProcedureView) -> Seq<ValueView> {
    seq![
        ValueView::Text(name),
        ValueView::Text(numbers::decimal(p.param_count as int)),
        ValueView::Text(catalog::join(p.out_params, ',')),
        ValueView::Text(p.body),
    ]
}

/// The catalog row of a procedure.
pub fn procedure_row(name: &str, p: &Procedure) -> (r: Row)
    ensures
        r.deep_view() == recorded(name@, p.deep_view()),
{
    let mut out: Vec<Value> = Vec::new();
    out.push(text_value(name));
    out.push(Value::Text(print_u64(p.param_count as u64)));
    out.push(Value::Text(join_texts(&p.out_params, ',')));
    out.push(text_value(p.body.as_str()));
    assert(out.deep_view() =~= recorded(name@, p.deep_view()));
    out
}

/// The number of parameters that a text spells; none where it spells no number that fits.
pub open spec fn spelled_count(s: Seq<char>) -> usize {
    match numbers::spelled_u64(s) {
        Some(n) => if n <= usize::MAX {
            n as usize
        } else {
            0
        },
        None => 0,
    }
}

/// The procedure that a row defines, if it is a definition of `name`.
pub open spec fn definition(row: Seq<ValueView>, name: Seq<char>) -> Option<ProcedureView> {
    if row.len() == 4 {
        match (row[0], row[1], row[2], row[3]) {
            (
                ValueView::Text(n),
                ValueView::Text(count),
                ValueView::Text(outs),
                ValueView::Text(body),
            ) => if n == name {
                Some(
                    ProcedureView {
                        param_count: spelled_count(count),
                        out_params: if outs.len() == 0 {
                            Seq::empty()
                        } else {
                            catalog::split(outs, ',')
                        },
                        body,
                    },
                )
            } else {
                None
            },
            _ => None,
        }
    } else {
        None
    }
}

/// `r` is the procedure `expected`, where there is one.
pub open spec fn same_procedure(expected: Option<ProcedureView>, r: Option<Procedure>) -> bool {
    match expected {
        Some(p) => r matches Some(x) && x.deep_view() == p,
        None => r is None,
    }
}

/// The procedure that a row defines, if it is a definition of `name`.
pub fn read_procedure(row: &Row, name: &str) -> (r: Option<Procedure>)
    ensures
        same_procedure(definition(row.deep_view(), name@), r),
{
    if row.len() != 4 {
        return None;
    }
    let ghost rv = row.deep_view();
    assert(rv[0] == row@[0]@ && rv[1] == row@[1]@ && rv[2] == row@[2]@ && rv[3] == row@[3]@);
    match (&row[0], &row[1], &row[2], &row[3]) {
        (Value::Text(n), Value::Text(count), Value::Text(outs), Value::Text(body)) => {
            if !same_text(n.as_str(), name) {
                return None;
            }
            let param_count: usize = match parse_u64(count.as_str()) {
                Some(v) => if v <= usize::MAX as u64 {
                    v as usize
                } else {
                    0
                },
                None => 0,
            };
            let out_params: Vec<String> = if outs.as_str().is_empty() {
                Vec::new()
            } else {
                split_text(outs.as_str(), ',')
            };
            let p = Procedure { param_count, out_params, body: body.clone() };
            assert(p.deep_view().out_params =~= definition(rv, name@).unwrap().out_params);
            Some(p)
        },
        _ => None,
    }
}

/// The definition of `name`, from the `i`-th row on.
pub open spec fn defined_from(rows: Seq<Seq<ValueView>>, name: Seq<char>, i: nat) -> Option<ProcedureView>
    decreases rows.len() - i,
{
    if i >= rows.len() {
        None
    } else {
        match definition(rows[i as int], name) {
            Some(p) => Some(p),
            None => defined_from(rows, name, i + 1),
        }
    }
}

/// The definition of a procedure.
pub fn find_procedure(rows: &Vec<Row>, name: &str) -> (r: Option<Procedure>)
    ensures
        same_procedure(defined_from(rows.deep_view(), name@, 0), r),
{
    let n: usize = rows.len();
    let ghost rv = rows.deep_view();
    let mut i: usize = 0;
    while i < n
        invariant
            n == rows@.len(),
            rv == rows.deep_view(),
            i <= n,
            defined_from(rv, name@, 0) == defined_from(rv, name@, i as nat),
        decreases n - i,
    {
        assert(rv[i as int] == rows@[i as int].deep_view());
        if let Some(p) = read_procedure(&rows[i], name) {
            return Some(p);
        }
        i += 1;
    }
    None
}

/// Check `CREATE PROCEDURE`: the places of the rows that the new definition replaces.
///
/// Refused where there is such a procedure and it is not to be replaced.
pub fn check_create(rows: &Vec<Row>, name: &str, or_replace: bool) -> (r: Result<Vec<usize>, Error>)
    ensures
        if !or_replace && defined_from(rows.deep_view(), name@, 0) is Some {
            r matches Err(Error::ProcedureExists(n)) && n@ == name@
        } else {
            r matches Ok(places) && places@ == catalog::rows_named(
                rows.deep_view(),
                name@,
                rows@.len(),
            )
        },
{
    if !or_replace {
        if let Some(_) = find_procedure(rows, name) {
            return Err(Error::ProcedureExists(name.to_owned()));
        }
    }
    Ok(find_named(rows, name))
}

/// Check `DROP PROCEDURE`: the places of the rows that go.
///
/// Refused where there are none, unless `if_exists`.
pub fn check_drop(rows: &Vec<Row>, name: &str, if_exists: bool) -> (r: Result<Vec<usize>, Error>)
    ensures
        ({
            let places = catalog::rows_named(rows.deep_view(), name@, rows@.len());
            if places.len() == 0 && !if_exists {
                r matches Err(Error::ProcedureNotFound(n)) && n@ == name@
            } else {
                r matches Ok(x) && x@ == places
            }
        }),
{
    let places = find_named(rows, name);
    if places.len() == 0 && !if_exists {
        return Err(Error::ProcedureNotFound(name.to_owned()));
    }
    Ok(places)
}

/// Check `CALL`: the procedure to run.
///
/// Refused where there is none of that name, or it takes another number of arguments.
pub fn check_call(rows: &Vec<Row>, name: &str, args: usize) -> (r: Result<Procedure, Error>)
    ensures
        match defined_from(rows.deep_view(), name@, 0) {
            Some(p) => if p.param_count == args {
                r matches Ok(x) && x.deep_view() == p
            } else {
                r matches Err(Error::ProcedureArgCount { name: n, expected, found }) && n@ == name@
                    && expected == p.param_count && found == args
            },
            None => r matches Err(Error::ProcedureNotFound(n)) && n@ == name@,
        },
{
    match find_procedure(rows, name) {
        Some(p) => {
            if p.param_count != args {
                return Err(
                    Error::ProcedureArgCount {
                        name: name.to_owned(),
                        expected: p.param_count,
                        found: args,
                    },
                );
            }
            Ok(p)
        },
        None => Err(Error::ProcedureNotFound(name.to_owned())),
    }
}

/// What a call gives back.
#[derive(Debug, PartialEq, Eq)]
pub enum CallResult {
    /// There are no `OUT` parameters.
    Called,
    /// One row, of the `OUT` parameters.
    Rows { columns: Vec<String>, row: Row },
}

/// The values of the `OUT` parameters when a call ends: those of the variables of these names, NULL
/// where there is none.
pub open spec fn out_values(
    out_params: Seq<Seq<char>>,
    variables: Map<Seq<char>, ValueView>,
) -> Seq<ValueView> {
    Seq::new(
        out_params.len(),
        |i: int|
            if variables.dom().contains(out_params[i]) {
                variables[out_params[i]]
            } else {
                ValueView::Null
            },
    )
}

/// The result of a call: one row of the `OUT` parameters' final values, or none where there are no
/// such parameters. A body that is a plain list of statements has no variables.
pub fn call_result(out_params: Vec<String>, variables: &NameMap<Value>) -> (r: CallResult)
    ensures
        if out_params@.len() == 0 {
            r == CallResult::Called
        } else {
            r matches CallResult::Rows { columns, row } && columns.deep_view() == out_params.deep_view()
                && row.deep_view() == out_values(
                out_params.deep_view(),
                variables@,
            )
        },
{
    let n: usize = out_params.len();
    if n == 0 {
        return CallResult::Called;
    }
    let ghost ps = out_params.deep_view();
    let ghost vars = variables@;
    let ghost want = out_values(ps, vars);
    let mut row: Vec<Value> = Vec::new();
    let mut i: usize = 0;
    while i < n
        invariant
            n == out_params@.len(),
            ps == out_params.deep_view(),
            vars == variables@,
            want == out_values(ps, vars),
            i <= n,
            row@.len() == i,
            forall|k: int| 0 <= k < i ==> (#[trigger] row@[k])@ == want[k],
        decreases n - i,
    {
        assert(ps[i as int] == out_params@[i as int]@);
        let v: Value = match variables.get(out_params[i].as_str()) {
            Some(v) => v.clone(),
            None => Value::Null,
        };
        assert(v@ == want[i as int]);
        row.push(v);
        i += 1;
    }
    assert(row.deep_view() =~= want);
    CallResult::Rows { columns: out_params, row }
}

/// A procedure is read back from the catalog as it was recorded, where the names of its `OUT`
/// parameters hold no comma and do not consist of one empty name.
pub proof fn law_procedure_round_trip(name: Seq<char>, p: ProcedureView)
    requires
        forall|i: int| 0 <= i < p.out_params.len() ==> !(#[trigger] p.out_params[i]).contains(','),
        p.out_params.len() == 1 ==> p.out_params[0].len() > 0,
    ensures
        definition(recorded(name, p), name) == Some(p),
{
    let joined = catalog::join(p.out_params, ',');
    numbers::law_decimal_round_trip(p.param_count as int);
    if p.out_params.len() == 0 {
        assert(p.out_params =~= Seq::<Seq<char>>::empty());
    } else {
        catalog::law_split_undoes_join(p.out_params, ',');
        assert(joined.len() > 0);
    }
}

} // verus!
