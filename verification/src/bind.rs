//! Binding script variables in SQL statements.
//!
//! A bare column name stands for the variable of that name unless a table in scope has a column of
//! that name: the column shadows the variable. A query's tables are in scope in its own clauses, but
//! not in the bodies of its CTEs; an `INSERT` target is in scope only in `RETURNING`.
use vstd::prelude::*;
use crate::names::NameMap;
use crate::text;
use crate::value::{Value, ValueView};

pub mod meaning;

verus! {

/// What a piece of syntax is.
#[derive(Debug, PartialEq, Eq)]
pub enum SyntaxNode {
    /// A bare column name.
    Column(String),
    Literal(Value),
    /// Any other expression or clause, by its number: its parts are in the scope that it is in.
    Part(u32),
    /// A statement that brings the columns of `tables` into scope, but not in its first
    /// `inherited` parts.
    Scope { tables: Vec<String>, inherited: usize },
}

#[derive(Debug, PartialEq, Eq)]
pub struct Syntax {
    pub node: SyntaxNode,
    pub parts: Vec<Syntax>,
}

pub enum SyntaxNodeView {
    Column(Seq<char>),
    Literal(ValueView),
    Part(u32),
    Scope { tables: Seq<Seq<char>>, inherited: nat },
}

pub struct SyntaxView {
    pub node: SyntaxNodeView,
    pub parts: Seq<SyntaxView>,
}

pub open spec fn syntax_node_view(n: SyntaxNode) -> SyntaxNodeView {
    match n {
        SyntaxNode::Column(s) => SyntaxNodeView::Column(s@),
        SyntaxNode::Literal(v) => SyntaxNodeView::Literal(v@),
        SyntaxNode::Part(k) => SyntaxNodeView::Part(k),
        SyntaxNode::Scope { tables, inherited } => SyntaxNodeView::Scope {
            tables: tables.deep_view(),
            inherited: inherited as nat,
        },
    }
}

pub open spec fn syntax_view(s: Syntax) -> SyntaxView
    decreases s,
{
    SyntaxView {
        node: syntax_node_view(s.node),
        parts: Seq::new(
            s.parts@.len(),
            |i: int|
                if 0 <= i < s.parts@.len() {
                    syntax_view(s.parts@[i])
                } else {
                    arbitrary()
                },
        ),
    }
}

impl DeepView for Syntax {
    type V = SyntaxView;

    open spec fn deep_view(&self) -> SyntaxView {
        syntax_view(*self)
    }
}

impl View for Syntax {
    type V = SyntaxView;

    open spec fn view(&self) -> SyntaxView {
        syntax_view(*self)
    }
}

proof fn lemma_syntax_view(s: Syntax)
    ensures
        s@.node == syntax_node_view(s.node),
        s@.parts == s.parts.deep_view(),
        s@ == (SyntaxView { node: syntax_node_view(s.node), parts: s.parts.deep_view() }),
{
    assert(s@.parts =~= s.parts.deep_view());
}

/// The columns of each table that is known.
pub type Schemas = Map<Seq<char>, Seq<Seq<char>>>;

/// `name` is a column of one of `tables`. An unknown table has no columns.
pub open spec fn is_column_of(name: Seq<char>, tables: Seq<Seq<char>>, schemas: Schemas) -> bool {
    exists|i: int|
        0 <= i < tables.len() && schemas.contains_key(#[trigger] tables[i])
            && schemas[tables[i]].contains(name)
}

/// `shadowed` and the columns of `tables`.
pub open spec fn with_tables(
    shadowed: Set<Seq<char>>,
    tables: Seq<Seq<char>>,
    schemas: Schemas,
) -> Set<Seq<char>> {
    Set::new(|n: Seq<char>| shadowed.contains(n) || is_column_of(n, tables, schemas))
}

/// `s` with its variables replaced by their values; the names in `shadowed` are columns.
pub open spec fn bound(
    s: SyntaxView,
    env: Map<Seq<char>, ValueView>,
    schemas: Schemas,
    shadowed: Set<Seq<char>>,
) -> SyntaxView
    decreases s, 0nat,
{
    match s.node {
        SyntaxNodeView::Column(name) => if !shadowed.contains(name) && env.contains_key(name) {
            SyntaxView { node: SyntaxNodeView::Literal(env[name]), parts: s.parts }
        } else {
            s
        },
        SyntaxNodeView::Literal(_) => s,
        SyntaxNodeView::Part(_) => SyntaxView {
            node: s.node,
            parts: bound_parts(s.parts, env, schemas, shadowed, shadowed, 0),
        },
        SyntaxNodeView::Scope { tables, inherited } => SyntaxView {
            node: s.node,
            parts: bound_parts(
                s.parts,
                env,
                schemas,
                shadowed,
                with_tables(shadowed, tables, schemas),
                inherited,
            ),
        },
    }
}

/// `parts` bound: the first `inherited` of them in the scope `outer`, the rest in `inner`.
pub open spec fn bound_parts(
    parts: Seq<SyntaxView>,
    env: Map<Seq<char>, ValueView>,
    schemas: Schemas,
    outer: Set<Seq<char>>,
    inner: Set<Seq<char>>,
    inherited: nat,
) -> Seq<SyntaxView>
    decreases parts, 1nat,
{
    Seq::new(
        parts.len(),
        |i: int|
            if 0 <= i < parts.len() {
                bound(
                    parts[i],
                    env,
                    schemas,
                    if i < inherited {
                        outer
                    } else {
                        inner
                    },
                )
            } else {
                arbitrary()
            },
    )
}

/// The names in a list.
pub open spec fn names(v: Seq<String>) -> Set<Seq<char>> {
    Set::new(|n: Seq<char>| exists|i: int| 0 <= i < v.len() && (#[trigger] v[i])@ == n)
}

fn contains_name(v: &Vec<String>, name: &str) -> (r: bool)
    ensures
        r == names(v@).contains(name@),
{
    let mut i: usize = 0;
    while i < v.len()
        invariant
            i <= v@.len(),
            forall|k: int| 0 <= k < i ==> (#[trigger] v@[k])@ != name@,
        decreases v@.len() - i,
    {
        if text::same_text(v[i].as_str(), name) {
            return true;
        }
        i += 1;
    }
    false
}

/// `shadowed` extended with the columns of `tables`.
fn with_table_columns(
    shadowed: &Vec<String>,
    tables: &Vec<String>,
    schemas: &NameMap<Vec<String>>,
) -> (r: Vec<String>)
    ensures
        names(r@) == with_tables(names(shadowed@), tables.deep_view(), schemas@),
{
    let mut out: Vec<String> = Vec::new();
    let ghost tv = tables.deep_view();
    let mut i: usize = 0;
    while i < shadowed.len()
        invariant
            i <= shadowed@.len(),
            out@ == shadowed@.take(i as int),
        decreases shadowed@.len() - i,
    {
        out.push(shadowed[i].clone());
        i += 1;
        assert(out@ =~= shadowed@.take(i as int));
    }
    assert(shadowed@.take(shadowed@.len() as int) =~= shadowed@);
    assert(names(out@) =~= with_tables(names(shadowed@), tv.take(0), schemas@));
    let mut t: usize = 0;
    while t < tables.len()
        invariant
            t <= tables@.len(),
            tv == tables.deep_view(),
            names(out@) == with_tables(names(shadowed@), tv.take(t as int), schemas@),
        decreases tables@.len() - t,
    {
        let ghost before = out@;
        assert(tv[t as int] == tables@[t as int]@);
        let ghost head = tv.take(t as int);
        let ghost next = tv.take(t + 1);
        assert(next =~= head.push(tv[t as int]));
        match schemas.get(tables[t].as_str()) {
            Some(cols) => {
                let mut k: usize = 0;
                while k < cols.len()
                    invariant
                        k <= cols@.len(),
                        out@ == before + cols@.take(k as int),
                    decreases cols@.len() - k,
                {
                    out.push(cols[k].clone());
                    k += 1;
                    assert(out@ =~= before + cols@.take(k as int));
                }
                proof {
                    assert(out@ =~= before + cols@);
                    let cv = cols.deep_view();
                    assert forall|n: Seq<char>| names(out@).contains(n) <==> with_tables(
                        names(shadowed@),
                        next,
                        schemas@,
                    ).contains(n) by {
                        if names(out@).contains(n) {
                            let j = choose|j: int| 0 <= j < out@.len() && (#[trigger] out@[j])@ == n;
                            if j < before.len() {
                                assert(before[j]@ == n);
                                assert(names(before).contains(n));
                                if is_column_of(n, head, schemas@) {
                                    let w = choose|w: int|
                                        0 <= w < head.len() && schemas@.contains_key(#[trigger] head[w])
                                            && schemas@[head[w]].contains(n);
                                    assert(next[w] == head[w]);
                                }
                            } else {
                                assert(cv[j - before.len()] == n);
                                assert(cv.contains(n));
                                assert(next[t as int] == tv[t as int]);
                                assert(is_column_of(n, next, schemas@));
                            }
                        }
                        if with_tables(names(shadowed@), next, schemas@).contains(n) {
                            if names(before).contains(n) {
                                let j = choose|j: int|
                                    0 <= j < before.len() && (#[trigger] before[j])@ == n;
                                assert(out@[j]@ == n);
                            } else {
                                assert(is_column_of(n, next, schemas@));
                                let w = choose|w: int|
                                    0 <= w < next.len() && schemas@.contains_key(#[trigger] next[w])
                                        && schemas@[next[w]].contains(n);
                                if w < t {
                                    assert(head[w] == next[w]);
                                    assert(is_column_of(n, head, schemas@));
                                }
                                assert(w == t);
                                let c = choose|c: int| 0 <= c < cv.len() && cv[c] == n;
                                assert(out@[before.len() + c]@ == n);
                            }
                        }
                    }
                    assert(names(out@) =~= with_tables(names(shadowed@), next, schemas@));
                }
            },
            None => {
                proof {
                    assert forall|n: Seq<char>| is_column_of(n, head, schemas@) == is_column_of(
                        n,
                        next,
                        schemas@,
                    ) by {
                        if is_column_of(n, head, schemas@) {
                            let w = choose|w: int|
                                0 <= w < head.len() && schemas@.contains_key(#[trigger] head[w])
                                    && schemas@[head[w]].contains(n);
                            assert(next[w] == head[w]);
                        }
                        if is_column_of(n, next, schemas@) {
                            let w = choose|w: int|
                                0 <= w < next.len() && schemas@.contains_key(#[trigger] next[w])
                                    && schemas@[next[w]].contains(n);
                            assert(head[w] == next[w]);
                        }
                    }
                    assert(names(out@) =~= with_tables(names(shadowed@), next, schemas@));
                }
            },
        }
        t += 1;
    }
    assert(tv.take(tv.len() as int) =~= tv);
    out
}

fn clone_names(v: &Vec<String>) -> (r: Vec<String>)
    ensures
        r.deep_view() == v.deep_view(),
{
    let mut out: Vec<String> = Vec::new();
    let mut i: usize = 0;
    while i < v.len()
        invariant
            i <= v@.len(),
            out@.len() == i,
            forall|k: int| 0 <= k < i ==> (#[trigger] out@[k])@ == v@[k]@,
        decreases v@.len() - i,
    {
        out.push(v[i].clone());
        i += 1;
    }
    assert(out.deep_view() =~= v.deep_view());
    out
}

impl Clone for Syntax {
    fn clone(&self) -> (r: Syntax)
        ensures
            r@ == self@,
        decreases self,
    {
        let node = match &self.node {
            SyntaxNode::Column(s) => SyntaxNode::Column(s.clone()),
            SyntaxNode::Literal(v) => SyntaxNode::Literal(v.clone()),
            SyntaxNode::Part(k) => SyntaxNode::Part(*k),
            SyntaxNode::Scope { tables, inherited } => SyntaxNode::Scope {
                tables: clone_names(tables),
                inherited: *inherited,
            },
        };
        let mut out: Vec<Syntax> = Vec::new();
        let mut i: usize = 0;
        while i < self.parts.len()
            invariant
                i <= self.parts@.len(),
                out@.len() == i,
                forall|k: int| 0 <= k < i ==> out@[k]@ == self.parts@[k]@,
            decreases self.parts@.len() - i,
        {
            assert(decreases_to!(*self => self.parts));
            assert(decreases_to!(self.parts => self.parts[i as int]));
            out.push(self.parts[i].clone());
            i += 1;
        }
        let r = Syntax { node, parts: out };
        proof {
            lemma_syntax_view(*self);
            lemma_syntax_view(r);
            assert(r.parts.deep_view() =~= self.parts.deep_view());
        }
        r
    }
}

/// `s` with its variables replaced by their values.
///
/// `schemas` are the tables that the statement may mention; the names in `shadowed` are columns.
pub fn bind_vars(
    s: &Syntax,
    env: &NameMap<Value>,
    schemas: &NameMap<Vec<String>>,
    shadowed: &Vec<String>,
) -> (r: Syntax)
    ensures
        r@ == bound(s@, env@, schemas@, names(shadowed@)),
    decreases s, 0nat,
{
    proof {
        lemma_syntax_view(*s);
    }
    match &s.node {
        SyntaxNode::Column(name) => {
            if !contains_name(shadowed, name.as_str()) {
                if let Some(v) = env.get(name.as_str()) {
                    let mut r = s.clone();
                    proof {
                        lemma_syntax_view(r);
                    }
                    r.node = SyntaxNode::Literal(v.clone());
                    proof {
                        lemma_syntax_view(r);
                    }
                    return r;
                }
            }
            s.clone()
        },
        SyntaxNode::Literal(_) => s.clone(),
        SyntaxNode::Part(k) => {
            let parts = bind_vars_parts(s, env, schemas, shadowed, shadowed, 0);
            let r = Syntax { node: SyntaxNode::Part(*k), parts };
            proof {
                lemma_syntax_view(r);
            }
            r
        },
        SyntaxNode::Scope { tables, inherited } => {
            let inner = with_table_columns(shadowed, tables, schemas);
            let parts = bind_vars_parts(s, env, schemas, shadowed, &inner, *inherited);
            let r = Syntax {
                node: SyntaxNode::Scope { tables: clone_names(tables), inherited: *inherited },
                parts,
            };
            proof {
                lemma_syntax_view(r);
            }
            r
        },
    }
}

fn bind_vars_parts(
    s: &Syntax,
    env: &NameMap<Value>,
    schemas: &NameMap<Vec<String>>,
    outer: &Vec<String>,
    inner: &Vec<String>,
    inherited: usize,
) -> (r: Vec<Syntax>)
    ensures
        r.deep_view() == bound_parts(
            s@.parts,
            env@,
            schemas@,
            names(outer@),
            names(inner@),
            inherited as nat,
        ),
    decreases s.parts, 1nat,
{
    proof {
        lemma_syntax_view(*s);
    }
    let ghost want = bound_parts(
        s@.parts,
        env@,
        schemas@,
        names(outer@),
        names(inner@),
        inherited as nat,
    );
    let mut out: Vec<Syntax> = Vec::new();
    let mut i: usize = 0;
    while i < s.parts.len()
        invariant
            i <= s.parts@.len(),
            out@.len() == i,
            s@.parts == s.parts.deep_view(),
            want == bound_parts(
                s@.parts,
                env@,
                schemas@,
                names(outer@),
                names(inner@),
                inherited as nat,
            ),
            forall|k: int| 0 <= k < i ==> (#[trigger] out@[k])@ == want[k],
        decreases s.parts@.len() - i,
    {
        assert(decreases_to!(s.parts => s.parts[i as int]));
        assert(s@.parts[i as int] == s.parts@[i as int]@);
        let part = if i < inherited {
            bind_vars(&s.parts[i], env, schemas, outer)
        } else {
            bind_vars(&s.parts[i], env, schemas, inner)
        };
        out.push(part);
        i += 1;
    }
    assert(out.deep_view() =~= want);
    out
}

/// `stmt` with its variables replaced by their values, in the scope of no table.
pub fn bind(stmt: &Syntax, env: &NameMap<Value>, schemas: &NameMap<Vec<String>>) -> (r: Syntax)
    ensures
        r@ == bound(stmt@, env@, schemas@, Set::empty()),
{
    let none: Vec<String> = Vec::new();
    assert(names(none@) =~= Set::empty());
    bind_vars(stmt, env, schemas, &none)
}

// ---------------------------------------------------------------- statements

/// An item of a `FROM` clause: a named table, or a derived table (a subquery, a `VALUES` list or a
/// set operation) whose pieces are `parts`; with the `ON` condition of its join.
pub struct FromItem {
    pub table: Option<String>,
    pub parts: Vec<Syntax>,
    pub on: Option<Syntax>,
}

/// The tables that the first `n` items name. A derived table has its own scope and names none.
pub open spec fn from_tables(items: Seq<FromItem>, n: nat) -> Seq<Seq<char>>
    decreases n,
{
    if n == 0 {
        Seq::empty()
    } else {
        let head = from_tables(items, (n - 1) as nat);
        match items[n - 1].table {
            Some(t) => head.push(t@),
            None => head,
        }
    }
}

/// The pieces of the first `n` items.
pub open spec fn from_parts(items: Seq<FromItem>, n: nat) -> Seq<SyntaxView>
    decreases n,
{
    if n == 0 {
        Seq::empty()
    } else {
        let head = from_parts(items, (n - 1) as nat);
        let one = head + items[n - 1].parts.deep_view();
        match items[n - 1].on {
            Some(e) => one.push(e@),
            None => one,
        }
    }
}

fn push_all(out: &mut Vec<Syntax>, more: Vec<Syntax>)
    ensures
        final(out).deep_view() == old(out).deep_view() + more.deep_view(),
{
    let ghost a = out.deep_view();
    let mut more = more;
    let ghost b = more.deep_view();
    out.append(&mut more);
    assert(out.deep_view() =~= a + b);
}

/// Append the tables and the pieces of a `FROM` clause.
fn add_from(from: Vec<FromItem>, tables: &mut Vec<String>, parts: &mut Vec<Syntax>)
    ensures
        final(tables).deep_view() == old(tables).deep_view() + from_tables(from@, from@.len()),
        final(parts).deep_view() == old(parts).deep_view() + from_parts(from@, from@.len()),
{
    let ghost all = from@;
    let ghost t0 = tables.deep_view();
    let ghost p0 = parts.deep_view();
    assert(tables.deep_view() =~= t0 + from_tables(all, 0));
    assert(parts.deep_view() =~= p0 + from_parts(all, 0));
    for item in it: from
        invariant
            it.seq() == all,
            tables.deep_view() == t0 + from_tables(all, it.index() as nat),
            parts.deep_view() == p0 + from_parts(all, it.index() as nat),
    {
        let ghost n = it.index() as nat;
        assert(item == all[n as int]);
        let ghost tb = tables.deep_view();
        match item.table {
            Some(t) => {
                tables.push(t);
                assert(tables.deep_view() =~= tb.push(t@));
            },
            None => {},
        }
        assert(tables.deep_view() =~= t0 + from_tables(all, n + 1));
        push_all(parts, item.parts);
        let ghost pb = parts.deep_view();
        match item.on {
            Some(e) => {
                parts.push(e);
                assert(parts.deep_view() =~= pb.push(e@));
            },
            None => {},
        }
        assert(parts.deep_view() =~= p0 + from_parts(all, n + 1));
    }
}

fn scope(tables: Vec<String>, inherited: usize, parts: Vec<Syntax>) -> (r: Syntax)
    ensures
        r@ == (SyntaxView {
            node: SyntaxNodeView::Scope { tables: tables.deep_view(), inherited: inherited as nat },
            parts: parts.deep_view(),
        }),
{
    let r = Syntax { node: SyntaxNode::Scope { tables, inherited }, parts };
    proof {
        lemma_syntax_view(r);
    }
    r
}

/// A `SELECT`: the bodies of its CTEs, which do not see its `FROM`, then its clauses, which do.
pub fn select(ctes: Vec<Syntax>, from: Vec<FromItem>, clauses: Vec<Syntax>) -> (r: Syntax)
    ensures
        r@ == (SyntaxView {
            node: SyntaxNodeView::Scope {
                tables: from_tables(from@, from@.len()),
                inherited: ctes@.len(),
            },
            parts: ctes.deep_view() + from_parts(from@, from@.len()) + clauses.deep_view(),
        }),
{
    let inherited: usize = ctes.len();
    let mut parts = ctes;
    let mut tables: Vec<String> = Vec::new();
    assert(tables.deep_view() =~= Seq::<Seq<char>>::empty());
    let ghost all = from@;
    add_from(from, &mut tables, &mut parts);
    push_all(&mut parts, clauses);
    assert(tables.deep_view() =~= from_tables(all, all.len()));
    scope(tables, inherited, parts)
}

/// An `INSERT`: its row source, which does not see the target, then its `RETURNING` list, which
/// does.
pub fn insert(table: String, source: Vec<Syntax>, returning: Vec<Syntax>) -> (r: Syntax)
    ensures
        r@ == (SyntaxView {
            node: SyntaxNodeView::Scope { tables: seq![table@], inherited: source@.len() },
            parts: source.deep_view() + returning.deep_view(),
        }),
{
    let inherited: usize = source.len();
    let mut parts = source;
    push_all(&mut parts, returning);
    let mut tables: Vec<String> = Vec::new();
    tables.push(table);
    assert(tables.deep_view() =~= seq![table@]);
    scope(tables, inherited, parts)
}

/// An `UPDATE` or `DELETE`: its target and its other tables are in scope in all of its clauses.
pub fn modify(table: String, from: Vec<FromItem>, clauses: Vec<Syntax>) -> (r: Syntax)
    ensures
        r@ == (SyntaxView {
            node: SyntaxNodeView::Scope {
                tables: seq![table@] + from_tables(from@, from@.len()),
                inherited: 0,
            },
            parts: from_parts(from@, from@.len()) + clauses.deep_view(),
        }),
{
    let mut tables: Vec<String> = Vec::new();
    let ghost name = table@;
    tables.push(table);
    assert(tables.deep_view() =~= seq![name]);
    let mut parts: Vec<Syntax> = Vec::new();
    assert(parts.deep_view() =~= Seq::<SyntaxView>::empty());
    let ghost all = from@;
    add_from(from, &mut tables, &mut parts);
    assert(parts.deep_view() =~= from_parts(all, all.len()));
    push_all(&mut parts, clauses);
    scope(tables, 0, parts)
}

// ---------------------------------------------------------------- laws

/// Without variables nothing changes.
pub proof fn law_no_variables_no_change(s: SyntaxView, schemas: Schemas, shadowed: Set<Seq<char>>)
    ensures
        bound(s, Map::empty(), schemas, shadowed) == s,
    decreases s,
{
    let env = Map::<Seq<char>, ValueView>::empty();
    let (inner, inherited) = match s.node {
        SyntaxNodeView::Scope { tables, inherited } => (
            with_tables(shadowed, tables, schemas),
            inherited,
        ),
        _ => (shadowed, 0nat),
    };
    assert forall|i: int| 0 <= i < s.parts.len() implies #[trigger] bound_parts(
        s.parts,
        env,
        schemas,
        shadowed,
        inner,
        inherited,
    )[i] == s.parts[i] by {
        law_no_variables_no_change(
            s.parts[i],
            schemas,
            if i < inherited {
                shadowed
            } else {
                inner
            },
        );
    }
    assert(bound_parts(s.parts, env, schemas, shadowed, inner, inherited) =~= s.parts);
}

/// Binding a bound statement again changes nothing.
pub proof fn law_binding_again_changes_nothing(
    s: SyntaxView,
    env: Map<Seq<char>, ValueView>,
    schemas: Schemas,
    shadowed: Set<Seq<char>>,
)
    ensures
        bound(bound(s, env, schemas, shadowed), env, schemas, shadowed) == bound(
            s,
            env,
            schemas,
            shadowed,
        ),
    decreases s,
{
    let (inner, inherited) = match s.node {
        SyntaxNodeView::Scope { tables, inherited } => (
            with_tables(shadowed, tables, schemas),
            inherited,
        ),
        _ => (shadowed, 0nat),
    };
    let once = bound_parts(s.parts, env, schemas, shadowed, inner, inherited);
    let twice = bound_parts(once, env, schemas, shadowed, inner, inherited);
    assert forall|i: int| 0 <= i < once.len() implies twice[i] == once[i] by {
        law_binding_again_changes_nothing(
            s.parts[i],
            env,
            schemas,
            if i < inherited {
                shadowed
            } else {
                inner
            },
        );
    }
    assert(twice =~= once);
}

/// A name that a table in scope has as a column is left for the column, whatever variable goes by
/// it; in the source of an `INSERT` a name that only the target has is not.
pub proof fn law_columns_shadow_variables(
    name: Seq<char>,
    parts: Seq<SyntaxView>,
    tables: Seq<Seq<char>>,
    inherited: nat,
    i: int,
    env: Map<Seq<char>, ValueView>,
    schemas: Schemas,
)
    requires
        0 <= i < parts.len(),
        parts[i].node == SyntaxNodeView::Column(name),
        env.contains_key(name),
    ensures
        ({
            let stmt = SyntaxView { node: SyntaxNodeView::Scope { tables, inherited }, parts };
            let after = bound(stmt, env, schemas, Set::empty()).parts[i];
            if i >= inherited && is_column_of(name, tables, schemas) {
                after == parts[i]
            } else {
                after.node == SyntaxNodeView::Literal(env[name])
            }
        }),
{
    let stmt = SyntaxView { node: SyntaxNodeView::Scope { tables, inherited }, parts };
    let inner = with_tables(Set::empty(), tables, schemas);
    assert(bound(stmt, env, schemas, Set::empty()).parts == bound_parts(
        parts,
        env,
        schemas,
        Set::empty(),
        inner,
        inherited,
    ));
}

} // verus!
